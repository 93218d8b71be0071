use vstd::prelude::*;

verus! {

/// `String::push` appends one character at the end of the string.
pub assume_specification[ String::push ](s: &mut String, ch: char)
    ensures
        final(s)@ == old(s)@.push(ch),
;

/// The characters of `s`, in order.
pub fn chars_of(s: &str) -> (v: Vec<char>)
    ensures
        v@ == s@,
{
    let mut v: Vec<char> = Vec::new();
    for c in it: s.chars()
        invariant
            v@ == it.seq().take(it.index() as int),
    {
        v.push(c);
    }
    v
}

/// A string holding the characters of `cs`, in order.
pub fn string_of(cs: &[char]) -> (r: String)
    ensures
        r@ == cs@,
{
    let mut r = String::new();
    let n = cs.len();
    for i in 0..n
        invariant
            n == cs@.len(),
            r@ == cs@.take(i as int),
    {
        r.push(cs[i]);
        assert(cs@.take(i + 1) == cs@.take(i as int).push(cs@[i as int]));
    }
    assert(cs@.take(n as int) == cs@);
    r
}

} // verus!

verus! {

/// `p` occurs in `s` starting at position `i`.
pub open spec fn occurs_at(s: Seq<char>, p: Seq<char>, i: int) -> bool {
    0 <= i && i + p.len() <= s.len() && s.subrange(i, i + p.len()) == p
}

/// `p` occurs somewhere in `s` (the empty pattern occurs in every string).
pub open spec fn contains(s: Seq<char>, p: Seq<char>) -> bool {
    exists|i: int| occurs_at(s, p, i)
}

/// Number of non-overlapping occurrences of `p` in `s`, found from left to right;
/// the empty pattern matches at every character boundary.
pub open spec fn count_matches(s: Seq<char>, p: Seq<char>) -> nat
    decreases s.len(),
{
    if p.len() == 0 {
        s.len() + 1
    } else if s.len() < p.len() {
        0
    } else if s.take(p.len() as int) == p {
        1 + count_matches(s.skip(p.len() as int), p)
    } else {
        count_matches(s.drop_first(), p)
    }
}

/// `s` with every non-overlapping occurrence of `p` (found from left to right)
/// replaced by `r`; the empty pattern matches at every character boundary.
pub open spec fn replace_all(s: Seq<char>, p: Seq<char>, r: Seq<char>) -> Seq<char>
    decreases s.len(),
{
    if p.len() == 0 {
        if s.len() == 0 {
            r
        } else {
            r + seq![s[0]] + replace_all(s.drop_first(), p, r)
        }
    } else if s.len() < p.len() {
        s
    } else if s.take(p.len() as int) == p {
        r + replace_all(s.skip(p.len() as int), p, r)
    } else {
        seq![s[0]] + replace_all(s.drop_first(), p, r)
    }
}

/// Whether `p` occurs in `s` at position `i`.
fn occurs_at_exec(s: &Vec<char>, p: &Vec<char>, i: usize) -> (b: bool)
    ensures
        b == occurs_at(s@, p@, i as int),
{
    if i > s.len() || p.len() > s.len() - i {
        return false;
    }
    let m = p.len();
    let n = s.len();
    let mut j: usize = 0;
    while j < m
        invariant
            m == p@.len(),
            n == s@.len(),
            i + m <= n,
            j <= m,
            forall|k: int| 0 <= k < j ==> s@[i + k] == p@[k],
        decreases m - j,
    {
        if s[i + j] != p[j] {
            assert(s@.subrange(i as int, i + m)[j as int] != p@[j as int]);
            return false;
        }
        j = j + 1;
    }
    assert(s@.subrange(i as int, i + m) =~= p@);
    true
}

/// Whether `p` occurs in `s`.
pub fn contains_chars(s: &Vec<char>, p: &Vec<char>) -> (b: bool)
    ensures
        b == contains(s@, p@),
{
    let n = s.len();
    let mut i: usize = 0;
    while i < n
        invariant
            n == s@.len(),
            i <= n,
            forall|k: int| 0 <= k < i ==> !occurs_at(s@, p@, k),
        decreases n - i,
    {
        if occurs_at_exec(s, p, i) {
            return true;
        }
        i = i + 1;
    }
    if occurs_at_exec(s, p, n) {
        return true;
    }
    assert forall|k: int| !occurs_at(s@, p@, k) by {
        if 0 <= k <= n {
        }
    }
    false
}

/// Whether `p` occurs in `s`.
pub fn str_contains(s: &str, p: &str) -> (b: bool)
    ensures
        b == contains(s@, p@),
{
    let sv = chars_of(s);
    let pv = chars_of(p);
    contains_chars(&sv, &pv)
}

} // verus!

verus! {

/// Appends the characters of `src` to `dst`.
pub fn extend_chars(dst: &mut Vec<char>, src: &Vec<char>)
    ensures
        final(dst)@ == old(dst)@ + src@,
{
    let n = src.len();
    for i in 0..n
        invariant
            n == src@.len(),
            dst@ == old(dst)@ + src@.take(i as int),
    {
        dst.push(src[i]);
        assert(src@.take(i + 1) == src@.take(i as int).push(src@[i as int]));
    }
    assert(src@.take(n as int) == src@);
}

/// `s` with every non-overlapping occurrence of `p` replaced by `r`.
pub fn replace_chars(s: &Vec<char>, p: &Vec<char>, r: &Vec<char>) -> (out: Vec<char>)
    ensures
        out@ == replace_all(s@, p@, r@),
{
    let n = s.len();
    let m = p.len();
    let mut out: Vec<char> = Vec::new();
    let mut i: usize = 0;
    assert(s@.skip(0) == s@);
    while i < n
        invariant
            n == s@.len(),
            m == p@.len(),
            i <= n,
            out@ + replace_all(s@.skip(i as int), p@, r@) == replace_all(s@, p@, r@),
        decreases n - i,
    {
        let ghost rest = s@.skip(i as int);
        assert(rest.drop_first() =~= s@.skip(i + 1));
        if m == 0 {
            extend_chars(&mut out, r);
            out.push(s[i]);
            assert(replace_all(rest, p@, r@) == r@ + seq![s@[i as int]] + replace_all(rest.drop_first(), p@, r@));
            i = i + 1;
        } else if m > n - i {
            assert(replace_all(rest, p@, r@) == rest);
            extend_chars(&mut out, &s_tail(s, i));
            assert(s@.skip(n as int) =~= Seq::<char>::empty());
            i = n;
        } else if occurs_at_exec(s, p, i) {
            assert(rest.take(m as int) =~= s@.subrange(i as int, i + m));
            assert(rest.skip(m as int) =~= s@.skip(i + m));
            extend_chars(&mut out, r);
            i = i + m;
        } else {
            assert(rest.take(m as int) =~= s@.subrange(i as int, i + m));
            out.push(s[i]);
            i = i + 1;
        }
    }
    assert(s@.skip(n as int) =~= Seq::<char>::empty());
    if m == 0 {
        extend_chars(&mut out, r);
    }
    out
}

/// The characters of `s` from position `i` on.
pub fn s_tail(s: &Vec<char>, i: usize) -> (t: Vec<char>)
    requires
        i <= s@.len(),
    ensures
        t@ == s@.skip(i as int),
{
    let n = s.len();
    let mut t: Vec<char> = Vec::new();
    let mut j = i;
    while j < n
        invariant
            n == s@.len(),
            i <= j <= n,
            t@ == s@.subrange(i as int, j as int),
        decreases n - j,
    {
        t.push(s[j]);
        assert(s@.subrange(i as int, j + 1) == s@.subrange(i as int, j as int).push(s@[j as int]));
        j = j + 1;
    }
    t
}

/// Whether `p` occurs more than once, counting non-overlapping occurrences from left to right.
pub fn occurs_more_than_once(s: &Vec<char>, p: &Vec<char>) -> (b: bool)
    ensures
        b == (count_matches(s@, p@) > 1),
{
    let n = s.len();
    let m = p.len();
    if m == 0 {
        return n >= 1;
    }
    let mut i: usize = 0;
    let mut found: usize = 0;
    assert(s@.skip(0) == s@);
    while i < n
        invariant
            n == s@.len(),
            m == p@.len(),
            m > 0,
            i <= n,
            found <= 1,
            found + count_matches(s@.skip(i as int), p@) == count_matches(s@, p@),
        decreases n - i,
    {
        let ghost rest = s@.skip(i as int);
        assert(rest.drop_first() =~= s@.skip(i + 1));
        if m > n - i {
            assert(count_matches(rest, p@) == 0);
            i = n;
        } else if occurs_at_exec(s, p, i) {
            assert(rest.take(m as int) =~= s@.subrange(i as int, i + m));
            assert(rest.skip(m as int) =~= s@.skip(i + m));
            if found == 1 {
                return true;
            }
            found = found + 1;
            i = i + m;
        } else {
            assert(rest.take(m as int) =~= s@.subrange(i as int, i + m));
            i = i + 1;
        }
    }
    assert(s@.skip(n as int) =~= Seq::<char>::empty());
    false
}

} // verus!

verus! {

/// The decimal digit character for `d` (`0 <= d < 10`).
pub open spec fn digit_char(d: nat) -> char {
    if d == 0 { '0' }
    else if d == 1 { '1' }
    else if d == 2 { '2' }
    else if d == 3 { '3' }
    else if d == 4 { '4' }
    else if d == 5 { '5' }
    else if d == 6 { '6' }
    else if d == 7 { '7' }
    else if d == 8 { '8' }
    else { '9' }
}

/// Decimal notation of `n`, without leading zeros (`"0"` for zero).
pub open spec fn decimal(n: nat) -> Seq<char>
    decreases n,
{
    if n < 10 {
        seq![digit_char(n)]
    } else {
        decimal(n / 10).push(digit_char(n % 10))
    }
}

/// `s` padded on the left with zeros to at least two characters, as `{:02}` does for a number.
pub open spec fn pad2(s: Seq<char>) -> Seq<char> {
    if s.len() < 2 {
        seq!['0'] + s
    } else {
        s
    }
}

fn digit_exec(d: u64) -> (c: char)
    requires
        d < 10,
    ensures
        c == digit_char(d as nat),
{
    if d == 0 { '0' }
    else if d == 1 { '1' }
    else if d == 2 { '2' }
    else if d == 3 { '3' }
    else if d == 4 { '4' }
    else if d == 5 { '5' }
    else if d == 6 { '6' }
    else if d == 7 { '7' }
    else if d == 8 { '8' }
    else { '9' }
}

/// The decimal notation of `n`.
pub fn decimal_chars(n: u64) -> (v: Vec<char>)
    ensures
        v@ == decimal(n as nat),
        v@.len() >= 1,
{
    let mut m = n;
    let mut v: Vec<char> = Vec::new();
    loop
        invariant_except_break
            m > 0 || v@.len() == 0,
            m == 0 ==> m == n,
            v@.len() > 0 ==> decimal(n as nat) == decimal(m as nat) + v@,
            v@.len() == 0 ==> m == n,
        ensures
            decimal(n as nat) == v@,
            v@.len() >= 1,
        decreases m,
    {
        let d = digit_exec(m % 10);
        let ghost old_v = v@;
        let ghost old_m = m;
        v.insert(0, d);
        assert(v@ == seq![d] + old_v);
        m = m / 10;
        if m == 0 {
            proof {
                assert(decimal(old_m as nat) == seq![d]);
                if old_v.len() > 0 {
                    assert(decimal(n as nat) == seq![d] + old_v);
                } else {
                    assert(old_m == n);
                }
            }
            break;
        }
        proof {
            assert(decimal(old_m as nat) == decimal(m as nat).push(d));
            if old_v.len() > 0 {
                assert(decimal(n as nat) == decimal(m as nat) + v@);
            } else {
                assert(old_m == n);
                assert(decimal(n as nat) == decimal(m as nat) + v@);
            }
        }
    }
    v
}

/// The decimal notation of `n` padded with zeros to at least two digits.
pub fn pad2_chars(n: u64) -> (v: Vec<char>)
    ensures
        v@ == pad2(decimal(n as nat)),
{
    let d = decimal_chars(n);
    if d.len() < 2 {
        let mut v: Vec<char> = Vec::new();
        v.push('0');
        extend_chars(&mut v, &d);
        v
    } else {
        d
    }
}

} // verus!

verus! {

/// `s` with every `\` replaced by `/`.
pub open spec fn forward_slashes(s: Seq<char>) -> Seq<char> {
    s.map_values(|c: char| if c == '\\' { '/' } else { c })
}

/// `s` with every `\` replaced by `/`.
pub fn forward_slashes_exec(s: &str) -> (r: String)
    ensures
        r@ == forward_slashes(s@),
{
    let v = chars_of(s);
    let n = v.len();
    let mut out: Vec<char> = Vec::new();
    for i in 0..n
        invariant
            n == v@.len(),
            v@ == s@,
            out@ == forward_slashes(v@.take(i as int)),
    {
        let c = v[i];
        if c == '\\' {
            out.push('/');
        } else {
            out.push(c);
        }
        assert(forward_slashes(v@.take(i + 1)) =~= forward_slashes(v@.take(i as int)).push(
            if c == '\\' { '/' } else { c },
        ));
    }
    assert(v@.take(n as int) =~= v@);
    string_of(out.as_slice())
}

/// Whether `p` is a prefix of `s`.
pub fn is_prefix_chars(p: &Vec<char>, s: &Vec<char>) -> (b: bool)
    ensures
        b == (p@.len() <= s@.len() && s@.take(p@.len() as int) == p@),
{
    if p.len() > s.len() {
        return false;
    }
    let b = occurs_at_exec(s, p, 0);
    assert(s@.subrange(0, p@.len() as int) =~= s@.take(p@.len() as int));
    b
}

/// `s` without its leading `/` characters.
pub open spec fn trim_leading_slashes(s: Seq<char>) -> Seq<char>
    decreases s.len(),
{
    if s.len() > 0 && s[0] == '/' {
        trim_leading_slashes(s.drop_first())
    } else {
        s
    }
}

/// `s[from..]` without its leading `/` characters.
pub fn trim_leading_slashes_from(s: &Vec<char>, from: usize) -> (r: Vec<char>)
    requires
        from <= s@.len(),
    ensures
        r@ == trim_leading_slashes(s@.skip(from as int)),
{
    let n = s.len();
    let mut i = from;
    while i < n && s[i] == '/'
        invariant
            n == s@.len(),
            from <= i <= n,
            trim_leading_slashes(s@.skip(i as int)) == trim_leading_slashes(s@.skip(from as int)),
        decreases n - i,
    {
        assert(s@.skip(i as int).drop_first() =~= s@.skip(i + 1));
        i = i + 1;
    }
    s_tail(s, i)
}

/// Whether two character sequences are equal.
pub fn chars_eq(a: &Vec<char>, b: &Vec<char>) -> (r: bool)
    ensures
        r == (a@ == b@),
{
    if a.len() != b.len() {
        return false;
    }
    let r = occurs_at_exec(a, b, 0);
    assert(a@.subrange(0, b@.len() as int) =~= a@);
    r
}

} // verus!

verus! {

/// `s` with every `\` replaced by `/`.
pub fn forward_slashes_chars(s: &Vec<char>) -> (r: Vec<char>)
    ensures
        r@ == forward_slashes(s@),
{
    let n = s.len();
    let mut out: Vec<char> = Vec::new();
    for i in 0..n
        invariant
            n == s@.len(),
            out@ == forward_slashes(s@.take(i as int)),
    {
        let c = s[i];
        if c == '\\' {
            out.push('/');
        } else {
            out.push(c);
        }
        assert(forward_slashes(s@.take(i + 1)) =~= forward_slashes(s@.take(i as int)).push(
            if c == '\\' { '/' } else { c },
        ));
    }
    assert(s@.take(n as int) =~= s@);
    out
}

/// The strings of `v`, as a set of character sequences.
pub open spec fn string_set(v: Seq<String>) -> Set<Seq<char>> {
    Set::new(|s: Seq<char>| exists|i: int| 0 <= i < v.len() && v[i]@ == s)
}

/// No two strings of `v` are equal.
pub open spec fn distinct_strings(v: Seq<String>) -> bool {
    forall|i: int, j: int| 0 <= i < j < v.len() ==> v[i]@ != v[j]@
}

/// Whether one of `v` equals `s`.
pub fn has_string(v: &Vec<String>, s: &Vec<char>) -> (b: bool)
    ensures
        b == string_set(v@).contains(s@),
{
    let n = v.len();
    for i in 0..n
        invariant
            n == v@.len(),
            forall|j: int| 0 <= j < i ==> v@[j]@ != s@,
    {
        let c = chars_of(v[i].as_str());
        if chars_eq(&c, s) {
            assert(string_set(v@).contains(s@));
            return true;
        }
    }
    false
}

} // verus!

verus! {

/// Decimal notation has at least one character, all of them digits (so none is `.`).
pub proof fn lemma_decimal_shape(n: nat)
    ensures
        decimal(n).len() >= 1,
        n >= 10 ==> decimal(n).len() >= 2,
        forall|i: int| 0 <= i < decimal(n).len() ==> decimal(n)[i] != '.',
    decreases n,
{
    if n >= 10 {
        lemma_decimal_shape(n / 10);
        assert forall|i: int| 0 <= i < decimal(n).len() implies decimal(n)[i] != '.' by {
            if i < decimal(n / 10).len() {
                assert(decimal(n)[i] == decimal(n / 10)[i]);
            }
        }
    }
}

/// Different numbers have different decimal notations.
pub proof fn lemma_decimal_injective(a: nat, b: nat)
    requires
        decimal(a) == decimal(b),
    ensures
        a == b,
    decreases a,
{
    lemma_decimal_shape(a);
    lemma_decimal_shape(b);
    if a < 10 && b < 10 {
        assert(decimal(a) == seq![digit_char(a)]);
        assert(decimal(b) == seq![digit_char(b)]);
        assert(seq![digit_char(a)][0] == digit_char(a));
        assert(seq![digit_char(b)][0] == digit_char(b));
        assert(digit_char(a) == digit_char(b));
    } else if a >= 10 && b >= 10 {
        assert(decimal(a) == decimal(a / 10).push(digit_char(a % 10)));
        assert(decimal(b) == decimal(b / 10).push(digit_char(b % 10)));
        assert(decimal(a).drop_last() =~= decimal(a / 10));
        assert(decimal(b).drop_last() =~= decimal(b / 10));
        lemma_decimal_injective(a / 10, b / 10);
        assert(decimal(a).last() == digit_char(a % 10));
        assert(decimal(b).last() == digit_char(b % 10));
        assert(digit_char(a % 10) == digit_char(b % 10));
        assert(a % 10 == b % 10);
        assert(a == (a / 10) * 10 + a % 10);
        assert(b == (b / 10) * 10 + b % 10);
    } else {
        assert(decimal(a).len() != decimal(b).len());
    }
}

} // verus!

verus! {

/// `string_set` of `v` is finite and has no more elements than `v`.
pub proof fn lemma_string_set_len(v: Seq<String>)
    ensures
        string_set(v).finite(),
        string_set(v).len() <= v.len(),
    decreases v.len(),
{
    if v.len() == 0 {
        assert(string_set(v) =~= Set::<Seq<char>>::empty());
    } else {
        lemma_string_set_len(v.drop_last());
        assert(string_set(v) =~= string_set(v.drop_last()).insert(v.last()@)) by {
            assert forall|s: Seq<char>| string_set(v).contains(s) implies string_set(v.drop_last()).insert(v.last()@).contains(s) by {
                let i = choose|i: int| 0 <= i < v.len() && v[i]@ == s;
                if i < v.len() - 1 {
                    assert(v.drop_last()[i]@ == s);
                }
            }
            assert forall|s: Seq<char>| string_set(v.drop_last()).insert(v.last()@).contains(s) implies string_set(v).contains(s) by {
                if s == v.last()@ {
                    assert(v[v.len() - 1]@ == s);
                } else {
                    let i = choose|i: int| 0 <= i < v.len() - 1 && v.drop_last()[i]@ == s;
                    assert(v[i]@ == s);
                }
            }
        }
        vstd::set::axiom_set_insert_len(string_set(v.drop_last()), v.last()@);
    }
}

} // verus!

verus! {

/// `a` followed by `b`.
pub fn concat(a: &str, b: &str) -> (r: String)
    ensures
        r@ == a@ + b@,
{
    let mut v = chars_of(a);
    extend_chars(&mut v, &chars_of(b));
    string_of(v.as_slice())
}

/// The text `s`, owned.
pub fn owned(s: &str) -> (r: String)
    ensures
        r@ == s@,
{
    s.to_owned()
}

} // verus!

verus! {

/// How many bytes UTF-8 takes for `c`.
pub open spec fn char_utf8_len(c: char) -> nat {
    if (c as u32) < 0x80 {
        1
    } else if (c as u32) < 0x800 {
        2
    } else if (c as u32) < 0x10000 {
        3
    } else {
        4
    }
}

/// How many bytes UTF-8 takes for `s`.
pub open spec fn utf8_len(s: Seq<char>) -> nat
    decreases s.len(),
{
    if s.len() == 0 {
        0
    } else {
        char_utf8_len(s[0]) + utf8_len(s.drop_first())
    }
}

/// Byte counts add up over concatenation.
pub proof fn lemma_utf8_len_concat(a: Seq<char>, b: Seq<char>)
    ensures
        utf8_len(a + b) == utf8_len(a) + utf8_len(b),
    decreases a.len(),
{
    if a.len() > 0 {
        assert((a + b).drop_first() =~= a.drop_first() + b);
        lemma_utf8_len_concat(a.drop_first(), b);
    } else {
        assert(a + b =~= b);
    }
}

/// The byte count of a prefix grows by one character's bytes at a time.
pub proof fn lemma_utf8_len_take(s: Seq<char>, k: int)
    requires
        0 <= k < s.len(),
    ensures
        utf8_len(s.take(k + 1)) == utf8_len(s.take(k)) + char_utf8_len(s[k]),
{
    assert(s.take(k + 1) =~= s.take(k) + seq![s[k]]);
    lemma_utf8_len_concat(s.take(k), seq![s[k]]);
    assert(seq![s[k]].drop_first() =~= Seq::<char>::empty());
    assert(utf8_len(Seq::<char>::empty()) == 0);
    assert(utf8_len(seq![s[k]]) == char_utf8_len(s[k]) + utf8_len(seq![s[k]].drop_first()));
}

/// `utf8_len` is the length of the UTF-8 encoding.
pub proof fn lemma_utf8_len_is_encoding_len(s: Seq<char>)
    ensures
        utf8_len(s) == vstd::utf8::encode_utf8(s).len(),
    decreases s.len(),
{
    if s.len() > 0 {
        lemma_utf8_len_is_encoding_len(s.drop_first());
        vstd::utf8::char_is_scalar(s[0]);
    }
}

/// The number of bytes of `s`.
pub fn utf8_len_exec(s: &str) -> (n: usize)
    requires
        utf8_len(s@) <= usize::MAX,
    ensures
        n as nat == utf8_len(s@),
{
    proof { lemma_utf8_len_is_encoding_len(s@); }
    s.len()
}

/// How many bytes UTF-8 takes for `c`.
pub fn char_utf8_len_exec(c: char) -> (n: usize)
    ensures
        n as nat == char_utf8_len(c),
{
    if (c as u32) < 0x80 {
        1
    } else if (c as u32) < 0x800 {
        2
    } else if (c as u32) < 0x10000 {
        3
    } else {
        4
    }
}

} // verus!

verus! {

/// Index of the first `\n` in `s`, or `-1` when there is none.
pub open spec fn newline_index(s: Seq<char>) -> int
    decreases s.len(),
{
    if s.len() == 0 {
        -1
    } else if s[0] == '\n' {
        0
    } else {
        let r = newline_index(s.drop_first());
        if r < 0 { -1 } else { r + 1 }
    }
}

/// `line` without a final `\r`.
pub open spec fn strip_cr(line: Seq<char>) -> Seq<char> {
    if line.len() > 0 && line.last() == '\r' {
        line.drop_last()
    } else {
        line
    }
}

/// The lines of `s` (as `str::lines`): split at `\n`, a `\r` before the `\n` dropped, and no
/// empty line after a final `\n`.
pub open spec fn text_lines(s: Seq<char>) -> Seq<Seq<char>>
    decreases s.len(),
{
    if s.len() == 0 {
        Seq::empty()
    } else {
        let i = newline_index(s);
        if i < 0 {
            seq![s]
        } else {
            proof { lemma_newline_index(s); }
            seq![strip_cr(s.take(i))] + text_lines(s.skip(i + 1))
        }
    }
}

pub proof fn lemma_newline_index(s: Seq<char>)
    ensures
        -1 <= newline_index(s) < s.len(),
        newline_index(s) >= 0 ==> s[newline_index(s)] == '\n',
        forall|k: int| 0 <= k < s.len() && (newline_index(s) < 0 || k < newline_index(s)) ==> s[k] != '\n',
    decreases s.len(),
{
    if s.len() > 0 && s[0] != '\n' {
        lemma_newline_index(s.drop_first());
        assert forall|k: int| 0 <= k < s.len() && (newline_index(s) < 0 || k < newline_index(s)) implies s[k] != '\n' by {
            if k > 0 {
                assert(s[k] == s.drop_first()[k - 1]);
            }
        }
    }
}

/// The first `\n` of `a + b`, when `a` has none, is that of `b` shifted.
proof fn lemma_newline_index_concat(a: Seq<char>, b: Seq<char>)
    requires
        forall|k: int| 0 <= k < a.len() ==> a[k] != '\n',
    ensures
        newline_index(a + b) == if newline_index(b) < 0 { -1 } else { newline_index(b) + a.len() },
    decreases a.len(),
{
    if a.len() == 0 {
        assert(a + b =~= b);
    } else {
        assert((a + b).drop_first() =~= a.drop_first() + b);
        lemma_newline_index_concat(a.drop_first(), b);
    }
}

/// The lines of `s`, as `str::lines` gives them.
pub fn text_lines_exec(s: &str) -> (r: Vec<String>)
    ensures
        r@.map_values(|l: String| l@) == text_lines(s@),
{
    let v = chars_of(s);
    let n = v.len();
    let mut done: Vec<String> = Vec::new();
    let mut cur: Vec<char> = Vec::new();
    assert(v@.skip(0) =~= v@);
    assert(Seq::<char>::empty() + v@ =~= v@);
    for i in 0..n
        invariant
            n == v@.len(),
            v@ == s@,
            forall|k: int| 0 <= k < cur@.len() ==> cur@[k] != '\n',
            text_lines(s@) == done@.map_values(|l: String| l@) + text_lines(cur@ + v@.skip(i as int)),
    {
        let c = v[i];
        let ghost rest = v@.skip(i as int);
        assert(rest[0] == c);
        assert(rest.drop_first() =~= v@.skip(i + 1));
        if c == '\n' {
            let ghost whole = cur@ + rest;
            proof {
                lemma_newline_index_concat(cur@, rest);
                assert(newline_index(rest) == 0);
                assert(whole.take(cur@.len() as int) =~= cur@);
                assert(whole.skip(cur@.len() as int + 1) =~= v@.skip(i + 1));
            }
            let mut line = cur;
            if line.len() > 0 && line[line.len() - 1] == '\r' {
                line.pop();
            }
            let ghost done_before = done@.map_values(|l: String| l@);
            done.push(string_of(line.as_slice()));
            assert(done@.map_values(|l: String| l@) =~= done_before.push(strip_cr(whole.take(cur@.len() as int))));
            cur = Vec::new();
            assert(cur@ + v@.skip(i + 1) =~= v@.skip(i + 1));
        } else {
            let ghost before = cur@;
            cur.push(c);
            assert(before + rest =~= cur@ + v@.skip(i + 1));
        }
    }
    assert(v@.skip(n as int) =~= Seq::<char>::empty());
    assert(cur@ + v@.skip(n as int) =~= cur@);
    if cur.len() > 0 {
        proof {
            lemma_newline_index_concat(cur@, Seq::<char>::empty());
            assert(cur@ + Seq::<char>::empty() =~= cur@);
        }
        let ghost done_before = done@.map_values(|l: String| l@);
        let ghost last = cur@;
        done.push(string_of(cur.as_slice()));
        assert(done@.map_values(|l: String| l@) =~= done_before + seq![last]);
    } else {
        assert(done@.map_values(|l: String| l@) + Seq::<Seq<char>>::empty() =~= done@.map_values(|l: String| l@));
    }
    done
}

} // verus!
