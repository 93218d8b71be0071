//! Flattening a tree into one directory: the name each file gets there.

use vstd::prelude::*;
use crate::text::{
    decimal, decimal_chars, distinct_strings, extend_chars, has_string, chars_of, string_of,
    string_set, lemma_decimal_injective, lemma_decimal_shape, lemma_string_set_len,
};

verus! {

/// Index of the last `.` in `s`, or `-1` when there is none.
pub open spec fn last_dot(s: Seq<char>) -> int
    decreases s.len(),
{
    if s.len() == 0 {
        -1
    } else if s.last() == '.' {
        s.len() - 1
    } else {
        last_dot(s.drop_last())
    }
}

/// The stem of the file name `name` (as `Path::file_stem`): the part before the last `.`,
/// or the whole name when it has no `.` past its first character, or is `..`.
pub open spec fn file_stem_of(name: Seq<char>) -> Seq<char> {
    if name == seq!['.', '.'] || last_dot(name) <= 0 {
        name
    } else {
        name.take(last_dot(name))
    }
}

/// The extension of the file name `name` (as `Path::extension`): the part after the last `.`
/// when that `.` is not its first character; `None` otherwise and for `..`.
pub open spec fn extension_of(name: Seq<char>) -> Option<Seq<char>> {
    if name == seq!['.', '.'] || last_dot(name) <= 0 {
        None
    } else {
        Some(name.skip(last_dot(name) + 1))
    }
}

/// The name tried after `prev` for the file named `file`, with number `k`:
/// `"{stem} ({k}).{ext}"` from `prev`'s stem and extension when `prev` has an extension,
/// else `"{file} ({k})"`.
pub open spec fn numbered_name(file: Seq<char>, prev: Seq<char>, k: nat) -> Seq<char> {
    match extension_of(prev) {
        Some(e) => file_stem_of(prev) + seq![' ', '('] + decimal(k) + seq![')', '.'] + e,
        None => file + seq![' ', '('] + decimal(k) + seq![')'],
    }
}

/// The `k`-th name tried for the file named `file`: the name itself, then each numbered
/// name made from the one before.
pub open spec fn candidate_name(file: Seq<char>, k: nat) -> Seq<char>
    decreases k,
{
    if k == 0 {
        file
    } else {
        numbered_name(file, candidate_name(file, (k - 1) as nat), k)
    }
}

/// The name that the file named `file` gets when the names in `used` are taken: the first
/// name tried that is free.
pub open spec fn is_first_free(file: Seq<char>, used: Set<Seq<char>>, name: Seq<char>) -> bool {
    exists|k: nat|
        name == candidate_name(file, k) && !used.contains(name) && forall|j: nat|
            j < k ==> used.contains(#[trigger] candidate_name(file, j))
}

proof fn lemma_last_dot_at(s: Seq<char>, p: int)
    requires
        0 <= p < s.len(),
        s[p] == '.',
        forall|k: int| p < k < s.len() ==> s[k] != '.',
    ensures
        last_dot(s) == p,
    decreases s.len(),
{
    if s.last() != '.' {
        lemma_last_dot_at(s.drop_last(), p);
    }
}

proof fn lemma_last_dot_props(s: Seq<char>)
    ensures
        -1 <= last_dot(s) < s.len(),
        last_dot(s) >= 0 ==> s[last_dot(s)] == '.',
        forall|k: int| last_dot(s) < k < s.len() ==> s[k] != '.',
    decreases s.len(),
{
    if s.len() > 0 && s.last() != '.' {
        lemma_last_dot_props(s.drop_last());
        assert forall|k: int| last_dot(s) < k < s.len() implies s[k] != '.' by {
            if k < s.len() - 1 {
                assert(s[k] == s.drop_last()[k]);
            }
        }
    }
}

/// A name with an extension keeps that extension, and grows, when numbered.
proof fn lemma_numbered_with_extension(file: Seq<char>, prev: Seq<char>, k: nat)
    requires
        extension_of(prev) is Some,
    ensures
        extension_of(numbered_name(file, prev, k)) == extension_of(prev),
        numbered_name(file, prev, k).len() > prev.len(),
{
    let d = last_dot(prev);
    lemma_last_dot_props(prev);
    let e = prev.skip(d + 1);
    let stem = prev.take(d);
    assert(prev =~= stem + seq!['.'] + e);
    lemma_decimal_shape(k);
    let head = stem + seq![' ', '('] + decimal(k) + seq![')'];
    let n = numbered_name(file, prev, k);
    assert(n =~= head + seq!['.'] + e);
    assert forall|i: int| head.len() < i < n.len() implies n[i] != '.' by {
        assert(n[i] == e[i - head.len() - 1]);
        assert(e[i - head.len() - 1] == prev[d + 1 + (i - head.len() - 1)]);
    }
    lemma_last_dot_at(n, head.len() as int);
    assert(n.skip(head.len() as int + 1) =~= e);
    assert(n != seq!['.', '.']) by {
        assert(n.len() > 2);
    }
}

/// While no name tried has an extension, the `k`-th is `"{file} ({k})"`.
proof fn lemma_candidate_without_extension(file: Seq<char>, k: nat)
    requires
        k >= 1,
        extension_of(candidate_name(file, (k - 1) as nat)) is None,
    ensures
        candidate_name(file, k) == file + seq![' ', '('] + decimal(k) + seq![')'],
{
}

/// Once a name tried has an extension, so do all the later ones.
proof fn lemma_extension_persists(file: Seq<char>, j: nat, k: nat)
    requires
        j <= k,
        extension_of(candidate_name(file, j)) is Some,
    ensures
        extension_of(candidate_name(file, k)) is Some,
        j < k ==> candidate_name(file, j).len() < candidate_name(file, k).len(),
    decreases k - j,
{
    if j < k {
        lemma_extension_persists(file, j, (k - 1) as nat);
        lemma_numbered_with_extension(file, candidate_name(file, (k - 1) as nat), k);
    }
}

/// The names tried for a file are all different.
pub proof fn lemma_candidates_distinct(file: Seq<char>, j: nat, k: nat)
    requires
        j < k,
    ensures
        candidate_name(file, j) != candidate_name(file, k),
{
    let cj = candidate_name(file, j);
    let ck = candidate_name(file, k);
    if extension_of(cj) is Some {
        lemma_extension_persists(file, j, k);
    } else if extension_of(ck) is Some {
    } else {
        // No name up to `k` has an extension.
        assert forall|i: nat| i <= k implies extension_of(#[trigger] candidate_name(file, i)) is None by {
            if extension_of(candidate_name(file, i)) is Some {
                lemma_extension_persists(file, i, k);
            }
        }
        lemma_candidate_without_extension(file, k);
        lemma_decimal_shape(k);
        if j == 0 {
            assert(ck.len() > cj.len());
        } else {
            lemma_candidate_without_extension(file, j);
            lemma_decimal_shape(j);
            if cj == ck {
                let a = file.len() + 2;
                assert(cj.subrange(a as int, cj.len() - 1) =~= decimal(j));
                assert(ck.subrange(a as int, ck.len() - 1) =~= decimal(k));
                lemma_decimal_injective(j, k);
            }
        }
    }
}

/// The first `k + 1` names tried, as a set.
pub open spec fn candidate_set(file: Seq<char>, k: nat) -> Set<Seq<char>>
    decreases k,
{
    if k == 0 {
        set![file]
    } else {
        candidate_set(file, (k - 1) as nat).insert(candidate_name(file, k))
    }
}

proof fn lemma_candidate_set(file: Seq<char>, k: nat)
    ensures
        candidate_set(file, k).finite(),
        candidate_set(file, k).len() == k + 1,
        forall|x: Seq<char>| candidate_set(file, k).contains(x) <==> exists|j: nat| j <= k && x == candidate_name(file, j),
    decreases k,
{
    if k == 0 {
        assert forall|x: Seq<char>| (exists|j: nat| j <= k && x == candidate_name(file, j)) implies candidate_set(file, k).contains(x) by {
            let j = choose|j: nat| j <= k && x == candidate_name(file, j);
            assert(j == 0);
        }
        assert(candidate_set(file, 0).contains(candidate_name(file, 0)));
    } else {
        let prev = candidate_set(file, (k - 1) as nat);
        lemma_candidate_set(file, (k - 1) as nat);
        if prev.contains(candidate_name(file, k)) {
            let j = choose|j: nat| j <= k - 1 && candidate_name(file, k) == candidate_name(file, j);
            lemma_candidates_distinct(file, j, k);
        }
        vstd::set::axiom_set_insert_len(prev, candidate_name(file, k));
        assert forall|x: Seq<char>| candidate_set(file, k).contains(x) <==> exists|j: nat| j <= k && x == candidate_name(file, j) by {
            if exists|j: nat| j <= k && x == candidate_name(file, j) {
                let j = choose|j: nat| j <= k && x == candidate_name(file, j);
                if j < k {
                    assert(prev.contains(x));
                }
            }
            if prev.contains(x) {
                let j = choose|j: nat| j <= k - 1 && x == candidate_name(file, j);
                assert(j <= k);
            }
        }
    }
}

/// When the first `k + 1` names tried are all taken, at least `k + 1` names are taken.
pub proof fn lemma_taken_candidates_bound(file: Seq<char>, used: Set<Seq<char>>, k: nat)
    requires
        used.finite(),
        forall|j: nat| j <= k ==> used.contains(#[trigger] candidate_name(file, j)),
    ensures
        k + 1 <= used.len(),
{
    lemma_candidate_set(file, k);
    assert(candidate_set(file, k).subset_of(used));
    vstd::set_lib::lemma_len_subset(candidate_set(file, k), used);
}

} // verus!

verus! {

/// Index of the last `.` in `s`, if any.
fn last_dot_exec(s: &Vec<char>) -> (d: Option<usize>)
    ensures
        match d {
            Some(i) => i as int == last_dot(s@),
            None => last_dot(s@) == -1,
        },
{
    proof { lemma_last_dot_props(s@); }
    let mut i = s.len();
    while i > 0
        invariant
            i <= s@.len(),
            forall|k: int| i <= k < s@.len() ==> s@[k] != '.',
            last_dot(s@) < i,
            -1 <= last_dot(s@) < s@.len(),
            last_dot(s@) >= 0 ==> s@[last_dot(s@)] == '.',
            forall|k: int| last_dot(s@) < k < s@.len() ==> s@[k] != '.',
        decreases i,
    {
        if s[i - 1] == '.' {
            assert(last_dot(s@) == i - 1);
            return Some(i - 1);
        }
        i = i - 1;
    }
    None
}

fn is_dot_dot(s: &Vec<char>) -> (b: bool)
    ensures
        b == (s@ == seq!['.', '.']),
{
    let b = s.len() == 2 && s[0] == '.' && s[1] == '.';
    proof {
        if s@ == seq!['.', '.'] {
            assert(s@[0] == '.' && s@[1] == '.');
        }
        if b {
            assert(s@ =~= seq!['.', '.']);
        }
    }
    b
}

/// The stem and the extension of the file name `name`.
fn stem_and_extension(name: &Vec<char>) -> (r: (Vec<char>, Option<Vec<char>>))
    ensures
        r.0@ == file_stem_of(name@),
        match r.1 {
            Some(e) => extension_of(name@) == Some(e@),
            None => extension_of(name@) is None,
        },
{
    let d = last_dot_exec(name);
    let du: usize = match d {
        Some(i) => i,
        None => 0,
    };
    if is_dot_dot(name) || du == 0 {
        (name.clone(), None)
    } else {
        proof { lemma_last_dot_props(name@); }
        let mut stem: Vec<char> = Vec::new();
        for i in 0..du
            invariant
                du < name@.len(),
                stem@ == name@.take(i as int),
        {
            stem.push(name[i]);
            assert(name@.take(i + 1) == name@.take(i as int).push(name@[i as int]));
        }
        let n = name.len();
        assert(du < n);
        let ext = crate::text::s_tail(name, du + 1);
        (stem, Some(ext))
    }
}

/// The name tried after `prev` for the file named `file`, with number `k`.
fn numbered_name_exec(file: &Vec<char>, prev: &Vec<char>, k: u64) -> (r: Vec<char>)
    ensures
        r@ == numbered_name(file@, prev@, k as nat),
{
    let (stem, ext) = stem_and_extension(prev);
    let digits = decimal_chars(k);
    match ext {
        Some(e) => {
            let mut r = stem;
            r.push(' ');
            r.push('(');
            extend_chars(&mut r, &digits);
            r.push(')');
            r.push('.');
            extend_chars(&mut r, &e);
            assert(r@ =~= file_stem_of(prev@) + seq![' ', '('] + decimal(k as nat) + seq![')', '.'] + e@);
            r
        },
        None => {
            let mut r = file.clone();
            r.push(' ');
            r.push('(');
            extend_chars(&mut r, &digits);
            r.push(')');
            assert(r@ =~= file@ + seq![' ', '('] + decimal(k as nat) + seq![')']);
            r
        },
    }
}

/// The destination names taken so far in the flattened directory (no two equal).
pub struct FlattenNamer {
    used: Vec<String>,
}

impl View for FlattenNamer {
    type V = Set<Seq<char>>;

    closed spec fn view(&self) -> Set<Seq<char>> {
        string_set(self.used@)
    }
}

impl FlattenNamer {
    /// Whether the names are held without repetition.
    pub closed spec fn wf(&self) -> bool {
        distinct_strings(self.used@)
    }

    /// No name taken yet.
    pub fn new() -> (r: FlattenNamer)
        ensures
            r.wf(),
            r@ == Set::<Seq<char>>::empty(),
    {
        let r = FlattenNamer { used: Vec::new() };
        assert(string_set(r.used@) =~= Set::<Seq<char>>::empty());
        r
    }

    /// The name that the file named `file_name` gets: the first free one among the name
    /// itself and the numbered names made from it.
    pub fn next_destination(&self, file_name: &str) -> (r: String)
        requires
            self.wf(),
        ensures
            is_first_free(file_name@, self@, r@),
    {
        let f = chars_of(file_name);
        let mut cand = f.clone();
        let mut k: usize = 0;
        let ghost used = string_set(self.used@);
        let total = self.used.len();
        proof { lemma_string_set_len(self.used@); }
        loop
            invariant
                total == self.used@.len(),
                used == string_set(self.used@),
                used.finite(),
                used.len() <= self.used@.len(),
                f@ == file_name@,
                cand@ == candidate_name(f@, k as nat),
                forall|j: nat| j < k ==> used.contains(#[trigger] candidate_name(f@, j)),
            decreases self.used@.len() - k,
        {
            if !has_string(&self.used, &cand) {
                assert(is_first_free(file_name@, self@, cand@));
                return string_of(cand.as_slice());
            }
            proof {
                lemma_taken_candidates_bound(f@, used, k as nat);
            }
            k = k + 1;
            cand = numbered_name_exec(&f, &cand, k as u64);
        }
    }

    /// Takes the name `dest`.
    pub fn record(&mut self, dest: &str)
        requires
            old(self).wf(),
        ensures
            final(self).wf(),
            final(self)@ == old(self)@.insert(dest@),
    {
        let s = string_of(chars_of(dest).as_slice());
        crate::merge::insert_string(&mut self.used, s);
    }
}

} // verus!

verus! {

/// The name that a file named `file_name` takes in the flattened directory: its own name when
/// newer files replace older ones of the same name, else the first free name.
pub fn flatten_destination(namer: &FlattenNamer, file_name: &str, replace_newest: bool) -> (r: String)
    requires
        namer.wf(),
    ensures
        replace_newest ==> r@ == file_name@,
        !replace_newest ==> is_first_free(file_name@, namer@, r@),
{
    if replace_newest {
        string_of(chars_of(file_name).as_slice())
    } else {
        namer.next_destination(file_name)
    }
}

} // verus!

verus! {

/// The name a file gets when flattening overwrites nothing: it is not taken yet, and it is
/// the file's own name whenever that is free.
pub proof fn lemma_first_free_is_fresh(file: Seq<char>, used: Set<Seq<char>>, name: Seq<char>)
    requires
        is_first_free(file, used, name),
    ensures
        !used.contains(name),
        !used.contains(file) ==> name == file,
{
    let k = choose|k: nat|
        name == candidate_name(file, k) && !used.contains(name) && forall|j: nat|
            j < k ==> used.contains(#[trigger] candidate_name(file, j));
    if !used.contains(file) && k > 0 {
        assert(used.contains(candidate_name(file, 0)));
    }
}

/// One name only is the first free one: the name is a function of the file's name and of the
/// names taken.
pub proof fn lemma_first_free_unique(file: Seq<char>, used: Set<Seq<char>>, a: Seq<char>, b: Seq<char>)
    requires
        is_first_free(file, used, a),
        is_first_free(file, used, b),
    ensures
        a == b,
{
    let ka = choose|k: nat|
        a == candidate_name(file, k) && !used.contains(a) && forall|j: nat|
            j < k ==> used.contains(#[trigger] candidate_name(file, j));
    let kb = choose|k: nat|
        b == candidate_name(file, k) && !used.contains(b) && forall|j: nat|
            j < k ==> used.contains(#[trigger] candidate_name(file, j));
    if ka < kb {
        assert(used.contains(candidate_name(file, ka)));
    } else if kb < ka {
        assert(used.contains(candidate_name(file, kb)));
    }
}

} // verus!
