//! Paths as text, read the way `std::path::Path` reads them: under Unix rules (`/` alone
//! separates, a leading `/` is the root), or under Windows rules (`\` separates too, and a
//! path may start with a drive prefix `C:` or a UNC prefix `\\server\share`). The rules in
//! force are passed as `w` (Windows rules when true).

use vstd::prelude::*;
use crate::text::{chars_of, extend_chars, s_tail, string_of};

verus! {

/// Whether `c` separates components: `/`, and `\` as well under Windows rules.
pub open spec fn is_sep(c: char, w: bool) -> bool {
    c == '/' || (w && c == '\\')
}

/// The separator written between components: `\` under Windows rules, else `/`.
pub open spec fn sep_char(w: bool) -> char {
    if w { '\\' } else { '/' }
}

/// Whether `c` is an ASCII letter.
pub open spec fn is_ascii_letter(c: char) -> bool {
    ('a' <= c && c <= 'z') || ('A' <= c && c <= 'Z')
}

/// Index of the first separator at or after `i` in `p` (the length of `p` when there is
/// none).
pub open spec fn next_sep(p: Seq<char>, i: int, w: bool) -> int
    decreases p.len() - i,
{
    if i < 0 || i >= p.len() {
        p.len() as int
    } else if is_sep(p[i], w) {
        i
    } else {
        next_sep(p, i + 1, w)
    }
}

/// Whether `p` starts with a drive prefix (a letter and `:`), under Windows rules.
pub open spec fn has_drive(p: Seq<char>, w: bool) -> bool {
    w && p.len() >= 2 && is_ascii_letter(p[0]) && p[1] == ':'
}

/// Whether `p` starts with a UNC prefix, under Windows rules: two separators, a server name,
/// a separator and a share name (neither name empty).
pub open spec fn has_unc(p: Seq<char>, w: bool) -> bool {
    let e1 = next_sep(p, 2, w);
    &&& w
    &&& p.len() >= 2
    &&& is_sep(p[0], w)
    &&& is_sep(p[1], w)
    &&& 2 < e1 < p.len()
    &&& next_sep(p, e1 + 1, w) > e1 + 1
}

/// The length of the prefix of `p` (`C:`, or `\\server\share`); 0 when it has none.
pub open spec fn prefix_len(p: Seq<char>, w: bool) -> int {
    if has_drive(p, w) {
        2
    } else if has_unc(p, w) {
        next_sep(p, next_sep(p, 2, w) + 1, w)
    } else {
        0
    }
}

/// Whether `p` has a root: a separator right after its prefix (a UNC prefix always has one).
pub open spec fn has_root(p: Seq<char>, w: bool) -> bool {
    has_unc(p, w) || (prefix_len(p, w) < p.len() && is_sep(p[prefix_len(p, w)], w))
}

/// The length of the prefix and root of `p`: what stays when its components are removed.
pub open spec fn root_len(p: Seq<char>, w: bool) -> int {
    let k = prefix_len(p, w);
    if k < p.len() && is_sep(p[k], w) { k + 1 } else { k }
}

/// `p` with trailing separators and trailing `.` components removed; its prefix and root, or
/// a lone `.`, are kept.
pub open spec fn trim_tail(p: Seq<char>, w: bool) -> Seq<char>
    decreases p.len(),
{
    if p.len() > root_len(p, w) && p.len() >= 2 && (is_sep(p.last(), w) || (p.last() == '.' && is_sep(
        p[p.len() - 2],
        w,
    ))) {
        trim_tail(p.drop_last(), w)
    } else {
        p
    }
}

/// Index of the last separator in `p`, or `-1` when there is none.
pub open spec fn last_slash(p: Seq<char>, w: bool) -> int
    decreases p.len(),
{
    if p.len() == 0 {
        -1
    } else if is_sep(p.last(), w) {
        p.len() - 1
    } else {
        last_slash(p.drop_last(), w)
    }
}

/// Where the final component of the trimmed path `t` starts: after its last separator, and
/// not inside its prefix and root.
pub open spec fn name_start(t: Seq<char>, w: bool) -> int {
    if last_slash(t, w) + 1 >= root_len(t, w) { last_slash(t, w) + 1 } else { root_len(t, w) }
}

/// The text of the final component of `p` (empty when `p` is empty or only a prefix and
/// root).
pub open spec fn last_component(p: Seq<char>, w: bool) -> Seq<char> {
    let t = trim_tail(p, w);
    t.skip(name_start(t, w))
}

/// The final component of `p` when it names a file or directory: `None` for the empty path,
/// a prefix and root alone, `.` and `..` (as `Path::file_name`).
pub open spec fn file_name_of(p: Seq<char>, w: bool) -> Option<Seq<char>> {
    let name = last_component(p, w);
    if name.len() == 0 || name == seq!['.'] || name == seq!['.', '.'] {
        None
    } else {
        Some(name)
    }
}

/// `p` without its final component (as `Path::parent`): `None` for the empty path and for a
/// prefix and root alone, `Some("")` for a relative path of one component.
pub open spec fn parent_of(p: Seq<char>, w: bool) -> Option<Seq<char>> {
    let t = trim_tail(p, w);
    if t.len() <= root_len(t, w) {
        None
    } else {
        Some(trim_tail(t.take(name_start(t, w)), w))
    }
}

/// `base` with `c` appended (as `PathBuf::push`): a `c` that is absolute (under Unix rules)
/// or has a prefix (under Windows rules) replaces `base`; under Windows rules a `c` with a
/// root but no prefix keeps the prefix of `base`; otherwise a separator is put between them
/// unless `base` is empty, ends with one, or is a drive prefix alone.
pub open spec fn push_path(base: Seq<char>, c: Seq<char>, w: bool) -> Seq<char> {
    if (!w && c.len() > 0 && c[0] == '/') || (w && prefix_len(c, w) > 0) {
        c
    } else if w && c.len() > 0 && is_sep(c[0], w) {
        base.take(prefix_len(base, w)) + c
    } else if base.len() == 0 {
        c
    } else if is_sep(base.last(), w) || (has_drive(base, w) && base.len() == 2) {
        base + c
    } else {
        base + seq![sep_char(w)] + c
    }
}

/// `p` with its file name replaced by `name` (as `Path::with_file_name`).
pub open spec fn with_file_name(p: Seq<char>, name: Seq<char>, w: bool) -> Seq<char> {
    match file_name_of(p, w) {
        Some(_) => push_path(parent_of(p, w).unwrap(), name, w),
        None => push_path(p, name, w),
    }
}

/// Whether `p` is absolute (as `Path::is_absolute`): under Unix rules, when it starts with
/// `/`; under Windows rules, when it has a prefix and a root.
pub open spec fn is_absolute(p: Seq<char>, w: bool) -> bool {
    if w {
        prefix_len(p, w) > 0 && has_root(p, w)
    } else {
        p.len() > 0 && p[0] == '/'
    }
}

pub(crate) proof fn lemma_next_sep(p: Seq<char>, i: int, w: bool)
    requires
        0 <= i,
    ensures
        i <= next_sep(p, i, w) <= p.len() || (i > p.len() && next_sep(p, i, w) == p.len()),
        next_sep(p, i, w) < p.len() ==> is_sep(p[next_sep(p, i, w)], w),
        forall|k: int| i <= k < next_sep(p, i, w) ==> !is_sep(p[k], w),
    decreases p.len() - i,
{
    if i < p.len() && !is_sep(p[i], w) {
        lemma_next_sep(p, i + 1, w);
    }
}

pub(crate) proof fn lemma_root_len(p: Seq<char>, w: bool)
    ensures
        0 <= prefix_len(p, w) <= root_len(p, w) <= p.len(),
        root_len(p, w) <= prefix_len(p, w) + 1,
        !w ==> prefix_len(p, w) == 0,
        !w ==> root_len(p, w) == (if p.len() > 0 && p[0] == '/' { 1int } else { 0int }),
        has_unc(p, w) ==> prefix_len(p, w) > 2,
{
    lemma_next_sep(p, 2, w);
    if has_unc(p, w) {
        lemma_next_sep(p, next_sep(p, 2, w) + 1, w);
    }
}

proof fn lemma_trim_tail_len(p: Seq<char>, w: bool)
    ensures
        trim_tail(p, w).len() <= p.len(),
        p.len() > 0 ==> trim_tail(p, w).len() > 0,
        trim_tail(p, w) == p.take(trim_tail(p, w).len() as int),
    decreases p.len(),
{
    if p.len() > root_len(p, w) && p.len() >= 2 && (is_sep(p.last(), w) || (p.last() == '.' && is_sep(
        p[p.len() - 2],
        w,
    ))) {
        lemma_trim_tail_len(p.drop_last(), w);
        assert(p.drop_last().take(trim_tail(p, w).len() as int) =~= p.take(trim_tail(p, w).len() as int));
    } else {
        assert(p.take(p.len() as int) =~= p);
    }
}

proof fn lemma_last_slash(p: Seq<char>, w: bool)
    ensures
        -1 <= last_slash(p, w) < p.len(),
        last_slash(p, w) >= 0 ==> is_sep(p[last_slash(p, w)], w),
        forall|k: int| last_slash(p, w) < k < p.len() ==> !is_sep(p[k], w),
    decreases p.len(),
{
    if p.len() > 0 && !is_sep(p.last(), w) {
        lemma_last_slash(p.drop_last(), w);
        assert forall|k: int| last_slash(p, w) < k < p.len() implies !is_sep(p[k], w) by {
            if k < p.len() - 1 {
                assert(p[k] == p.drop_last()[k]);
            }
        }
    }
}

fn is_sep_exec(c: char, w: bool) -> (b: bool)
    ensures
        b == is_sep(c, w),
{
    c == '/' || (w && c == '\\')
}

/// Index of the first separator at or after `i` in `p`.
fn next_sep_exec(p: &Vec<char>, i: usize, w: bool) -> (r: usize)
    ensures
        r as int == next_sep(p@, i as int, w),
{
    let n = p.len();
    if i >= n {
        return n;
    }
    let mut j = i;
    while j < n && !is_sep_exec(p[j], w)
        invariant
            n == p@.len(),
            i <= j <= n,
            i < n,
            next_sep(p@, i as int, w) == next_sep(p@, j as int, w),
        decreases n - j,
    {
        j = j + 1;
    }
    j
}

fn is_ascii_letter_exec(c: char) -> (b: bool)
    ensures
        b == is_ascii_letter(c),
{
    ('a' <= c && c <= 'z') || ('A' <= c && c <= 'Z')
}

fn has_drive_exec(p: &Vec<char>, w: bool) -> (b: bool)
    ensures
        b == has_drive(p@, w),
{
    w && p.len() >= 2 && is_ascii_letter_exec(p[0]) && p[1] == ':'
}

fn has_unc_exec(p: &Vec<char>, w: bool) -> (b: bool)
    ensures
        b == has_unc(p@, w),
{
    if !(w && p.len() >= 2 && is_sep_exec(p[0], w) && is_sep_exec(p[1], w)) {
        return false;
    }
    let e1 = next_sep_exec(p, 2, w);
    if !(2 < e1 && e1 < p.len()) {
        return false;
    }
    next_sep_exec(p, e1 + 1, w) > e1 + 1
}

fn prefix_len_exec(p: &Vec<char>, w: bool) -> (k: usize)
    ensures
        k as int == prefix_len(p@, w),
{
    proof { lemma_root_len(p@, w); }
    if has_drive_exec(p, w) {
        2
    } else if has_unc_exec(p, w) {
        let n = p.len();
        let e1 = next_sep_exec(p, 2, w);
        assert(has_unc(p@, w));
        assert(e1 < n);
        next_sep_exec(p, e1 + 1, w)
    } else {
        0
    }
}

fn root_len_exec(p: &Vec<char>, w: bool) -> (r: usize)
    ensures
        r as int == root_len(p@, w),
{
    proof { lemma_root_len(p@, w); }
    let k = prefix_len_exec(p, w);
    if k < p.len() && is_sep_exec(p[k], w) { k + 1 } else { k }
}

fn has_root_exec(p: &Vec<char>, w: bool) -> (b: bool)
    ensures
        b == has_root(p@, w),
{
    proof { lemma_root_len(p@, w); }
    let k = prefix_len_exec(p, w);
    has_unc_exec(p, w) || (k < p.len() && is_sep_exec(p[k], w))
}

/// Whether `p` is absolute (as `Path::is_absolute`) under the rules `w`.
pub fn is_absolute_chars(p: &Vec<char>, w: bool) -> (b: bool)
    ensures
        b == is_absolute(p@, w),
{
    if w {
        prefix_len_exec(p, w) > 0 && has_root_exec(p, w)
    } else {
        p.len() > 0 && p[0] == '/'
    }
}

/// `p` without trailing separators and trailing `.` components.
fn trim_tail_exec(p: &Vec<char>, w: bool) -> (t: Vec<char>)
    ensures
        t@ == trim_tail(p@, w),
{
    let mut t = p.clone();
    assert(t@ == p@);
    loop
        invariant
            trim_tail(t@, w) == trim_tail(p@, w),
        decreases t@.len(),
    {
        let n = t.len();
        let r = root_len_exec(&t, w);
        if n > r && n >= 2 && (is_sep_exec(t[n - 1], w) || (t[n - 1] == '.' && is_sep_exec(t[n - 2], w))) {
            let ghost before = t@;
            t.pop();
            assert(t@ == before.drop_last());
        } else {
            return t;
        }
    }
}

/// Index just after the last separator of `t` (0 when there is none).
fn after_last_slash(t: &Vec<char>, w: bool) -> (i: usize)
    ensures
        i as int == last_slash(t@, w) + 1,
{
    proof { lemma_last_slash(t@, w); }
    let mut i = t.len();
    while i > 0
        invariant
            i <= t@.len(),
            forall|k: int| i <= k < t@.len() ==> !is_sep(t@[k], w),
            last_slash(t@, w) < i,
            -1 <= last_slash(t@, w) < t@.len(),
            last_slash(t@, w) >= 0 ==> is_sep(t@[last_slash(t@, w)], w),
            forall|k: int| last_slash(t@, w) < k < t@.len() ==> !is_sep(t@[k], w),
        decreases i,
    {
        if is_sep_exec(t[i - 1], w) {
            assert(last_slash(t@, w) == i - 1);
            return i;
        }
        i = i - 1;
    }
    i
}

fn name_start_exec(t: &Vec<char>, w: bool) -> (i: usize)
    ensures
        i as int == name_start(t@, w),
        i <= t@.len(),
{
    proof { lemma_last_slash(t@, w); lemma_root_len(t@, w); }
    let a = after_last_slash(t, w);
    let r = root_len_exec(t, w);
    if a >= r { a } else { r }
}

fn prefix_chars(s: &Vec<char>, k: usize) -> (t: Vec<char>)
    requires
        k <= s@.len(),
    ensures
        t@ == s@.take(k as int),
{
    let mut t: Vec<char> = Vec::new();
    for j in 0..k
        invariant
            k <= s@.len(),
            t@ == s@.take(j as int),
    {
        t.push(s[j]);
        assert(s@.take(j + 1) == s@.take(j as int).push(s@[j as int]));
    }
    t
}

fn is_dot(s: &Vec<char>) -> (b: bool)
    ensures
        b == (s@ == seq!['.']),
{
    let b = s.len() == 1 && s[0] == '.';
    proof {
        if s@ == seq!['.'] {
            assert(s@[0] == '.');
        }
        if b {
            assert(s@ =~= seq!['.']);
        }
    }
    b
}

fn is_dot_dot(s: &Vec<char>) -> (b: bool)
    ensures
        b == (s@ == seq!['.', '.']),
{
    let b = s.len() == 2 && s[0] == '.' && s[1] == '.';
    proof {
        if s@ == seq!['.', '.'] {
            assert(s@[0] == '.' && s@[1] == '.');
        }
        if b {
            assert(s@ =~= seq!['.', '.']);
        }
    }
    b
}

/// The file name of `p` (as `Path::file_name`) under the rules `w`.
pub fn file_name_chars(p: &Vec<char>, w: bool) -> (r: Option<Vec<char>>)
    ensures
        match r {
            Some(v) => file_name_of(p@, w) == Some(v@),
            None => file_name_of(p@, w) is None,
        },
{
    let t = trim_tail_exec(p, w);
    let i = name_start_exec(&t, w);
    let name = s_tail(&t, i);
    if name.len() == 0 || is_dot(&name) || is_dot_dot(&name) {
        None
    } else {
        Some(name)
    }
}

/// The parent of `p` (as `Path::parent`) under the rules `w`.
pub fn parent_chars(p: &Vec<char>, w: bool) -> (r: Option<Vec<char>>)
    ensures
        match r {
            Some(v) => parent_of(p@, w) == Some(v@),
            None => parent_of(p@, w) is None,
        },
{
    let t = trim_tail_exec(p, w);
    if t.len() <= root_len_exec(&t, w) {
        return None;
    }
    let i = name_start_exec(&t, w);
    let head = prefix_chars(&t, i);
    Some(trim_tail_exec(&head, w))
}

/// `base` with the component `c` appended (as `PathBuf::push`) under the rules `w`.
pub fn push_path_chars(base: &Vec<char>, c: &Vec<char>, w: bool) -> (r: Vec<char>)
    ensures
        r@ == push_path(base@, c@, w),
{
    proof { lemma_root_len(base@, w); }
    if (!w && c.len() > 0 && c[0] == '/') || (w && prefix_len_exec(c, w) > 0) {
        c.clone()
    } else if w && c.len() > 0 && is_sep_exec(c[0], w) {
        let mut r = prefix_chars(base, prefix_len_exec(base, w));
        extend_chars(&mut r, c);
        r
    } else if base.len() == 0 {
        c.clone()
    } else if is_sep_exec(base[base.len() - 1], w) || (has_drive_exec(base, w) && base.len() == 2) {
        let mut r = base.clone();
        extend_chars(&mut r, c);
        r
    } else {
        let mut r = base.clone();
        r.push(if w { '\\' } else { '/' });
        extend_chars(&mut r, c);
        r
    }
}

/// The directory that holds `path`, as `Path::parent` gives it under the rules `w`: `None`
/// for the empty path and for a prefix and root alone.
pub fn safe_parent_dir(path: &str, w: bool) -> (r: Option<String>)
    ensures
        match r {
            Some(s) => parent_of(path@, w) == Some(s@),
            None => parent_of(path@, w) is None,
        },
{
    let p = chars_of(path);
    match parent_chars(&p, w) {
        Some(v) => Some(string_of(v.as_slice())),
        None => None,
    }
}

/// The final component of `path`, as `Path::file_name` gives it under the rules `w`: `None`
/// for the empty path, a prefix and root alone, and a path that ends in `.` or `..`.
pub fn safe_file_name(path: &str, w: bool) -> (r: Option<String>)
    ensures
        match r {
            Some(s) => file_name_of(path@, w) == Some(s@),
            None => file_name_of(path@, w) is None,
        },
{
    let p = chars_of(path);
    match file_name_chars(&p, w) {
        Some(v) => Some(string_of(v.as_slice())),
        None => None,
    }
}

/// Whether paths follow Windows rules here: when the platform's main separator is `\`.
pub fn windows_paths() -> bool {
    path_rules_for(crate::glob::main_separator())
}

/// Whether paths whose main separator is `sep` follow Windows rules: exactly when `sep` is
/// `\`.
pub fn path_rules_for(sep: char) -> (w: bool)
    ensures
        w == (sep == '\\'),
{
    sep == '\\'
}

} // verus!
verus! {

/// The character sequences held by `v`.
pub open spec fn views(v: Seq<Vec<char>>) -> Seq<Seq<char>> {
    v.map_values(|x: Vec<char>| x@)
}

/// The pieces of `p` between separators, empty ones included (`""` gives `[""]`).
pub open spec fn split_slash(p: Seq<char>, w: bool) -> Seq<Seq<char>>
    decreases p.len(),
{
    if p.len() == 0 {
        seq![Seq::<char>::empty()]
    } else {
        let r = split_slash(p.drop_last(), w);
        if is_sep(p.last(), w) {
            r.push(Seq::<char>::empty())
        } else {
            r.update(r.len() - 1, r.last().push(p.last()))
        }
    }
}

/// A piece of a path that names something (neither empty nor `.`).
pub open spec fn is_normal_segment(s: Seq<char>) -> bool {
    s.len() > 0 && s != seq!['.']
}

/// The pieces of `segs` that name something, in order.
pub open spec fn normal_segments(segs: Seq<Seq<char>>) -> Seq<Seq<char>>
    decreases segs.len(),
{
    if segs.len() == 0 {
        Seq::empty()
    } else {
        let r = normal_segments(segs.drop_last());
        if is_normal_segment(segs.last()) {
            r.push(segs.last())
        } else {
            r
        }
    }
}

/// The components of `p` (as `Path::components`): its prefix, its root `/`, a leading `.` of
/// a path with neither, then the pieces that name something.
pub open spec fn components(p: Seq<char>, w: bool) -> Seq<Seq<char>> {
    let k = prefix_len(p, w);
    let head: Seq<Seq<char>> = (if k > 0 { seq![p.take(k)] } else { Seq::empty() }) + (if has_root(p, w) {
        seq![seq!['/']]
    } else {
        Seq::empty()
    });
    let segs = split_slash(p.skip(root_len(p, w)), w);
    head + if root_len(p, w) == 0 && segs[0] == seq!['.'] {
        seq![seq!['.']] + normal_segments(segs.drop_first())
    } else {
        normal_segments(segs)
    }
}

/// The path built by pushing `cs` one after the other onto an empty path.
pub open spec fn join_components(cs: Seq<Seq<char>>, w: bool) -> Seq<char>
    decreases cs.len(),
{
    if cs.len() == 0 {
        Seq::empty()
    } else {
        push_path(join_components(cs.drop_last(), w), cs.last(), w)
    }
}

proof fn lemma_split_slash_nonempty(p: Seq<char>, w: bool)
    ensures
        split_slash(p, w).len() >= 1,
        p.len() > 0 && is_sep(p[0], w) ==> split_slash(p, w)[0].len() == 0 && split_slash(p, w).len() >= 2,
        p.len() > 0 && !is_sep(p[0], w) ==> split_slash(p, w)[0].len() > 0 && split_slash(p, w)[0][0] == p[0],
    decreases p.len(),
{
    if p.len() > 0 {
        lemma_split_slash_nonempty(p.drop_last(), w);
        if p.len() == 1 {
            assert(split_slash(p.drop_last(), w) =~= seq![Seq::<char>::empty()]);
        }
    }
}

/// The pieces of `p` between `/` separators.
fn split_slash_exec(p: &Vec<char>, w: bool) -> (segs: Vec<Vec<char>>)
    ensures
        views(segs@) == split_slash(p@, w),
{
    let n = p.len();
    let mut done: Vec<Vec<char>> = Vec::new();
    let mut cur: Vec<char> = Vec::new();
    assert(p@.take(0) =~= Seq::<char>::empty());
    assert(views(done@).push(cur@) =~= split_slash(p@.take(0), w));
    for i in 0..n
        invariant
            n == p@.len(),
            split_slash(p@.take(i as int), w) == views(done@).push(cur@),
    {
        let c = p[i];
        let ghost pre = p@.take(i as int);
        let ghost next = p@.take(i + 1);
        assert(next.drop_last() =~= pre);
        assert(next.last() == c);
        if is_sep_exec(c, w) {
            let ghost old_done = views(done@);
            let ghost old_cur = cur@;
            done.push(cur);
            cur = Vec::new();
            assert(views(done@) =~= old_done.push(old_cur));
            assert(split_slash(next, w) =~= views(done@).push(cur@));
        } else {
            let ghost old_cur = cur@;
            cur.push(c);
            assert(split_slash(next, w) =~= views(done@).push(cur@));
        }
    }
    assert(p@.take(n as int) =~= p@);
    let ghost old_done = views(done@);
    let ghost last = cur@;
    done.push(cur);
    assert(views(done@) =~= old_done.push(last));
    done
}

/// The pieces of `segs[from..]` that name something.
fn normal_segments_exec(segs: &Vec<Vec<char>>, from: usize) -> (r: Vec<Vec<char>>)
    requires
        from <= segs@.len(),
    ensures
        views(r@) == normal_segments(views(segs@).skip(from as int)),
{
    let n = segs.len();
    let mut r: Vec<Vec<char>> = Vec::new();
    let ghost all = views(segs@);
    assert(all.skip(from as int).take(0) =~= Seq::<Seq<char>>::empty());
    let mut i = from;
    while i < n
        invariant
            n == segs@.len(),
            all == views(segs@),
            from <= i <= n,
            views(r@) == normal_segments(all.skip(from as int).take(i - from)),
        decreases n - i,
    {
        let ghost pre = all.skip(from as int).take(i - from);
        let ghost next = all.skip(from as int).take(i + 1 - from);
        assert(next.drop_last() =~= pre);
        assert(next.last() == all[i as int]);
        assert(all[i as int] == segs@[i as int]@);
        let s = &segs[i];
        if s.len() > 0 && !is_dot(s) {
            let ghost old_r = views(r@);
            r.push(s.clone());
            assert(views(r@) =~= old_r.push(all[i as int]));
        }
        i = i + 1;
    }
    assert(all.skip(from as int).take(n - from) =~= all.skip(from as int));
    r
}

/// The components of `p` (as `Path::components`) under the rules `w`.
pub fn components_exec(p: &Vec<char>, w: bool) -> (r: Vec<Vec<char>>)
    ensures
        views(r@) == components(p@, w),
{
    proof { lemma_root_len(p@, w); }
    let k = prefix_len_exec(p, w);
    let rl = root_len_exec(p, w);
    let mut r: Vec<Vec<char>> = Vec::new();
    if k > 0 {
        r.push(prefix_chars(p, k));
    }
    if has_root_exec(p, w) {
        let mut root: Vec<char> = Vec::new();
        root.push('/');
        assert(root@ =~= seq!['/']);
        r.push(root);
    }
    let ghost head = views(r@);
    assert(head =~= (if k > 0 { seq![p@.take(k as int)] } else { Seq::<Seq<char>>::empty() }) + (if has_root(p@, w) {
        seq![seq!['/']]
    } else {
        Seq::<Seq<char>>::empty()
    }));
    let rest = s_tail(p, rl);
    let segs = split_slash_exec(&rest, w);
    proof { lemma_split_slash_nonempty(rest@, w); }
    assert(views(segs@)[0] == segs@[0]@);
    if rl == 0 && is_dot(&segs[0]) {
        let tail = normal_segments_exec(&segs, 1);
        let mut cur: Vec<char> = Vec::new();
        cur.push('.');
        assert(cur@ =~= seq!['.']);
        r.push(cur);
        append_all(&mut r, &tail);
        assert(views(segs@).skip(1) =~= views(segs@).drop_first());
        assert(views(r@) =~= head + (seq![seq!['.']] + normal_segments(views(segs@).drop_first())));
        r
    } else {
        let tail = normal_segments_exec(&segs, 0);
        append_all(&mut r, &tail);
        assert(views(segs@).skip(0) =~= views(segs@));
        r
    }
}

fn append_all(dst: &mut Vec<Vec<char>>, src: &Vec<Vec<char>>)
    ensures
        views(final(dst)@) == views(old(dst)@) + views(src@),
{
    let n = src.len();
    for i in 0..n
        invariant
            n == src@.len(),
            views(dst@) == views(old(dst)@) + views(src@).take(i as int),
    {
        let ghost before = views(dst@);
        dst.push(src[i].clone());
        assert(views(dst@) =~= before.push(src@[i as int]@));
        assert(views(src@).take(i + 1) =~= views(src@).take(i as int).push(src@[i as int]@));
    }
    assert(views(src@).take(n as int) =~= views(src@));
}

} // verus!

verus! {

/// `p` with its file name replaced by `name` (as `Path::with_file_name`).
pub fn with_file_name_chars(p: &Vec<char>, name: &Vec<char>, w: bool) -> (r: Vec<char>)
    ensures
        r@ == with_file_name(p@, name@, w),
{
    match file_name_chars(p, w) {
        Some(_) => {
            match parent_chars(p, w) {
                Some(q) => push_path_chars(&q, name, w),
                None => {
                    proof { lemma_file_name_has_parent(p@, w); }
                    push_path_chars(p, name, w)
                },
            }
        },
        None => push_path_chars(p, name, w),
    }
}

/// A path with a file name has a parent.
pub proof fn lemma_file_name_has_parent(p: Seq<char>, w: bool)
    requires
        file_name_of(p, w) is Some,
    ensures
        parent_of(p, w) is Some,
{
    let t = trim_tail(p, w);
    lemma_last_slash(t, w);
    lemma_root_len(t, w);
}

/// Where the program puts its output directory `dir_name` by default beside the file
/// `exe`: `exe` with its last component removed (as `PathBuf::pop`), then `dir_name`
/// pushed.
pub open spec fn beside(exe: Seq<char>, dir_name: Seq<char>, w: bool) -> Seq<char> {
    match parent_of(exe, w) {
        Some(q) => push_path(q, dir_name, w),
        None => push_path(exe, dir_name, w),
    }
}

/// The directory `dir_name` beside the file `exe`, under the rules `w`.
pub fn output_dir_beside(exe: &str, dir_name: &str, w: bool) -> (r: String)
    ensures
        r@ == beside(exe@, dir_name@, w),
{
    let e = chars_of(exe);
    let d = chars_of(dir_name);
    let r = match parent_chars(&e, w) {
        Some(q) => push_path_chars(&q, &d, w),
        None => push_path_chars(&e, &d, w),
    };
    string_of(r.as_slice())
}

} // verus!

verus! {

/// Whether `a` and `b` name the same path (as `Path`'s `==`: the same components).
pub fn same_path(a: &Vec<char>, b: &Vec<char>, w: bool) -> (r: bool)
    ensures
        r == (components(a@, w) == components(b@, w)),
{
    let ca = components_exec(a, w);
    let cb = components_exec(b, w);
    if ca.len() != cb.len() {
        assert(views(ca@).len() != views(cb@).len());
        return false;
    }
    let n = ca.len();
    for i in 0..n
        invariant
            n == ca@.len(),
            n == cb@.len(),
            views(ca@) == components(a@, w),
            views(cb@) == components(b@, w),
            forall|j: int| 0 <= j < i ==> views(ca@)[j] == views(cb@)[j],
    {
        assert(views(ca@)[i as int] == ca@[i as int]@);
        assert(views(cb@)[i as int] == cb@[i as int]@);
        if !crate::text::chars_eq(&ca[i], &cb[i]) {
            assert(views(ca@)[i as int] != views(cb@)[i as int]);
            return false;
        }
    }
    assert(views(ca@) =~= views(cb@));
    true
}

} // verus!

verus! {

/// `s` holds no separator under the rules `w`.
pub open spec fn no_sep(s: Seq<char>, w: bool) -> bool {
    forall|k: int| 0 <= k < s.len() ==> !is_sep(s[k], w)
}

/// The components read from the pieces `segs` that follow a path's prefix and root: a
/// leading `.` is kept when `cur` (a path with neither), then the pieces that name something.
spec fn body_of(cur: bool, segs: Seq<Seq<char>>) -> Seq<Seq<char>> {
    if cur && segs[0] == seq!['.'] {
        seq![seq!['.']] + normal_segments(segs.drop_first())
    } else {
        normal_segments(segs)
    }
}

/// The prefix and root components of `p`.
spec fn head_of(p: Seq<char>, w: bool) -> Seq<Seq<char>> {
    let k = prefix_len(p, w);
    (if k > 0 { seq![p.take(k)] } else { Seq::empty() }) + (if has_root(p, w) {
        seq![seq!['/']]
    } else {
        Seq::empty()
    })
}

proof fn lemma_normal_segments_push(segs: Seq<Seq<char>>, x: Seq<char>)
    ensures
        is_normal_segment(x) ==> normal_segments(segs.push(x)) == normal_segments(segs).push(x),
        !is_normal_segment(x) ==> normal_segments(segs.push(x)) == normal_segments(segs),
{
    assert(segs.push(x).drop_last() =~= segs);
}

proof fn lemma_components_parts(p: Seq<char>, w: bool)
    ensures
        components(p, w) == head_of(p, w) + body_of(root_len(p, w) == 0, split_slash(p.skip(root_len(p, w)), w)),
{
}

proof fn lemma_body_push(cur: bool, segs: Seq<Seq<char>>, x: Seq<char>)
    requires
        segs.len() >= 1,
    ensures
        is_normal_segment(x) ==> body_of(cur, segs.push(x)) == body_of(cur, segs).push(x),
        !is_normal_segment(x) ==> body_of(cur, segs.push(x)) == body_of(cur, segs),
{
    assert(segs.push(x)[0] == segs[0]);
    assert(segs.push(x).drop_first() =~= segs.drop_first().push(x));
    lemma_normal_segments_push(segs.drop_first(), x);
    lemma_normal_segments_push(segs, x);
    if is_normal_segment(x) && cur && segs[0] == seq!['.'] {
        let h: Seq<Seq<char>> = seq![seq!['.']];
        assert(h + normal_segments(segs.drop_first()).push(x) =~= (h + normal_segments(segs.drop_first())).push(x));
    }
}

/// The pieces of `a + b`, where `b` holds no separator: `b` joins the last piece of `a`.
proof fn lemma_split_append_w(a: Seq<char>, b: Seq<char>, w: bool)
    requires
        no_sep(b, w),
    ensures
        split_slash(a + b, w) == split_slash(a, w).update(split_slash(a, w).len() - 1, split_slash(a, w).last() + b),
    decreases b.len(),
{
    lemma_split_slash_nonempty(a, w);
    let sa = split_slash(a, w);
    if b.len() == 0 {
        assert(a + b =~= a);
        assert(sa.last() + b =~= sa.last());
        assert(sa.update(sa.len() - 1, sa.last() + b) =~= sa);
    } else {
        let c = a + b;
        assert(c.drop_last() =~= a + b.drop_last());
        assert(c.last() == b.last());
        lemma_split_append_w(a, b.drop_last(), w);
        let r = split_slash(c.drop_last(), w);
        assert(r.last() == sa.last() + b.drop_last());
        assert(r.last().push(c.last()) =~= sa.last() + b);
        assert(split_slash(c, w) =~= sa.update(sa.len() - 1, sa.last() + b));
    }
}

/// A name written after the prefix and root, or after a separator, is one more component.
proof fn lemma_body_append(r: Seq<char>, n: Seq<char>, cur: bool, w: bool)
    requires
        r.len() == 0 || is_sep(r.last(), w),
        is_normal_segment(n),
        no_sep(n, w),
    ensures
        body_of(cur, split_slash(r + n, w)) == body_of(cur, split_slash(r, w)).push(n),
{
    lemma_split_append_w(r, n, w);
    let none = Seq::<Seq<char>>::empty();
    let e = Seq::<char>::empty();
    if r.len() == 0 {
        assert(split_slash(r, w) =~= seq![e]);
        assert(r + n =~= n);
        assert(split_slash(r, w).last() + n =~= n);
        assert(split_slash(n, w) =~= seq![n]);
        assert(seq![n] =~= none.push(n));
        assert(seq![e] =~= none.push(e));
        assert(normal_segments(none) == none);
        lemma_normal_segments_push(none, n);
        lemma_normal_segments_push(none, e);
        assert(body_of(cur, seq![e]) =~= none);
        assert(body_of(cur, seq![n]) =~= none.push(n));
    } else {
        let r1 = r.drop_last();
        lemma_split_slash_nonempty(r1, w);
        let s1 = split_slash(r1, w);
        assert(split_slash(r, w) == s1.push(e));
        assert(split_slash(r, w).last() + n =~= n);
        assert(split_slash(r + n, w) =~= s1.push(n));
        lemma_body_push(cur, s1, n);
        lemma_body_push(cur, s1, e);
    }
}

pub(crate) proof fn lemma_next_sep_take(t: Seq<char>, i: int, k: int, w: bool)
    requires
        0 <= i,
        0 <= k <= t.len(),
    ensures
        next_sep(t.take(k), i, w) == if next_sep(t, i, w) < k { next_sep(t, i, w) } else { k },
    decreases k - i,
{
    lemma_next_sep(t, i, w);
    if i < k {
        assert(t.take(k)[i] == t[i]);
        if !is_sep(t[i], w) {
            lemma_next_sep_take(t, i + 1, k, w);
        }
    }
}

/// Cutting a path anywhere past its prefix and root keeps them.
proof fn lemma_root_take(t: Seq<char>, k: int, w: bool)
    requires
        root_len(t, w) <= k <= t.len(),
    ensures
        prefix_len(t.take(k), w) == prefix_len(t, w),
        root_len(t.take(k), w) == root_len(t, w),
        has_root(t.take(k), w) == has_root(t, w),
        head_of(t.take(k), w) == head_of(t, w),
{
    let u = t.take(k);
    lemma_root_len(t, w);
    lemma_root_len(u, w);
    lemma_next_sep(t, 2, w);
    lemma_next_sep_take(t, 2, k, w);
    if k >= 2 {
        assert(u[0] == t[0] && u[1] == t[1]);
    }
    let e1 = next_sep(t, 2, w);
    let f1 = next_sep(u, 2, w);
    if f1 < k {
        lemma_next_sep_take(t, f1 + 1, k, w);
    }
    if e1 < t.len() {
        lemma_next_sep(t, e1 + 1, w);
    }
    if e1 < k {
        lemma_next_sep_take(t, e1 + 1, k, w);
    }
    assert(has_unc(u, w) == has_unc(t, w));
    assert(prefix_len(u, w) == prefix_len(t, w));
    let pl = prefix_len(t, w);
    if pl < k {
        assert(u[pl] == t[pl]);
    }
    assert(root_len(u, w) == root_len(t, w));
    assert(has_root(u, w) == has_root(t, w));
    if pl > 0 {
        assert(u.take(pl) =~= t.take(pl));
    }
}

/// Trailing separators and trailing `.` components do not change the components.
proof fn lemma_components_trim_tail_w(p: Seq<char>, w: bool)
    ensures
        components(trim_tail(p, w), w) == components(p, w),
    decreases p.len(),
{
    if p.len() > root_len(p, w) && p.len() >= 2 && (is_sep(p.last(), w) || (p.last() == '.' && is_sep(
        p[p.len() - 2],
        w,
    ))) {
        let q = p.drop_last();
        lemma_components_trim_tail_w(q, w);
        assert(q =~= p.take(p.len() - 1));
        lemma_root_take(p, p.len() - 1, w);
        let rl = root_len(p, w);
        lemma_root_len(p, w);
        let r = p.skip(rl);
        assert(q.skip(rl) =~= r.drop_last());
        lemma_components_parts(p, w);
        lemma_components_parts(q, w);
        let r1 = r.drop_last();
        lemma_split_slash_nonempty(r1, w);
        let e = Seq::<char>::empty();
        if is_sep(p.last(), w) {
            assert(r.last() == p.last());
            assert(split_slash(r, w) == split_slash(r1, w).push(e));
            lemma_body_push(rl == 0, split_slash(r1, w), e);
        } else if p.len() - 2 >= rl {
            let r2 = r1.drop_last();
            assert(r1.last() == p[p.len() - 2]);
            lemma_split_slash_nonempty(r2, w);
            assert(split_slash(r1, w) == split_slash(r2, w).push(e));
            let s1 = split_slash(r1, w);
            assert(split_slash(r, w) == s1.update(s1.len() - 1, s1.last().push('.')));
            assert(e.push('.') =~= seq!['.']);
            assert(split_slash(r, w) =~= split_slash(r2, w).push(seq!['.']));
            lemma_body_push(rl == 0, split_slash(r2, w), seq!['.']);
            lemma_body_push(rl == 0, split_slash(r2, w), e);
        } else {
            // The separator before the final `.` is the root's: the rest is `.` alone.
            assert(rl == p.len() - 1);
            assert(r =~= seq!['.']);
            assert(r1 =~= e);
            assert(r =~= e + seq!['.']);
            lemma_split_append_w(e, seq!['.'], w);
            assert(split_slash(e, w) =~= seq![e]);
            assert(split_slash(r, w) =~= seq![seq!['.']]);
            let none = Seq::<Seq<char>>::empty();
            assert(seq![seq!['.']] =~= none.push(seq!['.']));
            assert(seq![e] =~= none.push(e));
            lemma_normal_segments_push(none, seq!['.']);
            lemma_normal_segments_push(none, e);
            assert(rl > 0);
        }
    }
}

/// A path with a file name is its parent joined with that name, component by component (as
/// `Path`'s `==` compares): the parent's components followed by the name are the path's.
pub proof fn lemma_parent_then_file_name(p: Seq<char>, w: bool)
    requires
        file_name_of(p, w) is Some,
    ensures
        parent_of(p, w) is Some,
        components(p, w) == components(parent_of(p, w).unwrap(), w).push(file_name_of(p, w).unwrap()),
{
    lemma_file_name_has_parent(p, w);
    let t = trim_tail(p, w);
    lemma_last_slash(t, w);
    lemma_root_len(t, w);
    lemma_components_trim_tail_w(p, w);
    let ns = name_start(t, w);
    let rl = root_len(t, w);
    let n = t.skip(ns);
    let a = t.take(ns);
    let q = trim_tail(a, w);
    assert(parent_of(p, w) == Some(q));
    assert(file_name_of(p, w) == Some(n));
    assert forall|k: int| 0 <= k < n.len() implies !is_sep(n[k], w) by {
        assert(n[k] == t[ns + k]);
    }
    lemma_root_take(t, ns, w);
    lemma_components_trim_tail_w(a, w);
    lemma_components_parts(t, w);
    lemma_components_parts(a, w);
    let ra = a.skip(rl);
    assert(t.skip(rl) =~= ra + n);
    if ns > rl {
        assert(ra.last() == t[ns - 1]);
    } else {
        assert(ra.len() == 0);
    }
    lemma_body_append(ra, n, rl == 0, w);
}

} // verus!

verus! {

/// Trimming keeps the prefix and root, and stops at a path that ends in neither a separator
/// beyond its root nor a trailing `.` component.
proof fn lemma_trim_tail_keeps_root(p: Seq<char>, w: bool)
    ensures
        root_len(p, w) <= trim_tail(p, w).len() <= p.len(),
        trim_tail(p, w) == p.take(trim_tail(p, w).len() as int),
        prefix_len(trim_tail(p, w), w) == prefix_len(p, w),
        root_len(trim_tail(p, w), w) == root_len(p, w),
        has_root(trim_tail(p, w), w) == has_root(p, w),
        has_unc(trim_tail(p, w), w) == has_unc(p, w),
        ({
            let r = trim_tail(p, w);
            !(r.len() > root_len(r, w) && r.len() >= 2 && (is_sep(r.last(), w) || (r.last() == '.' && is_sep(
                r[r.len() - 2],
                w,
            ))))
        }),
    decreases p.len(),
{
    lemma_root_len(p, w);
    if p.len() > root_len(p, w) && p.len() >= 2 && (is_sep(p.last(), w) || (p.last() == '.' && is_sep(
        p[p.len() - 2],
        w,
    ))) {
        let q = p.drop_last();
        assert(q =~= p.take(p.len() - 1));
        lemma_root_take(p, p.len() - 1, w);
        lemma_unc_take(p, p.len() - 1, w);
        lemma_trim_tail_keeps_root(q, w);
        assert(q.take(trim_tail(q, w).len() as int) =~= p.take(trim_tail(q, w).len() as int));
    } else {
        assert(p.take(p.len() as int) =~= p);
    }
}

/// Cutting a path past its prefix and root keeps whether it has a UNC prefix.
proof fn lemma_unc_take(t: Seq<char>, k: int, w: bool)
    requires
        root_len(t, w) <= k <= t.len(),
    ensures
        has_unc(t.take(k), w) == has_unc(t, w),
{
    let u = t.take(k);
    lemma_root_len(t, w);
    lemma_next_sep(t, 2, w);
    lemma_next_sep_take(t, 2, k, w);
    if k >= 2 {
        assert(u[0] == t[0] && u[1] == t[1]);
    }
    let e1 = next_sep(t, 2, w);
    let f1 = next_sep(u, 2, w);
    if f1 < k {
        lemma_next_sep_take(t, f1 + 1, k, w);
    }
    if e1 < t.len() {
        lemma_next_sep(t, e1 + 1, w);
    }
    if e1 < k {
        lemma_next_sep_take(t, e1 + 1, k, w);
    }
}

/// The last separator of `a + b`, where `b` holds none, is that of `a`.
proof fn lemma_last_slash_append_w(a: Seq<char>, b: Seq<char>, w: bool)
    requires
        no_sep(b, w),
    ensures
        last_slash(a + b, w) == last_slash(a, w),
    decreases b.len(),
{
    if b.len() == 0 {
        assert(a + b =~= a);
    } else {
        assert((a + b).drop_last() =~= a + b.drop_last());
        lemma_last_slash_append_w(a, b.drop_last(), w);
    }
}

/// What a pushed name follows: nothing after an empty path, the path itself when it ends
/// with a separator or is a drive prefix alone, else the path and a separator.
spec fn push_head(q: Seq<char>, w: bool) -> Seq<char> {
    if q.len() == 0 {
        Seq::empty()
    } else if is_sep(q.last(), w) || (has_drive(q, w) && q.len() == 2) {
        q
    } else {
        q + seq![sep_char(w)]
    }
}

#[verifier::rlimit(80)]
#[verifier::spinoff_prover]
proof fn lemma_push_name_shape(q: Seq<char>, name: Seq<char>, w: bool)
    requires
        is_normal_segment(name),
        no_sep(name, w),
        !has_drive(name, w),
        q.len() > 0 && is_sep(q.last(), w) ==> q.len() == root_len(q, w),
        q.len() >= 2 && is_sep(q[0], w) && is_sep(q[1], w) ==> has_unc(q, w),
    ensures
        ({
            let u = push_path(q, name, w);
            let v = push_head(q, w);
            let ru = root_len(u, w);
            &&& u == v + name
            &&& ru <= v.len()
            &&& head_of(u, w) == head_of(q, w)
            &&& (v.len() == 0 && ru == 0) || is_sep(v.last(), w) || (v == q && has_drive(q, w) && q.len() == 2 && ru == 2)
            &&& body_of(ru == 0, split_slash(v.skip(ru), w)) == body_of(
                root_len(q, w) == 0,
                split_slash(q.skip(root_len(q, w)), w),
            )
        }),
{
    let u = push_path(q, name, w);
    let v = push_head(q, w);
    lemma_root_len(q, w);
    lemma_root_len(u, w);
    lemma_next_sep(name, 2, w);
    assert(prefix_len(name, w) == 0) by {
        if has_unc(name, w) {
            assert(is_sep(name[0], w));
        }
    }
    let e = Seq::<char>::empty();
    assert(u =~= v + name);
    let k = v.len() as int;
    assert(u.take(k) =~= v);
    lemma_next_sep(u, 2, w);
    lemma_next_sep_take(u, 2, k, w);
    lemma_next_sep(q, 2, w);
    let e1 = next_sep(q, 2, w);
    if e1 < q.len() {
        lemma_next_sep(q, e1 + 1, w);
    }
    assert forall|j: int| 0 <= j < q.len() implies u[j] == q[j] by {
        assert(u.take(k)[j] == v[j]);
    }
    if q.len() == 0 {
        assert(u =~= name);
        lemma_split_slash_nonempty(e, w);
        assert(head_of(q, w) =~= Seq::<Seq<char>>::empty());
        assert(head_of(u, w) =~= Seq::<Seq<char>>::empty());
        assert(v.skip(0) =~= e);
        assert(q.skip(0) =~= e);
    } else {
        if has_unc(q, w) {
            let e2 = next_sep(q, e1 + 1, w);
            lemma_next_sep_take(u, e1 + 1, k, w);
            lemma_next_sep(u, e1 + 1, w);
            if k > q.len() {
                assert(u[q.len() as int] == sep_char(w));
            }
            if e2 == q.len() && k == q.len() {
                assert(is_sep(q.last(), w));
                assert(false);
            }
            assert(next_sep(u, 2, w) == e1);
            assert(next_sep(u, e1 + 1, w) == e2);
        }
        if q.len() == 1 && !(is_sep(q.last(), w)) {
            assert(u[1] == sep_char(w));
        }
        if q.len() == 1 && is_sep(q.last(), w) {
            assert(u[1] == name[0]);
        }
        assert(has_drive(u, w) == has_drive(q, w));
        assert(has_unc(u, w) == has_unc(q, w));
        assert(prefix_len(u, w) == prefix_len(q, w));
        let pl = prefix_len(q, w);
        assert(u.take(pl) =~= q.take(pl));
        if pl < q.len() {
            assert(u[pl] == q[pl]);
        } else if pl < u.len() {
            assert(u[pl] == v[pl] || u[pl] == name[0]);
        }
        let rq = root_len(q, w);
        let ru = root_len(u, w);
        assert(head_of(u, w) == head_of(q, w));
        if v == q {
            assert(ru == rq);
        } else {
            assert(v =~= q + seq![sep_char(w)]);
            if pl == q.len() {
                assert(ru == k);
                assert(q.skip(rq) =~= e);
                assert(v.skip(ru) =~= e);
            } else {
                assert(ru == rq);
                let x = q.skip(rq);
                assert(v.skip(ru) =~= x + seq![sep_char(w)]);
                lemma_split_slash_nonempty(x, w);
                assert((x + seq![sep_char(w)]).drop_last() =~= x);
                assert(split_slash(v.skip(ru), w) == split_slash(x, w).push(e));
                lemma_body_push(rq == 0, split_slash(x, w), e);
            }
        }
    }
}

/// Pushing a name (not empty, not `.`, without separator, without drive prefix) onto a
/// trimmed path whose leading pair of separators, if any, opens a UNC prefix, adds the name
/// as the last component, and the result's file name is that name (unless it is `..`).
proof fn lemma_push_name_w(q: Seq<char>, name: Seq<char>, w: bool)
    requires
        is_normal_segment(name),
        no_sep(name, w),
        !has_drive(name, w),
        q.len() > 0 && is_sep(q.last(), w) ==> q.len() == root_len(q, w),
        q.len() >= 2 && is_sep(q[0], w) && is_sep(q[1], w) ==> has_unc(q, w),
    ensures
        components(push_path(q, name, w), w) == components(q, w).push(name),
        name != seq!['.', '.'] ==> file_name_of(push_path(q, name, w), w) == Some(name),
{
    lemma_push_name_components(q, name, w);
    if name != seq!['.', '.'] {
        lemma_push_name_file_name(q, name, w);
    }
}

proof fn lemma_push_name_components(q: Seq<char>, name: Seq<char>, w: bool)
    requires
        is_normal_segment(name),
        no_sep(name, w),
        !has_drive(name, w),
        q.len() > 0 && is_sep(q.last(), w) ==> q.len() == root_len(q, w),
        q.len() >= 2 && is_sep(q[0], w) && is_sep(q[1], w) ==> has_unc(q, w),
    ensures
        components(push_path(q, name, w), w) == components(q, w).push(name),
{
    lemma_push_name_shape(q, name, w);
    let u = push_path(q, name, w);
    let v = push_head(q, w);
    let ru = root_len(u, w);
    let rv = v.skip(ru);
    lemma_root_len(u, w);
    assert(u.skip(ru) =~= rv + name);
    if rv.len() > 0 {
        assert(rv.last() == v.last());
    }
    lemma_body_append(rv, name, ru == 0, w);
    lemma_components_parts(u, w);
    lemma_components_parts(q, w);
}

proof fn lemma_push_name_file_name(q: Seq<char>, name: Seq<char>, w: bool)
    requires
        is_normal_segment(name),
        no_sep(name, w),
        !has_drive(name, w),
        q.len() > 0 && is_sep(q.last(), w) ==> q.len() == root_len(q, w),
        q.len() >= 2 && is_sep(q[0], w) && is_sep(q[1], w) ==> has_unc(q, w),
        name != seq!['.', '.'],
    ensures
        file_name_of(push_path(q, name, w), w) == Some(name),
{
    lemma_push_name_shape(q, name, w);
    let u = push_path(q, name, w);
    let v = push_head(q, w);
    lemma_last_slash_append_w(v, name, w);
    lemma_last_slash(v, w);
    lemma_root_len(u, w);
    if u.len() >= 2 {
        assert(u.last() == name.last());
        if name.len() >= 2 {
            assert(u[u.len() - 2] == name[name.len() - 2]);
        } else {
            assert(name =~= seq![name[0]]);
        }
    }
    assert(trim_tail(u, w) == u);
    if v.len() > 0 && !is_sep(v.last(), w) {
        // A drive prefix alone: no separator in it.
        assert(!is_sep(v[0], w) && !is_sep(v[1], w));
        assert(last_slash(v.drop_last(), w) == last_slash(v.drop_last().drop_last(), w));
        assert(v.drop_last().drop_last() =~= Seq::<char>::empty());
    }
    assert(u.skip(name_start(u, w)) =~= name);
}

} // verus!

verus! {

/// A file name holds no separator and names something.
pub proof fn lemma_file_name_no_sep(p: Seq<char>, w: bool)
    requires
        file_name_of(p, w) is Some,
    ensures
        no_sep(file_name_of(p, w).unwrap(), w),
        is_normal_segment(file_name_of(p, w).unwrap()),
{
    let t = trim_tail(p, w);
    lemma_last_slash(t, w);
    lemma_root_len(t, w);
    let ns = name_start(t, w);
    let n = t.skip(ns);
    assert forall|k: int| 0 <= k < n.len() implies !is_sep(n[k], w) by {
        assert(n[k] == t[ns + k]);
    }
}

/// The parent of a path is trimmed, and starts with a pair of separators only when it has a
/// UNC prefix, when the path itself starts so only with one.
proof fn lemma_parent_shape(p: Seq<char>, w: bool)
    requires
        file_name_of(p, w) is Some,
        p.len() >= 2 && is_sep(p[0], w) && is_sep(p[1], w) ==> has_unc(p, w),
    ensures
        ({
            let q = parent_of(p, w).unwrap();
            &&& q.len() > 0 && is_sep(q.last(), w) ==> q.len() == root_len(q, w)
            &&& q.len() >= 2 && is_sep(q[0], w) && is_sep(q[1], w) ==> has_unc(q, w)
        }),
{
    lemma_file_name_has_parent(p, w);
    let t = trim_tail(p, w);
    lemma_trim_tail_keeps_root(p, w);
    lemma_last_slash(t, w);
    lemma_root_len(t, w);
    let ns = name_start(t, w);
    let a = t.take(ns);
    lemma_root_take(t, ns, w);
    lemma_unc_take(t, ns, w);
    lemma_trim_tail_keeps_root(a, w);
    let q = trim_tail(a, w);
    assert(parent_of(p, w) == Some(q));
    lemma_root_len(q, w);
    if q.len() == 1 && is_sep(q.last(), w) {
        assert(!has_drive(q, w));
        assert(!has_unc(q, w));
    }
    if q.len() >= 2 && is_sep(q[0], w) && is_sep(q[1], w) {
        assert(q[0] == a[0] && q[1] == a[1]);
        assert(a[0] == t[0] && a[1] == t[1]);
        assert(t[0] == p[0] && t[1] == p[1]);
    }
}

/// A path with a file name is its parent joined with that name, component by component (as
/// `Path`'s `==` compares): the parent's components followed by the name are the path's,
/// and pushing the name onto the parent gives the path back. Under Windows rules, pushing
/// gives the path back when the name is not a drive prefix and a path that starts with two
/// separators has a UNC prefix.
pub proof fn lemma_parent_join_file_name(p: Seq<char>, w: bool)
    requires
        file_name_of(p, w) is Some,
        !has_drive(file_name_of(p, w).unwrap(), w),
        p.len() >= 2 && is_sep(p[0], w) && is_sep(p[1], w) ==> has_unc(p, w),
    ensures
        parent_of(p, w) is Some,
        components(p, w) == components(parent_of(p, w).unwrap(), w).push(file_name_of(p, w).unwrap()),
        components(push_path(parent_of(p, w).unwrap(), file_name_of(p, w).unwrap(), w), w) == components(p, w),
{
    lemma_parent_then_file_name(p, w);
    lemma_parent_shape(p, w);
    lemma_file_name_no_sep(p, w);
    lemma_push_name_w(parent_of(p, w).unwrap(), file_name_of(p, w).unwrap(), w);
}

/// Replacing the file name of a path by a name (not empty, not `.` or `..`, without
/// separator, not a drive prefix) keeps it in the same directory: its components are the
/// parent's followed by the new name, and its file name is the new name (under Windows
/// rules, for a path that starts with two separators only when it has a UNC prefix).
pub proof fn lemma_with_file_name_stays(p: Seq<char>, name: Seq<char>, w: bool)
    requires
        file_name_of(p, w) is Some,
        is_normal_segment(name),
        name != seq!['.', '.'],
        no_sep(name, w),
        !has_drive(name, w),
        p.len() >= 2 && is_sep(p[0], w) && is_sep(p[1], w) ==> has_unc(p, w),
    ensures
        components(with_file_name(p, name, w), w) == components(parent_of(p, w).unwrap(), w).push(name),
        file_name_of(with_file_name(p, name, w), w) == Some(name),
{
    lemma_file_name_has_parent(p, w);
    lemma_parent_shape(p, w);
    lemma_push_name_w(parent_of(p, w).unwrap(), name, w);
}

} // verus!
