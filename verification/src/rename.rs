//! New names for renamed files: replacing part of a name, prefixing the parent directory's
//! name, and dropping the dot that hides a file.

use vstd::prelude::*;
use crate::paths::{
    components, file_name_chars, file_name_of, has_drive, has_unc, is_normal_segment, is_sep, lemma_file_name_no_sep,
    lemma_with_file_name_stays, no_sep, parent_chars, parent_of, with_file_name, with_file_name_chars,
};
use crate::text::{chars_of, contains, contains_chars, extend_chars, replace_all, replace_chars, s_tail, string_of};

verus! {

/// Where `path` is renamed to when `find` is replaced by `replace` in its file name: `None`
/// when it has no file name or the name does not contain `find`; else the path with its file
/// name replaced by the name after replacement (every occurrence, as `str::replace`).
pub open spec fn rename_spec(path: Seq<char>, find: Seq<char>, replace: Seq<char>, w: bool) -> Option<Seq<char>> {
    match file_name_of(path, w) {
        Some(n) => if contains(n, find) {
            Some(with_file_name(path, replace_all(n, find, replace), w))
        } else {
            None
        },
        None => None,
    }
}

/// The new file name and the new path of `path` when `find` is replaced by `replace` in its
/// file name: `None` when the name does not contain `find`.
pub fn rename_destination(path: &str, find: &str, replace: &str, w: bool) -> (r: Option<(String, String)>)
    ensures
        match r {
            Some((name, dest)) => {
                &&& rename_spec(path@, find@, replace@, w) == Some(dest@)
                &&& name@ == replace_all(file_name_of(path@, w).unwrap(), find@, replace@)
            },
            None => rename_spec(path@, find@, replace@, w) is None,
        },
{
    let p = chars_of(path);
    let f = chars_of(find);
    let rp = chars_of(replace);
    match file_name_chars(&p, w) {
        Some(n) => {
            if contains_chars(&n, &f) {
                let new_name = replace_chars(&n, &f, &rp);
                let dest = with_file_name_chars(&p, &new_name, w);
                Some((string_of(new_name.as_slice()), string_of(dest.as_slice())))
            } else {
                None
            }
        },
        None => None,
    }
}

/// Where a file is renamed to when its parent directory's name is put in front of its name:
/// the new name is the parent's name, `delimiter` and the file's name, and the new path is the
/// path with its file name replaced by it; `None` when the path has no file name, no parent,
/// or a parent without a name.
pub open spec fn parent_prefix_spec(path: Seq<char>, delimiter: Seq<char>, w: bool) -> Option<(Seq<char>, Seq<char>)> {
    match file_name_of(path, w) {
        Some(n) => match parent_of(path, w) {
            Some(q) => match file_name_of(q, w) {
                Some(pn) => {
                    let new_name = pn + delimiter + n;
                    Some((new_name, with_file_name(path, new_name, w)))
                },
                None => None,
            },
            None => None,
        },
        None => None,
    }
}

/// The new name and the new path of the file at `path` when its parent directory's name and
/// `delimiter` are put in front of its name.
pub fn parent_prefix_destination(path: &str, delimiter: &str, w: bool) -> (r: Option<(String, String)>)
    ensures
        match r {
            Some((name, dest)) => parent_prefix_spec(path@, delimiter@, w) == Some((name@, dest@)),
            None => parent_prefix_spec(path@, delimiter@, w) is None,
        },
{
    let p = chars_of(path);
    match file_name_chars(&p, w) {
        Some(n) => match parent_chars(&p, w) {
            Some(q) => match file_name_chars(&q, w) {
                Some(pn) => {
                    let mut new_name = pn;
                    extend_chars(&mut new_name, &chars_of(delimiter));
                    extend_chars(&mut new_name, &n);
                    let dest = with_file_name_chars(&p, &new_name, w);
                    Some((string_of(new_name.as_slice()), string_of(dest.as_slice())))
                },
                None => None,
            },
            None => None,
        },
        None => None,
    }
}

/// Where a hidden file is renamed to so that it shows: the path with the leading `.` of its
/// file name dropped; `None` when its name does not start with `.`.
pub open spec fn exposed_spec(path: Seq<char>, w: bool) -> Option<Seq<char>> {
    match file_name_of(path, w) {
        Some(n) => if n[0] == '.' {
            Some(with_file_name(path, n.drop_first(), w))
        } else {
            None
        },
        None => None,
    }
}

/// The path a hidden file at `path` is renamed to so that it shows.
pub fn exposed_path(path: &str, w: bool) -> (r: Option<String>)
    ensures
        match r {
            Some(d) => exposed_spec(path@, w) == Some(d@),
            None => exposed_spec(path@, w) is None,
        },
{
    let p = chars_of(path);
    match file_name_chars(&p, w) {
        Some(n) => {
            if n.len() > 0 && n[0] == '.' {
                let rest = s_tail(&n, 1);
                assert(rest@ == n@.drop_first());
                let d = with_file_name_chars(&p, &rest, w);
                Some(string_of(d.as_slice()))
            } else {
                None
            }
        },
        None => None,
    }
}

} // verus!

verus! {

/// The hint printed on Unix when hidden files are not renamed: a `find` command that drops
/// the leading dot of every hidden name under `directory`.
pub open spec fn unix_expose_hint_text(directory: Seq<char>) -> Seq<char> {
    "find "@ + directory
        + " -name \".*\" -exec sh -c 'mv \"$1\" \"$(dirname \"$1\")/$(basename \"$1\" | sed \"s/^\\.//\")\"' sh {} \\;"@
}

/// The `find` command that shows the hidden files under `directory`.
pub fn unix_expose_hint(directory: &str) -> (r: String)
    ensures
        r@ == unix_expose_hint_text(directory@),
{
    let a = crate::text::concat("find ", directory);
    crate::text::concat(
        a.as_str(),
        " -name \".*\" -exec sh -c 'mv \"$1\" \"$(dirname \"$1\")/$(basename \"$1\" | sed \"s/^\\.//\")\"' sh {} \\;",
    )
}

} // verus!

verus! {

/// A renamed entry stays in its directory and takes the new name, whenever that name is a
/// plain name (not empty, not `.` or `..`, without separator, not a drive prefix) and, under
/// Windows rules, a path that starts with two separators has a UNC prefix.
pub proof fn lemma_rename_stays_in_directory(path: Seq<char>, find: Seq<char>, replace: Seq<char>, w: bool)
    requires
        rename_spec(path, find, replace, w) is Some,
        is_normal_segment(replace_all(file_name_of(path, w).unwrap(), find, replace)),
        replace_all(file_name_of(path, w).unwrap(), find, replace) != seq!['.', '.'],
        no_sep(replace_all(file_name_of(path, w).unwrap(), find, replace), w),
        !has_drive(replace_all(file_name_of(path, w).unwrap(), find, replace), w),
        path.len() >= 2 && is_sep(path[0], w) && is_sep(path[1], w) ==> has_unc(path, w),
    ensures
        ({
            let name = replace_all(file_name_of(path, w).unwrap(), find, replace);
            let dest = rename_spec(path, find, replace, w).unwrap();
            &&& components(dest, w) == components(parent_of(path, w).unwrap(), w).push(name)
            &&& file_name_of(dest, w) == Some(name)
        }),
{
    lemma_with_file_name_stays(path, replace_all(file_name_of(path, w).unwrap(), find, replace), w);
}

/// A file given its directory's name in front stays in that directory, under the name made
/// of the directory's name, the delimiter and its own name (for a delimiter without
/// separator, a new name that is not a drive prefix, and, under Windows rules, a path that
/// starts with two separators only when it has a UNC prefix).
pub proof fn lemma_parent_prefix_stays(path: Seq<char>, delimiter: Seq<char>, w: bool)
    requires
        parent_prefix_spec(path, delimiter, w) is Some,
        no_sep(delimiter, w),
        !has_drive(parent_prefix_spec(path, delimiter, w).unwrap().0, w),
        path.len() >= 2 && is_sep(path[0], w) && is_sep(path[1], w) ==> has_unc(path, w),
    ensures
        ({
            let (name, dest) = parent_prefix_spec(path, delimiter, w).unwrap();
            &&& name == file_name_of(parent_of(path, w).unwrap(), w).unwrap() + delimiter + file_name_of(path, w).unwrap()
            &&& components(dest, w) == components(parent_of(path, w).unwrap(), w).push(name)
            &&& file_name_of(dest, w) == Some(name)
        }),
{
    let n = file_name_of(path, w).unwrap();
    let q = parent_of(path, w).unwrap();
    let pn = file_name_of(q, w).unwrap();
    lemma_file_name_no_sep(path, w);
    lemma_file_name_no_sep(q, w);
    let name = pn + delimiter + n;
    assert forall|k: int| 0 <= k < name.len() implies !is_sep(name[k], w) by {
        if k < pn.len() {
            assert(name[k] == pn[k]);
        } else if k < pn.len() + delimiter.len() {
            assert(name[k] == delimiter[k - pn.len()]);
        } else {
            assert(name[k] == n[k - pn.len() - delimiter.len()]);
        }
    }
    assert(name.len() >= 2);
    if name == seq!['.', '.'] {
        assert(pn.len() == 1 && name[0] == pn[0]);
        assert(pn =~= seq!['.']);
    }
    lemma_with_file_name_stays(path, name, w);
}

} // verus!

verus! {

/// Every hidden entry is exposed, and only hidden ones: a path is given a new place exactly
/// when its file name starts with `.`.
pub proof fn lemma_expose_only_hidden(path: Seq<char>, w: bool)
    ensures
        exposed_spec(path, w) is Some <==> (file_name_of(path, w) is Some && file_name_of(path, w).unwrap()[0]
            == '.'),
{
}

/// An exposed entry stays in its directory, named as before without its leading `.`,
/// whenever that rest is a plain name (not empty, not `.` or `..`, not a drive prefix) and,
/// under Windows rules, a path that starts with two separators has a UNC prefix.
pub proof fn lemma_expose_drops_the_dot(path: Seq<char>, w: bool)
    requires
        file_name_of(path, w) is Some,
        file_name_of(path, w).unwrap()[0] == '.',
        is_normal_segment(file_name_of(path, w).unwrap().drop_first()),
        file_name_of(path, w).unwrap().drop_first() != seq!['.', '.'],
        !has_drive(file_name_of(path, w).unwrap().drop_first(), w),
        path.len() >= 2 && is_sep(path[0], w) && is_sep(path[1], w) ==> has_unc(path, w),
    ensures
        ({
            let rest = file_name_of(path, w).unwrap().drop_first();
            let dest = exposed_spec(path, w).unwrap();
            &&& exposed_spec(path, w) is Some
            &&& file_name_of(dest, w) == Some(rest)
            &&& components(dest, w) == components(parent_of(path, w).unwrap(), w).push(rest)
        }),
{
    let n = file_name_of(path, w).unwrap();
    lemma_file_name_no_sep(path, w);
    assert forall|k: int| 0 <= k < n.drop_first().len() implies !is_sep(n.drop_first()[k], w) by {
        assert(n.drop_first()[k] == n[k + 1]);
    }
    lemma_with_file_name_stays(path, n.drop_first(), w);
}

} // verus!
