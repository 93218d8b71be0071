//! Choosing the operation to run, with its paths made absolute.

use vstd::prelude::*;
use crate::args::Operation;
use crate::paths::{
    has_drive, has_unc, is_absolute, is_absolute_chars, is_sep, lemma_next_sep, lemma_next_sep_take, lemma_root_len,
    next_sep, prefix_len, push_path, push_path_chars,
};
use crate::text::{chars_of, string_of};

verus! {

/// `path` made absolute under the path rules `w`: unchanged when it is; else joined onto the
/// current directory `cwd` (`None` when the current directory is unknown).
pub open spec fn resolved(path: Seq<char>, cwd: Option<Seq<char>>, w: bool) -> Option<Seq<char>> {
    if is_absolute(path, w) {
        Some(path)
    } else {
        match cwd {
            Some(c) => Some(push_path(c, path, w)),
            None => None,
        }
    }
}

/// `cwd` as plain values.
pub open spec fn cwd_view(cwd: Option<&str>) -> Option<Seq<char>> {
    match cwd {
        Some(c) => Some(c@),
        None => None,
    }
}

/// `path` made absolute against the current directory `cwd`, under the path rules `w`.
pub fn resolve_path(path: &str, cwd: Option<&str>, w: bool) -> (r: Option<String>)
    ensures
        match r {
            Some(p) => resolved(path@, cwd_view(cwd), w) == Some(p@),
            None => resolved(path@, cwd_view(cwd), w) is None,
        },
{
    let p = chars_of(path);
    if is_absolute_chars(&p, w) {
        return Some(string_of(p.as_slice()));
    }
    match cwd {
        Some(c) => Some(string_of(push_path_chars(&chars_of(c), &p, w).as_slice())),
        None => None,
    }
}

/// `path` made absolute, or kept as given when that cannot be done.
pub open spec fn resolved_or_kept(path: Seq<char>, cwd: Option<Seq<char>>, w: bool) -> Seq<char> {
    match resolved(path, cwd, w) {
        Some(p) => p,
        None => path,
    }
}

fn resolve_or_keep(path: &str, cwd: Option<&str>, w: bool) -> (r: String)
    ensures
        r@ == resolved_or_kept(path@, cwd_view(cwd), w),
{
    match resolve_path(path, cwd, w) {
        Some(p) => p,
        None => crate::text::owned(path),
    }
}

/// Why an operation cannot start.
pub enum DispatchError {
    /// A relative path needed the current directory, which is unknown.
    NoCurrentDirectory,
}

/// The optional string as plain values.
pub open spec fn opt_view(o: Option<String>) -> Option<Seq<char>> {
    match o {
        Some(s) => Some(s@),
        None => None,
    }
}

/// Whether `r` is the operation `op` with its paths made absolute against `cwd`: the
/// directory (or the locked file) must be made absolute, else the operation fails; the
/// output of a search too; the output of a flattening or a merge is kept as given when it
/// cannot be made absolute; every other option is passed on unchanged.
pub open spec fn dispatched(op: Operation, cwd: Option<Seq<char>>, w: bool, r: Result<Operation, DispatchError>) -> bool {
    match op {
        Operation::Expose { directory, force } => match resolved(directory@, cwd, w) {
            Some(d) => r matches Ok(Operation::Expose { directory: d2, force: f2 }) && d2@ == d && f2 == force,
            None => r is Err,
        },
        Operation::Flatten { directory, output, move_files, replace_newest } => match resolved(directory@, cwd, w) {
            Some(d) => r matches Ok(Operation::Flatten { directory: d2, output: o2, move_files: m2, replace_newest: n2 })
                && d2@ == d && m2 == move_files && n2 == replace_newest && opt_view(o2) == match output {
                    Some(o) => Some(resolved_or_kept(o@, cwd, w)),
                    None => None,
                },
            None => r is Err,
        },
        Operation::Rename { directory, target_type, find, replace } => match resolved(directory@, cwd, w) {
            Some(d) => r matches Ok(Operation::Rename { directory: d2, target_type: t2, find: f2, replace: r2 })
                && d2@ == d && t2 == target_type && f2@ == find@ && r2@ == replace@,
            None => r is Err,
        },
        Operation::AddParentDir { directory, delimiter } => match resolved(directory@, cwd, w) {
            Some(d) => r matches Ok(Operation::AddParentDir { directory: d2, delimiter: l2 }) && d2@ == d
                && l2@ == delimiter@,
            None => r is Err,
        },
        Operation::Find { directory, mode, pattern, output } => match resolved(directory@, cwd, w) {
            Some(d) => match output {
                Some(o) => match resolved(o@, cwd, w) {
                    Some(od) => r matches Ok(Operation::Find { directory: d2, mode: m2, pattern: p2, output: o2 })
                        && d2@ == d && m2 == mode && opt_view(p2) == opt_view(pattern) && opt_view(o2) == Some(od),
                    None => r is Err,
                },
                None => r matches Ok(Operation::Find { directory: d2, mode: m2, pattern: p2, output: o2 })
                    && d2@ == d && m2 == mode && opt_view(p2) == opt_view(pattern) && o2 is None,
            },
            None => r is Err,
        },
        Operation::Lock { path, timer, mode } => match resolved(path@, cwd, w) {
            Some(d) => r matches Ok(Operation::Lock { path: p2, timer: t2, mode: m2 }) && p2@ == d && t2 == timer
                && m2 == mode,
            None => r is Err,
        },
        Operation::Merge { directory, output, from, move_files } => match resolved(directory@, cwd, w) {
            Some(d) => r matches Ok(Operation::Merge { directory: d2, output: o2, from: f2, move_files: m2 })
                && d2@ == d && m2 == move_files && opt_view(o2) == match output {
                    Some(o) => Some(resolved_or_kept(o@, cwd, w)),
                    None => None,
                } && match (from, f2) {
                    (Some(a), Some(b)) => a@.map_values(|s: String| s@) == b@.map_values(|s: String| s@),
                    (None, None) => true,
                    _ => false,
                },
            None => r is Err,
        },
        Operation::Tree { directory, show_content, max_depth, full_content, show_hidden } => match resolved(directory@, cwd, w) {
            Some(d) => r matches Ok(Operation::Tree { directory: d2, show_content: s2, max_depth: x2, full_content: f2, show_hidden: h2 })
                && d2@ == d && s2 == show_content && x2 == max_depth && f2 == full_content && h2 == show_hidden,
            None => r is Err,
        },
    }
}

fn copy_opt(o: &Option<String>) -> (r: Option<String>)
    ensures
        opt_view(r) == opt_view(*o),
{
    match o {
        Some(s) => Some(s.clone()),
        None => None,
    }
}

fn copy_strings(v: &Vec<String>) -> (r: Vec<String>)
    ensures
        r@.map_values(|s: String| s@) == v@.map_values(|s: String| s@),
{
    let n = v.len();
    let mut r: Vec<String> = Vec::new();
    for i in 0..n
        invariant
            n == v@.len(),
            r@.len() == i,
            forall|j: int| 0 <= j < i ==> (#[trigger] r@[j])@ == v@[j]@,
    {
        r.push(v[i].clone());
    }
    assert(r@.map_values(|s: String| s@) =~= v@.map_values(|s: String| s@));
    r
}

/// The operation to run: `operation` with its paths made absolute against the current
/// directory `cwd` (`None` when it could not be read).
pub fn process_directory(operation: &Operation, cwd: Option<&str>, w: bool) -> (r: Result<Operation, DispatchError>)
    ensures
        dispatched(*operation, cwd_view(cwd), w, r),
{
    match operation {
        Operation::Expose { directory, force } => match resolve_path(directory.as_str(), cwd, w) {
            Some(d) => Ok(Operation::Expose { directory: d, force: *force }),
            None => Err(DispatchError::NoCurrentDirectory),
        },
        Operation::Flatten { directory, output, move_files, replace_newest } => match resolve_path(directory.as_str(), cwd, w) {
            Some(d) => {
                let o = match output {
                    Some(o) => Some(resolve_or_keep(o.as_str(), cwd, w)),
                    None => None,
                };
                Ok(Operation::Flatten { directory: d, output: o, move_files: *move_files, replace_newest: *replace_newest })
            },
            None => Err(DispatchError::NoCurrentDirectory),
        },
        Operation::Rename { directory, target_type, find, replace } => match resolve_path(directory.as_str(), cwd, w) {
            Some(d) => Ok(Operation::Rename { directory: d, target_type: *target_type, find: find.clone(), replace: replace.clone() }),
            None => Err(DispatchError::NoCurrentDirectory),
        },
        Operation::AddParentDir { directory, delimiter } => match resolve_path(directory.as_str(), cwd, w) {
            Some(d) => Ok(Operation::AddParentDir { directory: d, delimiter: delimiter.clone() }),
            None => Err(DispatchError::NoCurrentDirectory),
        },
        Operation::Find { directory, mode, pattern, output } => match resolve_path(directory.as_str(), cwd, w) {
            Some(d) => match output {
                Some(o) => match resolve_path(o.as_str(), cwd, w) {
                    Some(od) => Ok(Operation::Find { directory: d, mode: *mode, pattern: copy_opt(pattern), output: Some(od) }),
                    None => Err(DispatchError::NoCurrentDirectory),
                },
                None => Ok(Operation::Find { directory: d, mode: *mode, pattern: copy_opt(pattern), output: None }),
            },
            None => Err(DispatchError::NoCurrentDirectory),
        },
        Operation::Lock { path, timer, mode } => match resolve_path(path.as_str(), cwd, w) {
            Some(d) => Ok(Operation::Lock { path: d, timer: *timer, mode: *mode }),
            None => Err(DispatchError::NoCurrentDirectory),
        },
        Operation::Merge { directory, output, from, move_files } => match resolve_path(directory.as_str(), cwd, w) {
            Some(d) => {
                let o = match output {
                    Some(o) => Some(resolve_or_keep(o.as_str(), cwd, w)),
                    None => None,
                };
                let f = match from {
                    Some(v) => Some(copy_strings(v)),
                    None => None,
                };
                Ok(Operation::Merge { directory: d, output: o, from: f, move_files: *move_files })
            },
            None => Err(DispatchError::NoCurrentDirectory),
        },
        Operation::Tree { directory, show_content, max_depth, full_content, show_hidden } => match resolve_path(directory.as_str(), cwd, w) {
            Some(d) => Ok(Operation::Tree {
                directory: d,
                show_content: *show_content,
                max_depth: *max_depth,
                full_content: *full_content,
                show_hidden: *show_hidden,
            }),
            None => Err(DispatchError::NoCurrentDirectory),
        },
    }
}

} // verus!

verus! {

impl DispatchError {
    /// The message shown for the error.
    pub fn message(&self) -> (r: &'static str)
        ensures
            r@ == "Не удалось получить текущую директорию"@,
    {
        "Не удалось получить текущую директорию"
    }
}

} // verus!

verus! {

/// Against an absolute current directory every path is made absolute, and a path that was
/// made absolute is left as it is when made absolute again (against any directory). Under
/// Windows rules this holds of paths without a prefix, and of absolute ones: a path with a
/// drive but no root (`C:x`) replaces the current directory and stays relative.
pub proof fn lemma_resolved_is_absolute(path: Seq<char>, cwd: Seq<char>, other: Option<Seq<char>>, w: bool)
    requires
        is_absolute(cwd, w),
        w ==> prefix_len(path, w) == 0 || is_absolute(path, w),
    ensures
        resolved(path, Some(cwd), w) is Some,
        is_absolute(resolved(path, Some(cwd), w).unwrap(), w),
        resolved(resolved(path, Some(cwd), w).unwrap(), other, w) == resolved(path, Some(cwd), w),
{
    if !is_absolute(path, w) {
        let r = push_path(cwd, path, w);
        if !w {
            if cwd.last() == '/' {
                assert(r[0] == (cwd + path)[0]);
            } else {
                assert(r[0] == (cwd + seq!['/'] + path)[0]);
            }
            assert(r.len() > 0 && r[0] == '/');
        } else {
            lemma_windows_push_absolute(cwd, path);
        }
    }
}

/// Under Windows rules, pushing a path without a prefix onto an absolute path keeps it
/// absolute, with the same prefix.
proof fn lemma_windows_push_absolute(cwd: Seq<char>, path: Seq<char>)
    requires
        is_absolute(cwd, true),
        prefix_len(path, true) == 0,
    ensures
        is_absolute(push_path(cwd, path, true), true),
{
    let w = true;
    let r = push_path(cwd, path, w);
    lemma_root_len(cwd, w);
    lemma_next_sep(cwd, 2, w);
    let e1 = next_sep(cwd, 2, w);
    if has_unc(cwd, w) {
        lemma_next_sep(cwd, e1 + 1, w);
    }
    let pc = prefix_len(cwd, w);
    assert(pc > 0);
    assert(cwd.len() >= 3);
    // How far `r` agrees with `cwd`.
    let k: int = if path.len() > 0 && is_sep(path[0], w) { pc } else { cwd.len() as int };
    assert(k >= pc);
    assert(r.len() >= k);
    assert(r.take(k) =~= cwd.take(k));
    // The character of `r` at `k` is a separator.
    if path.len() > 0 && is_sep(path[0], w) {
        assert(r == cwd.take(pc) + path);
        assert(r[k] == path[0]);
    } else if is_sep(cwd.last(), w) {
        assert(r == cwd + path);
        if has_unc(cwd, w) {
            // The share ends before the final separator.
            assert(next_sep(cwd, e1 + 1, w) <= cwd.len() - 1);
        }
    } else {
        assert(r == cwd + seq!['\\'] + path);
        assert(r[k] == '\\');
    }
    assert forall|j: int| 0 <= j < k implies r[j] == cwd[j] by {
        assert(r.take(k)[j] == cwd.take(k)[j]);
    }
    if has_drive(cwd, w) {
        assert(has_drive(r, w));
        if k == 2 {
            assert(is_sep(r[2], w));
        } else {
            assert(r[2] == cwd[2]);
        }
    } else {
        assert(has_unc(cwd, w));
        let e2 = next_sep(cwd, e1 + 1, w);
        assert(pc == e2);
        lemma_next_sep(r, 2, w);
        lemma_next_sep_take(r, 2, k, w);
        lemma_next_sep_take(cwd, 2, k, w);
        assert(next_sep(r, 2, w) == e1);
        lemma_next_sep(r, e1 + 1, w);
        lemma_next_sep_take(r, e1 + 1, k, w);
        lemma_next_sep_take(cwd, e1 + 1, k, w);
        if e2 < k {
            assert(next_sep(r, e1 + 1, w) == e2);
        } else {
            assert(e2 == k);
            assert(r.len() > k);
            assert(is_sep(r[k], w));
            assert(next_sep(r, e1 + 1, w) == e2);
        }
        assert(!has_drive(r, w));
        assert(has_unc(r, w));
    }
}

} // verus!

verus! {

/// Whether `b` carries the same options as `a`, paths aside: the same operation, with the
/// same flags, timer, modes, search pattern, names and globs.
pub open spec fn same_options(a: Operation, b: Operation) -> bool {
    match (a, b) {
        (Operation::Expose { force: f1, .. }, Operation::Expose { force: f2, .. }) => f1 == f2,
        (
            Operation::Flatten { move_files: m1, replace_newest: n1, .. },
            Operation::Flatten { move_files: m2, replace_newest: n2, .. },
        ) => m1 == m2 && n1 == n2,
        (
            Operation::Rename { target_type: t1, find: f1, replace: r1, .. },
            Operation::Rename { target_type: t2, find: f2, replace: r2, .. },
        ) => t1 == t2 && f1@ == f2@ && r1@ == r2@,
        (Operation::AddParentDir { delimiter: d1, .. }, Operation::AddParentDir { delimiter: d2, .. }) => d1@
            == d2@,
        (Operation::Find { mode: m1, pattern: p1, .. }, Operation::Find { mode: m2, pattern: p2, .. }) => m1 == m2
            && opt_view(p1) == opt_view(p2),
        (Operation::Lock { timer: t1, mode: m1, .. }, Operation::Lock { timer: t2, mode: m2, .. }) => t1 == t2 && m1
            == m2,
        (
            Operation::Merge { from: f1, move_files: m1, .. },
            Operation::Merge { from: f2, move_files: m2, .. },
        ) => m1 == m2 && match (f1, f2) {
            (Some(x), Some(y)) => x@.map_values(|s: String| s@) == y@.map_values(|s: String| s@),
            (None, None) => true,
            _ => false,
        },
        (
            Operation::Tree { show_content: s1, max_depth: d1, full_content: f1, show_hidden: h1, .. },
            Operation::Tree { show_content: s2, max_depth: d2, full_content: f2, show_hidden: h2, .. },
        ) => s1 == s2 && d1 == d2 && f1 == f2 && h1 == h2,
        _ => false,
    }
}

/// Dispatching makes paths absolute and nothing else: the operation it gives is the one
/// asked for, with every option other than a path passed on unchanged.
pub proof fn lemma_dispatch_keeps_options(op: Operation, cwd: Option<Seq<char>>, w: bool, r: Result<Operation, DispatchError>)
    requires
        dispatched(op, cwd, w, r),
        r is Ok,
    ensures
        same_options(op, r->Ok_0),
{
}

} // verus!
