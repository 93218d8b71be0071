//! Merging snapshot directories: which directories are snapshots, and where each file of a
//! snapshot lands in the merged tree.

use vstd::prelude::*;
use crate::glob::{glob_matches, glob_regex_source, glob_to_regex, GlobRegex};
use crate::paths::{components, components_exec, join_components, push_path_chars, views};
use crate::text::{
    chars_of, forward_slashes, forward_slashes_chars, has_string, is_prefix_chars, string_of,
    string_set, distinct_strings, trim_leading_slashes, trim_leading_slashes_from,
};

verus! {

/// The key of the first `k` components of `rel`, as `find_root` looks it up: the components
/// pushed one after the other, with `\` written as `/`.
pub open spec fn root_key(rel: Seq<char>, k: int) -> Seq<char> {
    forward_slashes(join_components(components(rel, false).take(k), false))
}

/// The longest key among the first `k` keys of `rel` that is a root.
pub open spec fn deepest_root_upto(rel: Seq<char>, roots: Set<Seq<char>>, k: nat) -> Option<Seq<char>>
    decreases k,
{
    if k == 0 {
        None
    } else if roots.contains(root_key(rel, k as int)) {
        Some(root_key(rel, k as int))
    } else {
        deepest_root_upto(rel, roots, (k - 1) as nat)
    }
}

/// The deepest root that `rel` lies in (or is), if any.
pub open spec fn deepest_root(rel: Seq<char>, roots: Set<Seq<char>>) -> Option<Seq<char>> {
    deepest_root_upto(rel, roots, components(rel, false).len())
}

/// The deepest root that `rel` lies in, if any: the longest of the paths formed by the
/// first one, two, ... components of `rel` that is one of `roots`.
/// `rel` is relative and written with `/` (the walk writes `\` as `/` first), so it is read
/// under Unix rules, which read such a path as Windows rules do.
pub fn find_root(rel: &str, roots: &Vec<String>) -> (r: Option<String>)
    ensures
        match r {
            Some(s) => deepest_root(rel@, string_set(roots@)) == Some(s@),
            None => deepest_root(rel@, string_set(roots@)) is None,
        },
{
    let p = chars_of(rel);
    let comps = components_exec(&p, false);
    let n = comps.len();
    let ghost cs = views(comps@);
    let mut keys: Vec<Vec<char>> = Vec::new();
    let mut joined: Vec<char> = Vec::new();
    assert(cs.take(0) =~= Seq::<Seq<char>>::empty());
    for k in 0..n
        invariant
            n == comps@.len(),
            cs == views(comps@),
            cs == components(rel@, false),
            joined@ == join_components(cs.take(k as int), false),
            keys@.len() == k,
            forall|j: int| 0 <= j < k ==> (#[trigger] keys@[j])@ == root_key(rel@, j + 1),
    {
        joined = push_path_chars(&joined, &comps[k], false);
        assert(cs.take(k + 1).drop_last() =~= cs.take(k as int));
        assert(cs[k as int] == comps@[k as int]@);
        let key = forward_slashes_chars(&joined);
        keys.push(key);
    }
    let mut k = n;
    while k > 0
        invariant
            k <= n,
            n == components(rel@, false).len(),
            keys@.len() == n,
            forall|j: int| 0 <= j < n ==> (#[trigger] keys@[j])@ == root_key(rel@, j + 1),
            deepest_root(rel@, string_set(roots@)) == deepest_root_upto(rel@, string_set(roots@), k as nat),
        decreases k,
    {
        assert(keys@[k - 1]@ == root_key(rel@, k as int));
        if has_string(roots, &keys[k - 1]) {
            return Some(string_of(keys[k - 1].as_slice()));
        }
        k = k - 1;
    }
    None
}

/// Where an entry at `rel` lands under the merged tree: its path past its deepest root, with
/// leading separators dropped; `None` when it lies in no root (or its root is not a textual
/// prefix of it).
pub open spec fn merge_destination(rel: Seq<char>, roots: Set<Seq<char>>) -> Option<Seq<char>> {
    match deepest_root(rel, roots) {
        Some(root) => if root.len() <= rel.len() && rel.take(root.len() as int) == root {
            Some(trim_leading_slashes(rel.skip(root.len() as int)))
        } else {
            None
        },
        None => None,
    }
}

/// `merge_destination` for `rel`.
pub fn destination_in_roots(rel: &str, roots: &Vec<String>) -> (r: Option<String>)
    ensures
        match r {
            Some(s) => merge_destination(rel@, string_set(roots@)) == Some(s@),
            None => merge_destination(rel@, string_set(roots@)) is None,
        },
{
    match find_root(rel, roots) {
        Some(root) => {
            let rc = chars_of(root.as_str());
            let p = chars_of(rel);
            if is_prefix_chars(&rc, &p) {
                let d = trim_leading_slashes_from(&p, rc.len());
                Some(string_of(d.as_slice()))
            } else {
                None
            }
        },
        None => None,
    }
}

} // verus!

verus! {

/// What the merge knows of its snapshots: the roots found so far (relative paths written
/// with `/`, no two equal) and the globs that make a directory a root.
pub struct MergePlan {
    pub roots: Vec<String>,
    pub root_patterns: Vec<GlobRegex>,
}

impl MergePlan {
    /// No root is listed twice.
    pub open spec fn wf(&self) -> bool {
        distinct_strings(self.roots@)
    }

    /// The roots, as a set.
    pub open spec fn root_set(&self) -> Set<Seq<char>> {
        string_set(self.roots@)
    }

    /// The expressions of the root globs, in order.
    pub open spec fn pattern_sources(&self) -> Seq<Seq<char>> {
        self.root_patterns@.map_values(|g: GlobRegex| g@)
    }
}

/// Whether the plan is built from globs (`from` given and not empty) rather than from the
/// directories directly under the merged directory.
pub open spec fn plan_uses_globs(from: Option<Seq<String>>) -> bool {
    match from {
        Some(ps) => ps.len() > 0,
        None => false,
    }
}

/// Whether building the plan needs the list of directories directly under the merged
/// directory.
pub fn plan_needs_children(from: Option<&Vec<String>>) -> (b: bool)
    ensures
        b == !plan_uses_globs(
            match from {
                Some(v) => Some(v@),
                None => None,
            },
        ),
{
    match from {
        Some(ps) => ps.len() == 0,
        None => true,
    }
}

/// The roots named by the directories directly under the merged directory: each relative
/// path with `\` written as `/`, empty ones left out.
pub open spec fn child_roots(children: Seq<String>) -> Set<Seq<char>> {
    Set::new(
        |s: Seq<char>|
            s.len() > 0 && exists|i: int| 0 <= i < children.len() && forward_slashes(children[i]@) == s,
    )
}

/// Adds `s` to `roots` unless it is there already.
pub(crate) fn insert_string(roots: &mut Vec<String>, s: String)
    requires
        distinct_strings(old(roots)@),
    ensures
        distinct_strings(final(roots)@),
        string_set(final(roots)@) == string_set(old(roots)@).insert(s@),
{
    let c = chars_of(s.as_str());
    if !has_string(roots, &c) {
        let ghost before = roots@;
        roots.push(s);
        assert(string_set(roots@) =~= string_set(before).insert(c@)) by {
            assert forall|x: Seq<char>| string_set(before).insert(c@).contains(x) implies string_set(roots@).contains(x) by {
                if x == c@ {
                    assert(roots@[before.len() as int]@ == x);
                } else {
                    let i = choose|i: int| 0 <= i < before.len() && before[i]@ == x;
                    assert(roots@[i]@ == x);
                }
            }
            assert forall|x: Seq<char>| string_set(roots@).contains(x) implies string_set(before).insert(c@).contains(x) by {
                let i = choose|i: int| 0 <= i < roots@.len() && roots@[i]@ == x;
                if i < before.len() {
                    assert(before[i]@ == x);
                }
            }
        }
    } else {
        assert(string_set(roots@) =~= string_set(roots@).insert(c@));
    }
}

/// The plan for merging the directory whose direct subdirectories are `children` (their
/// paths relative to it): with `from` globs given, no root yet and one glob per pattern,
/// compiled by `glob_to_regex` with the flag `case_insensitive` (which
/// `paths_case_insensitive` gives for this platform); otherwise each child directory is a
/// root.
pub fn build_merge_plan(from: Option<&Vec<String>>, children: &Vec<String>, case_insensitive: bool) -> (plan: MergePlan)
    ensures
        plan.wf(),
        plan_uses_globs(match from { Some(v) => Some(v@), None => None }) ==> {
            &&& plan.root_set() == Set::<Seq<char>>::empty()
            &&& plan.pattern_sources() == from.unwrap()@.map_values(
                |p: String| glob_regex_source(p@, case_insensitive),
            )
        },
        !plan_uses_globs(match from { Some(v) => Some(v@), None => None }) ==> {
            &&& plan.root_set() == child_roots(children@)
            &&& plan.root_patterns@.len() == 0
        },
{
    match from {
        Some(ps) if ps.len() > 0 => {
            let n = ps.len();
            let mut pats: Vec<GlobRegex> = Vec::new();
            for i in 0..n
                invariant
                    n == ps@.len(),
                    pats@.len() == i,
                    forall|j: int| 0 <= j < i ==> (#[trigger] pats@[j])@ == glob_regex_source(ps@[j]@, case_insensitive),
            {
                pats.push(glob_to_regex(ps[i].as_str(), case_insensitive));
            }
            let plan = MergePlan { roots: Vec::new(), root_patterns: pats };
            assert(plan.root_set() =~= Set::<Seq<char>>::empty());
            assert(plan.pattern_sources() =~= ps@.map_values(|p: String| glob_regex_source(p@, case_insensitive)));
            plan
        },
        _ => {
            let n = children.len();
            let mut roots: Vec<String> = Vec::new();
            for i in 0..n
                invariant
                    n == children@.len(),
                    distinct_strings(roots@),
                    string_set(roots@) == child_roots(children@.take(i as int)),
            {
                let rel = forward_slashes_exec_string(&children[i]);
                let ghost before = string_set(roots@);
                if !rel.as_str().is_empty() {
                    insert_string(&mut roots, rel);
                }
                assert(string_set(roots@) =~= child_roots(children@.take(i + 1))) by {
                    let t = children@.take(i + 1);
                    assert(t[i as int] == children@[i as int]);
                    assert forall|s: Seq<char>| child_roots(t).contains(s) implies string_set(roots@).contains(s) by {
                        let j = choose|j: int| 0 <= j < t.len() && forward_slashes(t[j]@) == s;
                        if j < i {
                            assert(children@.take(i as int)[j] == t[j]);
                            assert(child_roots(children@.take(i as int)).contains(s));
                        }
                    }
                    assert forall|s: Seq<char>| string_set(roots@).contains(s) implies child_roots(t).contains(s) by {
                        if before.contains(s) {
                            let j = choose|j: int| 0 <= j < i && forward_slashes(children@.take(i as int)[j]@) == s;
                            assert(t[j] == children@.take(i as int)[j]);
                        }
                    }
                }
            }
            assert(children@.take(n as int) =~= children@);
            MergePlan { roots, root_patterns: Vec::new() }
        },
    }
}

fn forward_slashes_exec_string(s: &String) -> (r: String)
    ensures
        r@ == forward_slashes(s@),
{
    crate::text::forward_slashes_exec(s.as_str())
}

} // verus!

verus! {

/// One entry met while walking the merged directory: its path relative to that directory
/// and whether it is a directory.
pub struct WalkItem {
    pub rel: String,
    pub is_dir: bool,
}

/// What the merge does for an entry of the walk.
pub enum MergeAction {
    /// Create this directory (relative to the output directory).
    CreateDir(String),
    /// Carry the file of walk entry `entry` to this path (relative to the output directory).
    Transfer { entry: usize, dest: String },
}

/// `MergeAction` as plain values.
pub enum MergeStep {
    CreateDir(Seq<char>),
    Transfer(nat, Seq<char>),
}

impl View for MergeAction {
    type V = MergeStep;

    open spec fn view(&self) -> MergeStep {
        match self {
            MergeAction::CreateDir(d) => MergeStep::CreateDir(d@),
            MergeAction::Transfer { entry, dest } => MergeStep::Transfer(*entry as nat, dest@),
        }
    }
}

/// Whether one of the globs (given by their expressions) matches `rel`.
pub open spec fn matches_some_glob(patterns: Seq<Seq<char>>, rel: Seq<char>) -> bool {
    exists|j: int| 0 <= j < patterns.len() && glob_matches(patterns[j], rel)
}

/// The roots and the actions after walking `items` in order, starting from `roots`: a
/// directory that a glob matches becomes a root; a directory in a root is created at its
/// place under the output; a file in a root is carried to its place under the output; entries
/// with an empty path and entries in no root are passed over.
pub open spec fn merge_walk(
    items: Seq<(Seq<char>, bool)>,
    patterns: Seq<Seq<char>>,
    roots: Set<Seq<char>>,
) -> (Set<Seq<char>>, Seq<MergeStep>)
    decreases items.len(),
{
    if items.len() == 0 {
        (roots, Seq::empty())
    } else {
        let (r0, acts) = merge_walk(items.drop_last(), patterns, roots);
        let i = items.len() - 1;
        let rel = forward_slashes(items.last().0);
        if rel.len() == 0 {
            (r0, acts)
        } else if items.last().1 {
            let r1 = if matches_some_glob(patterns, rel) { r0.insert(rel) } else { r0 };
            match merge_destination(rel, r1) {
                Some(d) => (r1, acts.push(MergeStep::CreateDir(d))),
                None => (r1, acts),
            }
        } else {
            match merge_destination(rel, r0) {
                Some(d) => (r0, acts.push(MergeStep::Transfer(i as nat, d))),
                None => (r0, acts),
            }
        }
    }
}

/// The walk entries as plain values.
pub open spec fn walk_view(items: Seq<WalkItem>) -> Seq<(Seq<char>, bool)> {
    items.map_values(|w: WalkItem| (w.rel@, w.is_dir))
}

/// The actions as plain values.
pub open spec fn actions_view(acts: Seq<MergeAction>) -> Seq<MergeStep> {
    acts.map_values(|a: MergeAction| a@)
}

impl MergePlan {
    /// Walks `items` in order (a directory before what it holds): adds the directories that a
    /// root glob matches to the roots, and returns, in walk order, the directories to create
    /// and the files to carry, each at its path past its deepest root.
    pub fn collect(&mut self, items: &Vec<WalkItem>) -> (acts: Vec<MergeAction>)
        requires
            old(self).wf(),
        ensures
            final(self).wf(),
            final(self).root_patterns@ == old(self).root_patterns@,
            (final(self).root_set(), actions_view(acts@)) == merge_walk(
                walk_view(items@),
                old(self).pattern_sources(),
                old(self).root_set(),
            ),
    {
        let n = items.len();
        let ghost iv = walk_view(items@);
        let ghost pats = self.pattern_sources();
        // The paths with `\` written as `/`, and whether some glob matches each.
        let mut rels: Vec<String> = Vec::new();
        for i in 0..n
            invariant
                n == items@.len(),
                rels@.len() == i,
                forall|j: int| 0 <= j < i ==> (#[trigger] rels@[j])@ == forward_slashes(items@[j].rel@),
        {
            rels.push(forward_slashes_exec_string(&items[i].rel));
        }
        let mut hit: Vec<bool> = Vec::new();
        for i in 0..n
            invariant
                n == rels@.len(),
                hit@.len() == i,
                forall|j: int| 0 <= j < i ==> !(#[trigger] hit@[j]),
        {
            hit.push(false);
        }
        let m = self.root_patterns.len();
        for p in 0..m
            invariant
                n == rels@.len(),
                m == self.root_patterns@.len(),
                pats == self.pattern_sources(),
                self == old(self),
                hit@.len() == n,
                forall|j: int| 0 <= j < n ==> (#[trigger] hit@[j]) == exists|q: int| 0 <= q < p && glob_matches(pats[q], rels@[j]@),
        {
            let found = self.root_patterns[p].matches_each(&rels);
            assert(pats[p as int] == self.root_patterns@[p as int]@);
            let mut next: Vec<bool> = Vec::new();
            for j in 0..n
                invariant
                    n == rels@.len(),
                    hit@.len() == n,
                    found@.len() == n,
                    next@.len() == j,
                    forall|k: int| 0 <= k < j ==> (#[trigger] next@[k]) == (hit@[k] || found@[k]),
            {
                next.push(hit[j] || found[j]);
            }
            proof {
                assert forall|j: int| 0 <= j < n implies (#[trigger] next@[j]) == exists|q: int| 0 <= q < p + 1 && glob_matches(pats[q], rels@[j]@) by {
                    assert(found@[j] == glob_matches(pats[p as int], rels@[j]@));
                    if next@[j] && !hit@[j] {
                        assert(glob_matches(pats[p as int], rels@[j]@));
                    }
                    if exists|q: int| 0 <= q < p + 1 && glob_matches(pats[q], rels@[j]@) {
                        let q = choose|q: int| 0 <= q < p + 1 && glob_matches(pats[q], rels@[j]@);
                        if q < p {
                            assert(hit@[j]);
                        }
                    }
                }
            }
            hit = next;
        }
        let ghost roots0 = self.root_set();
        let mut acts: Vec<MergeAction> = Vec::new();
        assert(iv.take(0) =~= Seq::<(Seq<char>, bool)>::empty());
        for i in 0..n
            invariant
                n == items@.len(),
                n == rels@.len(),
                n == hit@.len(),
                iv == walk_view(items@),
                pats == self.pattern_sources(),
                self.root_patterns@ == old(self).root_patterns@,
                self.wf(),
                forall|j: int| 0 <= j < n ==> (#[trigger] rels@[j])@ == forward_slashes(items@[j].rel@),
                forall|j: int| 0 <= j < n ==> (#[trigger] hit@[j]) == matches_some_glob(pats, rels@[j]@),
                (self.root_set(), actions_view(acts@)) == merge_walk(iv.take(i as int), pats, roots0),
        {
            let ghost pre = iv.take(i as int);
            let ghost next = iv.take(i + 1);
            assert(next.drop_last() =~= pre);
            assert(next.last() == (items@[i as int].rel@, items@[i as int].is_dir));
            let ghost old_acts = acts@;
            let rel = &rels[i];
            if rel.as_str().is_empty() {
            } else if items[i].is_dir {
                if hit[i] {
                    insert_string(&mut self.roots, rel.clone());
                }
                match destination_in_roots(rel.as_str(), &self.roots) {
                    Some(d) => {
                        acts.push(MergeAction::CreateDir(d));
                        assert(actions_view(acts@) =~= actions_view(old_acts).push(acts@[acts@.len() - 1]@));
                    },
                    None => {},
                }
            } else {
                match destination_in_roots(rel.as_str(), &self.roots) {
                    Some(d) => {
                        acts.push(MergeAction::Transfer { entry: i, dest: d });
                        assert(actions_view(acts@) =~= actions_view(old_acts).push(acts@[acts@.len() - 1]@));
                    },
                    None => {},
                }
            }
        }
        assert(iv.take(n as int) =~= iv);
        acts
    }
}

} // verus!

verus! {

/// Why a merge stops before carrying anything.
pub enum MergeError {
    /// No directory was taken as a snapshot.
    NoSnapshots,
    /// The snapshots hold no file.
    NoFiles,
}

/// Number of files that the actions carry.
pub open spec fn transfer_count(acts: Seq<MergeStep>) -> nat
    decreases acts.len(),
{
    if acts.len() == 0 {
        0
    } else {
        transfer_count(acts.drop_last()) + match acts.last() {
            MergeStep::Transfer(_, _) => 1nat,
            MergeStep::CreateDir(_) => 0nat,
        }
    }
}

/// Whether the merge goes on after its walk: it stops when no snapshot was found, then when
/// there is no file to carry.
pub fn check_merge_walk(plan: &MergePlan, acts: &Vec<MergeAction>) -> (r: Result<(), MergeError>)
    ensures
        match r {
            Ok(()) => plan.roots@.len() > 0 && transfer_count(actions_view(acts@)) > 0,
            Err(MergeError::NoSnapshots) => plan.roots@.len() == 0,
            Err(MergeError::NoFiles) => plan.roots@.len() > 0 && transfer_count(actions_view(acts@)) == 0,
        },
{
    if plan.roots.len() == 0 {
        return Err(MergeError::NoSnapshots);
    }
    let n = acts.len();
    let ghost av = actions_view(acts@);
    let mut any = false;
    assert(av.take(0) =~= Seq::<MergeStep>::empty());
    for i in 0..n
        invariant
            n == acts@.len(),
            av == actions_view(acts@),
            any == (transfer_count(av.take(i as int)) > 0),
    {
        assert(av.take(i + 1).drop_last() =~= av.take(i as int));
        match &acts[i] {
            MergeAction::Transfer { .. } => {
                any = true;
            },
            MergeAction::CreateDir(_) => {},
        }
    }
    assert(av.take(n as int) =~= av);
    if any { Ok(()) } else { Err(MergeError::NoFiles) }
}

} // verus!

verus! {

/// The root found for `rel` is the deepest: it is one of the roots, it is the path of the
/// first `k` components of `rel` for some `k`, and no longer such path is a root; when no root
/// is found, none of those paths is a root.
pub proof fn lemma_deepest_root(rel: Seq<char>, roots: Set<Seq<char>>)
    ensures
        match deepest_root(rel, roots) {
            Some(r) => {
                &&& roots.contains(r)
                &&& exists|k: int|
                    1 <= k <= components(rel, false).len() && r == root_key(rel, k) && forall|j: int|
                        k < j <= components(rel, false).len() ==> !roots.contains(#[trigger] root_key(rel, j))
            },
            None => forall|k: int| 1 <= k <= components(rel, false).len() ==> !roots.contains(#[trigger] root_key(rel, k)),
        },
{
    lemma_deepest_root_upto(rel, roots, components(rel, false).len());
}

proof fn lemma_deepest_root_upto(rel: Seq<char>, roots: Set<Seq<char>>, n: nat)
    ensures
        match deepest_root_upto(rel, roots, n) {
            Some(r) => {
                &&& roots.contains(r)
                &&& exists|k: int|
                    1 <= k <= n && r == root_key(rel, k) && forall|j: int|
                        k < j <= n ==> !roots.contains(#[trigger] root_key(rel, j))
            },
            None => forall|k: int| 1 <= k <= n ==> !roots.contains(#[trigger] root_key(rel, k)),
        },
    decreases n,
{
    if n > 0 {
        if roots.contains(root_key(rel, n as int)) {
            assert(forall|j: int| n < j <= n ==> !roots.contains(#[trigger] root_key(rel, j)));
        } else {
            lemma_deepest_root_upto(rel, roots, (n - 1) as nat);
            match deepest_root_upto(rel, roots, (n - 1) as nat) {
                Some(r) => {
                    let k = choose|k: int|
                        1 <= k <= n - 1 && r == root_key(rel, k) && forall|j: int|
                            k < j <= n - 1 ==> !roots.contains(#[trigger] root_key(rel, j));
                    assert forall|j: int| k < j <= n implies !roots.contains(#[trigger] root_key(rel, j)) by {
                        if j < n {
                        }
                    }
                },
                None => {},
            }
        }
    }
}

/// `d` is `rel` past one of `roots` that begins it, leading separators dropped.
pub open spec fn lands_past_root(rel: Seq<char>, d: Seq<char>, roots: Set<Seq<char>>) -> bool {
    exists|r: Seq<char>|
        #[trigger] roots.contains(r) && r.len() <= rel.len() && rel.take(r.len() as int) == r && d
            == trim_leading_slashes(rel.skip(r.len() as int))
}

/// Every file that the merge carries lands at its path past a snapshot root: each transfer
/// names a file entry of the walk (with a non-empty path) and a destination equal to that
/// path, with `\` written as `/`, past one of the final roots that begins it, leading
/// separators dropped; and the roots only grow.
pub proof fn lemma_merge_transfers_land_under_roots(
    items: Seq<(Seq<char>, bool)>,
    patterns: Seq<Seq<char>>,
    roots: Set<Seq<char>>,
)
    ensures
        roots.subset_of(merge_walk(items, patterns, roots).0),
        forall|a: int| 0 <= a < merge_walk(items, patterns, roots).1.len() ==> match #[trigger] merge_walk(items, patterns, roots).1[a] {
            MergeStep::Transfer(i, d) => {
                &&& i < items.len()
                &&& !items[i as int].1
                &&& lands_past_root(forward_slashes(items[i as int].0), d, merge_walk(items, patterns, roots).0)
            },
            MergeStep::CreateDir(_) => true,
        },
    decreases items.len(),
{
    if items.len() > 0 {
        let pre = items.drop_last();
        lemma_merge_transfers_land_under_roots(pre, patterns, roots);
        let (r0, acts) = merge_walk(pre, patterns, roots);
        let (r_fin, acts_fin) = merge_walk(items, patterns, roots);
        let i = items.len() - 1;
        let rel = forward_slashes(items.last().0);
        assert(r0.subset_of(r_fin));
        assert forall|a: int| 0 <= a < acts_fin.len() implies match #[trigger] acts_fin[a] {
            MergeStep::Transfer(i, d) => {
                &&& i < items.len()
                &&& !items[i as int].1
                &&& lands_past_root(forward_slashes(items[i as int].0), d, r_fin)
            },
            MergeStep::CreateDir(_) => true,
        } by {
            if a < acts.len() {
                assert(acts_fin[a] == acts[a]);
                match acts[a] {
                    MergeStep::Transfer(j, d) => {
                        assert(pre[j as int] == items[j as int]);
                        let relj = forward_slashes(pre[j as int].0);
                        let r = choose|r: Seq<char>| #[trigger] r0.contains(r) && r.len() <= relj.len()
                            && relj.take(r.len() as int) == r && d == trim_leading_slashes(relj.skip(r.len() as int));
                        assert(r_fin.contains(r));
                    },
                    MergeStep::CreateDir(_) => {},
                }
            } else {
                // The step added for the last entry.
                if !items.last().1 && rel.len() > 0 {
                    match deepest_root(rel, r0) {
                        Some(r) => {
                            lemma_deepest_root(rel, r0);
                            assert(r_fin.contains(r));
                        },
                        None => {},
                    }
                }
            }
        }
    }
}

/// Every directory that the merge creates lands at its path past a snapshot root, as files
/// do: each creation comes from a directory entry of the walk whose path (with `\` written
/// as `/`) begins with one of the final roots, and names that path past the root, leading
/// separators dropped; so a snapshot root itself is created as the output directory (`""`).
pub proof fn lemma_merge_dirs_land_under_roots(
    items: Seq<(Seq<char>, bool)>,
    patterns: Seq<Seq<char>>,
    roots: Set<Seq<char>>,
)
    ensures
        forall|a: int| 0 <= a < merge_walk(items, patterns, roots).1.len() ==> match #[trigger] merge_walk(items, patterns, roots).1[a] {
            MergeStep::CreateDir(d) => exists|i: int|
                0 <= i < items.len() && items[i].1 && lands_past_root(
                    forward_slashes(#[trigger] items[i].0),
                    d,
                    merge_walk(items, patterns, roots).0,
                ),
            MergeStep::Transfer(_, _) => true,
        },
    decreases items.len(),
{
    if items.len() > 0 {
        let pre = items.drop_last();
        lemma_merge_dirs_land_under_roots(pre, patterns, roots);
        lemma_merge_transfers_land_under_roots(items, patterns, roots);
        lemma_merge_transfers_land_under_roots(pre, patterns, roots);
        let (r0, acts) = merge_walk(pre, patterns, roots);
        let (r_fin, acts_fin) = merge_walk(items, patterns, roots);
        let rel = forward_slashes(items.last().0);
        assert(r0.subset_of(r_fin)) by {
            if rel.len() > 0 && items.last().1 {
                assert forall|x: Seq<char>| r0.contains(x) implies r_fin.contains(x) by {}
            }
        }
        assert forall|a: int| 0 <= a < acts_fin.len() implies match #[trigger] acts_fin[a] {
            MergeStep::CreateDir(d) => exists|i: int|
                0 <= i < items.len() && items[i].1 && lands_past_root(forward_slashes(#[trigger] items[i].0), d, r_fin),
            MergeStep::Transfer(_, _) => true,
        } by {
            if a < acts.len() {
                assert(acts_fin[a] == acts[a]);
                match acts[a] {
                    MergeStep::CreateDir(d) => {
                        let i = choose|i: int|
                            0 <= i < pre.len() && pre[i].1 && lands_past_root(forward_slashes(#[trigger] pre[i].0), d, r0);
                        assert(pre[i] == items[i]);
                        let relj = forward_slashes(pre[i].0);
                        let r = choose|r: Seq<char>| #[trigger] r0.contains(r) && r.len() <= relj.len()
                            && relj.take(r.len() as int) == r && d == trim_leading_slashes(relj.skip(r.len() as int));
                        assert(r_fin.contains(r));
                        assert(lands_past_root(forward_slashes(items[i].0), d, r_fin));
                    },
                    MergeStep::Transfer(_, _) => {},
                }
            } else {
                let i = items.len() - 1;
                if items.last().1 && rel.len() > 0 {
                    match deepest_root(rel, r_fin) {
                        Some(r) => {
                            lemma_deepest_root(rel, r_fin);
                            assert(items[i].0 == items.last().0);
                            assert(lands_past_root(forward_slashes(items[i].0), acts_fin[a]->CreateDir_0, r_fin));
                        },
                        None => {},
                    }
                }
            }
        }
    }
}

} // verus!

verus! {

impl MergeError {
    /// The message for the merge of `directory` that stopped.
    pub fn message(&self, directory: &str) -> (r: String)
        ensures
            r@ == match self {
                MergeError::NoSnapshots => "Не найдено ни одного снимка для слияния в директории: "@ + directory@,
                MergeError::NoFiles => "Нет доступных файлов для обработки в директории: "@ + directory@,
            },
    {
        match self {
            MergeError::NoSnapshots => crate::text::concat("Не найдено ни одного снимка для слияния в директории: ", directory),
            MergeError::NoFiles => crate::text::concat("Нет доступных файлов для обработки в директории: ", directory),
        }
    }
}

} // verus!
