//! The tree view of a directory: one line per entry, drawn with box characters, with the
//! first lines of each file when asked.

use vstd::prelude::*;
use crate::paths::{components, parent_chars, parent_of, same_path};
use crate::text::{chars_of, extend_chars, string_of, text_lines, text_lines_exec};

verus! {

/// An entry found under the directory: its path, its name, whether it is a file, and the
/// text of the file when it is shown and could be read.
pub struct TreeEntry {
    pub path: String,
    pub name: String,
    pub is_file: bool,
    pub content: Option<String>,
}

/// The entry as plain values.
pub struct TreeEntryView {
    pub path: Seq<char>,
    pub name: Seq<char>,
    pub is_file: bool,
    pub content: Option<Seq<char>>,
}

impl View for TreeEntry {
    type V = TreeEntryView;

    open spec fn view(&self) -> TreeEntryView {
        TreeEntryView {
            path: self.path@,
            name: self.name@,
            is_file: self.is_file,
            content: match self.content {
                Some(c) => Some(c@),
                None => None,
            },
        }
    }
}

/// How the tree is drawn.
#[derive(Clone, Copy)]
pub struct TreeConfig {
    /// Show the first lines of each file.
    pub show_content: bool,
    /// Show all the lines of each file rather than the first five.
    pub full_content: bool,
    /// How deep to go (0: no limit).
    pub max_depth: usize,
    /// Read paths under Windows rules.
    pub windows: bool,
}

/// The entries as plain values.
pub open spec fn entries_view(es: Seq<TreeEntry>) -> Seq<TreeEntryView> {
    es.map_values(|e: TreeEntry| e@)
}

/// Whether the entry at `path` lies directly in `dir` (its parent is the same path as `dir`).
pub open spec fn is_child(path: Seq<char>, dir: Seq<char>, w: bool) -> bool {
    match parent_of(path, w) {
        Some(q) => components(q, w) == components(dir, w),
        None => false,
    }
}

/// Whether no entry after the `j`-th lies directly in `dir`.
pub open spec fn is_last_child(es: Seq<TreeEntryView>, dir: Seq<char>, j: int, w: bool) -> bool {
    forall|k: int| j < k < es.len() ==> !is_child(#[trigger] es[k].path, dir, w)
}

/// The branch drawn before an entry, and the continuation drawn below it, given whether the
/// level above was the last of its own level.
pub open spec fn branch(is_last: bool) -> (Seq<char>, Seq<char>) {
    if is_last {
        ("└── "@, "    "@)
    } else {
        ("├── "@, "│   "@)
    }
}

/// The lines of a file's text shown under it: all of them or the first five, each after the
/// bar; `...` when some were left out.
pub open spec fn content_lines(text: Seq<char>, indent: Seq<char>, full: bool) -> Seq<Seq<char>> {
    let ls = text_lines(text);
    let shown = if full || ls.len() <= 5 { ls } else { ls.take(5) };
    shown.map_values(|l: Seq<char>| indent + "│ "@ + l) + if !full && ls.len() > 5 {
        seq![indent + "│ ..."@]
    } else {
        Seq::empty()
    }
}

/// The lines for the entries directly in `dir`, drawn at `prefix`, at depth `depth`
/// (nothing past `cfg.max_depth` when it is set); `fuel` bounds how deep the drawing goes.
pub open spec fn tree_lines(
    es: Seq<TreeEntryView>,
    dir: Seq<char>,
    prefix: Seq<char>,
    is_last: bool,
    depth: nat,
    cfg: TreeConfig,
    fuel: nat,
) -> Seq<Seq<char>>
    decreases fuel, es.len() + 1,
{
    if fuel == 0 || (cfg.max_depth > 0 && depth > cfg.max_depth) {
        Seq::empty()
    } else {
        child_blocks(es, dir, prefix, is_last, depth, cfg, fuel, es.len())
    }
}

/// The lines for the entries among the first `j` that lie directly in `dir`.
pub open spec fn child_blocks(
    es: Seq<TreeEntryView>,
    dir: Seq<char>,
    prefix: Seq<char>,
    is_last: bool,
    depth: nat,
    cfg: TreeConfig,
    fuel: nat,
    j: nat,
) -> Seq<Seq<char>>
    decreases fuel, j,
{
    if j == 0 || j > es.len() {
        Seq::empty()
    } else {
        child_blocks(es, dir, prefix, is_last, depth, cfg, fuel, (j - 1) as nat) + if is_child(
            es[j - 1].path,
            dir,
            cfg.windows,
        ) {
            entry_block(es, dir, prefix, is_last, depth, cfg, fuel, (j - 1) as nat)
        } else {
            Seq::empty()
        }
    }
}

/// The lines for the `j`-th entry: its own line (with `/` after a directory), then the lines
/// of a file's text, or the lines for what a directory holds.
pub open spec fn entry_block(
    es: Seq<TreeEntryView>,
    dir: Seq<char>,
    prefix: Seq<char>,
    is_last: bool,
    depth: nat,
    cfg: TreeConfig,
    fuel: nat,
    j: nat,
) -> Seq<Seq<char>>
    decreases fuel, j,
{
    if fuel == 0 || j >= es.len() {
        Seq::empty()
    } else {
        let e = es[j as int];
        let (cur, next) = branch(is_last);
        if e.is_file {
            seq![prefix + cur + e.name] + match e.content {
                Some(text) => if cfg.show_content {
                    content_lines(text, prefix + next, cfg.full_content)
                } else {
                    Seq::empty()
                },
                None => Seq::empty(),
            }
        } else {
            seq![prefix + cur + e.name + "/"@] + tree_lines(
                es,
                e.path,
                prefix + next,
                is_last_child(es, dir, j as int, cfg.windows),
                depth + 1,
                cfg,
                (fuel - 1) as nat,
            )
        }
    }
}

} // verus!

verus! {

/// The text of each string.
pub open spec fn strings_view(v: Seq<String>) -> Seq<Seq<char>> {
    v.map_values(|s: String| s@)
}

/// Appends the strings of `src` to `dst`.
fn append_strings(dst: &mut Vec<String>, src: Vec<String>)
    ensures
        strings_view(final(dst)@) == strings_view(old(dst)@) + strings_view(src@),
{
    let n = src.len();
    let ghost s0 = strings_view(src@);
    let ghost d0 = strings_view(dst@);
    for k in 0..n
        invariant
            n == src@.len(),
            s0 == strings_view(src@),
            strings_view(dst@) == d0 + s0.take(k as int),
    {
        let ghost before = dst@;
        dst.push(src[k].clone());
        assert(dst@ == before.push(src@[k as int]));
        assert(s0[k as int] == src@[k as int]@);
        assert(s0.take(k + 1) =~= s0.take(k as int).push(s0[k as int]));
        assert(strings_view(dst@) =~= strings_view(before).push(src@[k as int]@));
    }
    assert(s0.take(n as int) =~= s0);
}

fn concat_chars(a: &Vec<char>, b: &Vec<char>) -> (r: Vec<char>)
    ensures
        r@ == a@ + b@,
{
    let mut r = a.clone();
    extend_chars(&mut r, b);
    r
}

/// The lines of a file's text shown under it.
fn content_lines_exec(text: &str, indent: &Vec<char>, full: bool) -> (r: Vec<String>)
    ensures
        strings_view(r@) == content_lines(text@, indent@, full),
{
    let ls = text_lines_exec(text);
    let ghost lv = text_lines(text@);
    assert(strings_view(ls@) == lv);
    let n = ls.len();
    let shown_n = if full || n <= 5 { n } else { 5 };
    let bar = concat_chars(indent, &chars_of("│ "));
    let mut out: Vec<String> = Vec::new();
    let ghost shown = if full || lv.len() <= 5 { lv } else { lv.take(5) };
    assert(shown.len() == shown_n);
    for i in 0..shown_n
        invariant
            shown_n <= n,
            n == ls@.len(),
            strings_view(ls@) == lv,
            shown.len() == shown_n,
            forall|k: int| 0 <= k < shown_n ==> shown[k] == lv[k],
            bar@ == indent@ + "│ "@,
            strings_view(out@) == shown.take(i as int).map_values(|l: Seq<char>| indent@ + "│ "@ + l),
    {
        let line = concat_chars(&bar, &chars_of(ls[i].as_str()));
        assert(ls@[i as int]@ == lv[i as int]);
        let ghost before = out@;
        let s = string_of(line.as_slice());
        assert(s@ == indent@ + "│ "@ + shown[i as int]);
        out.push(s);
        assert(out@ == before.push(s));
        assert(strings_view(out@) =~= strings_view(before).push(s@));
        assert(shown.take(i + 1) =~= shown.take(i as int).push(shown[i as int]));
        assert(shown.take(i + 1).map_values(|l: Seq<char>| indent@ + "│ "@ + l) =~= shown.take(i as int).map_values(|l: Seq<char>| indent@ + "│ "@ + l).push(indent@ + "│ "@ + shown[i as int]));
    }
    assert(shown.take(shown_n as int) =~= shown);
    if !full && n > 5 {
        let more = concat_chars(indent, &chars_of("│ ..."));
        let ghost before = strings_view(out@);
        out.push(string_of(more.as_slice()));
        assert(strings_view(out@) =~= before + seq![indent@ + "│ ..."@]);
    } else {
        assert(strings_view(out@) =~= strings_view(out@) + Seq::<Seq<char>>::empty());
    }
    out
}

/// Whether the entry at `path` lies directly in `dir`.
fn is_child_exec(path: &str, dir: &Vec<char>, w: bool) -> (b: bool)
    ensures
        b == is_child(path@, dir@, w),
{
    match parent_chars(&chars_of(path), w) {
        Some(q) => same_path(&q, dir, w),
        None => false,
    }
}

/// The lines for the entries directly in `dir`.
fn tree_lines_exec(
    es: &Vec<TreeEntry>,
    dir: &Vec<char>,
    prefix: &Vec<char>,
    is_last: bool,
    depth: usize,
    cfg: TreeConfig,
    fuel: usize,
) -> (r: Vec<String>)
    requires
        depth + fuel <= usize::MAX,
    ensures
        strings_view(r@) == tree_lines(entries_view(es@), dir@, prefix@, is_last, depth as nat, cfg, fuel as nat),
    decreases fuel, 1nat,
{
    let ghost ev = entries_view(es@);
    if fuel == 0 || (cfg.max_depth > 0 && depth > cfg.max_depth) {
        let r: Vec<String> = Vec::new();
        assert(strings_view(r@) =~= Seq::<Seq<char>>::empty());
        return r;
    }
    let n = es.len();
    // Which entries lie directly in `dir`, and the last of them.
    let mut flags: Vec<bool> = Vec::new();
    let mut last: usize = n;
    for j in 0..n
        invariant
            n == es@.len(),
            ev == entries_view(es@),
            flags@.len() == j,
            forall|k: int| 0 <= k < j ==> (#[trigger] flags@[k]) == is_child(ev[k].path, dir@, cfg.windows),
            last == n || (last < j && flags@[last as int]),
            forall|k: int| 0 <= k < j && flags@[k] ==> k <= last || last == n,
            last == n ==> forall|k: int| 0 <= k < j ==> !flags@[k],
    {
        assert(ev[j as int] == es@[j as int]@);
        let f = is_child_exec(es[j].path.as_str(), dir, cfg.windows);
        flags.push(f);
        if f {
            last = j;
        }
    }
    let mut out: Vec<String> = Vec::new();
    assert(strings_view(out@) =~= Seq::<Seq<char>>::empty());
    for j in 0..n
        invariant
            n == es@.len(),
            n == flags@.len(),
            ev == entries_view(es@),
            fuel > 0,
            depth + fuel <= usize::MAX,
            forall|k: int| 0 <= k < n ==> (#[trigger] flags@[k]) == is_child(ev[k].path, dir@, cfg.windows),
            last == n || (last < n && flags@[last as int]),
            forall|k: int| 0 <= k < n && flags@[k] ==> k <= last || last == n,
            last == n ==> forall|k: int| 0 <= k < n ==> !flags@[k],
            strings_view(out@) == child_blocks(ev, dir@, prefix@, is_last, depth as nat, cfg, fuel as nat, j as nat),
    {
        if flags[j] {
            proof {
                if last == n {
                    assert(!flags@[j as int]);
                }
                assert(j <= last);
                assert((j == last) <==> is_last_child(ev, dir@, j as int, cfg.windows)) by {
                    if j == last {
                        assert forall|k: int| j < k < ev.len() implies !is_child(#[trigger] ev[k].path, dir@, cfg.windows) by {
                            assert(flags@[k] == is_child(ev[k].path, dir@, cfg.windows));
                        }
                    } else {
                        assert(flags@[last as int] == is_child(ev[last as int].path, dir@, cfg.windows));
                    }
                }
            }
            let block = entry_block_exec(es, dir, prefix, is_last, depth, cfg, fuel, j, j == last);
            append_strings(&mut out, block);
        }
    }
    out
}

/// The lines for the `j`-th entry.
fn entry_block_exec(
    es: &Vec<TreeEntry>,
    dir: &Vec<char>,
    prefix: &Vec<char>,
    is_last: bool,
    depth: usize,
    cfg: TreeConfig,
    fuel: usize,
    j: usize,
    last_child: bool,
) -> (r: Vec<String>)
    requires
        depth + fuel <= usize::MAX,
        fuel > 0,
        j < es@.len(),
        last_child == is_last_child(entries_view(es@), dir@, j as int, cfg.windows),
    ensures
        strings_view(r@) == entry_block(entries_view(es@), dir@, prefix@, is_last, depth as nat, cfg, fuel as nat, j as nat),
    decreases fuel, 0nat,
{
    let ghost ev = entries_view(es@);
    assert(ev[j as int] == es@[j as int]@);
    let e = &es[j];
    let (cur, next) = if is_last { ("└── ", "    ") } else { ("├── ", "│   ") };
    let line = concat_chars(&concat_chars(prefix, &chars_of(cur)), &chars_of(e.name.as_str()));
    let indent = concat_chars(prefix, &chars_of(next));
    if e.is_file {
        let mut out: Vec<String> = Vec::new();
        out.push(string_of(line.as_slice()));
        let ghost first = strings_view(out@);
        assert(first =~= seq![prefix@ + cur@ + e.name@]);
        match &e.content {
            Some(text) => {
                if cfg.show_content {
                    let more = content_lines_exec(text.as_str(), &indent, cfg.full_content);
                    append_strings(&mut out, more);
                } else {
                    assert(strings_view(out@) =~= first + Seq::<Seq<char>>::empty());
                }
            },
            None => {
                assert(strings_view(out@) =~= first + Seq::<Seq<char>>::empty());
            },
        }
        out
    } else {
        let mut out: Vec<String> = Vec::new();
        let dline = concat_chars(&line, &chars_of("/"));
        out.push(string_of(dline.as_slice()));
        assert(strings_view(out@) =~= seq![prefix@ + cur@ + e.name@ + "/"@]);
        let sub = tree_lines_exec(es, &chars_of(e.path.as_str()), &indent, last_child, depth + 1, cfg, fuel - 1);
        append_strings(&mut out, sub);
        out
    }
}

/// Whether the entry named `name` is shown: always when hidden entries are shown; otherwise
/// unless its name (when it is valid Unicode, `name_is_text`) starts with `.`.
pub open spec fn shown_entry(name: Seq<char>, name_is_text: bool, show_hidden: bool) -> bool {
    show_hidden || !(name_is_text && name.len() > 0 && name[0] == '.')
}

/// Whether the entry named `name` is shown.
pub fn is_shown(name: &str, name_is_text: bool, show_hidden: bool) -> (b: bool)
    ensures
        b == shown_entry(name@, name_is_text, show_hidden),
{
    if show_hidden {
        return true;
    }
    let c = chars_of(name);
    !(name_is_text && c.len() > 0 && c[0] == '.')
}

/// The whole tree of `directory`: its own path on the first line, then the lines for the
/// entries in it (at most as deep as there are entries).
pub open spec fn tree_text(directory: Seq<char>, es: Seq<TreeEntryView>, cfg: TreeConfig) -> Seq<Seq<char>> {
    seq![directory] + tree_lines(es, directory, Seq::empty(), true, 1, cfg, es.len())
}

/// The lines that draw the tree of `directory` from the entries found under it.
pub fn render_tree(directory: &str, entries: &Vec<TreeEntry>, cfg: TreeConfig) -> (r: Vec<String>)
    requires
        entries@.len() < usize::MAX,
    ensures
        strings_view(r@) == tree_text(directory@, entries_view(entries@), cfg),
{
    let mut out: Vec<String> = Vec::new();
    out.push(crate::text::owned(directory));
    let ghost first = strings_view(out@);
    assert(first =~= seq![directory@]);
    let empty: Vec<char> = Vec::new();
    let body = tree_lines_exec(entries, &chars_of(directory), &empty, true, 1, cfg, entries.len());
    append_strings(&mut out, body);
    assert(empty@ =~= Seq::<char>::empty());
    out
}

} // verus!

verus! {

/// A file's text is shown whole when asked for; otherwise at most its first five lines and,
/// when some were left out, a last `...` line.
pub proof fn lemma_content_lines_count(text: Seq<char>, indent: Seq<char>, full: bool)
    ensures
        full ==> content_lines(text, indent, full).len() == text_lines(text).len(),
        !full ==> content_lines(text, indent, full).len() <= 6,
        !full && text_lines(text).len() > 5 ==> content_lines(text, indent, full).last() == indent + "│ ..."@,
{
    let ls = text_lines(text);
    let shown = if full || ls.len() <= 5 { ls } else { ls.take(5) };
    let body = shown.map_values(|l: Seq<char>| indent + "│ "@ + l);
    assert(body.len() == shown.len());
}

} // verus!

verus! {

/// Whether the line `s` begins with `pre`.
pub open spec fn starts_with(s: Seq<char>, pre: Seq<char>) -> bool {
    pre.len() <= s.len() && s.take(pre.len() as int) == pre
}

proof fn lemma_starts_with_longer(s: Seq<char>, pre: Seq<char>, more: Seq<char>)
    requires
        starts_with(s, pre + more),
    ensures
        starts_with(s, pre),
{
    let k = (pre + more).len() as int;
    assert(s.take(pre.len() as int) =~= s.take(k).take(pre.len() as int));
    assert((pre + more).take(pre.len() as int) =~= pre);
}

proof fn lemma_starts_with_concat(pre: Seq<char>, rest: Seq<char>)
    ensures
        starts_with(pre + rest, pre),
{
    assert((pre + rest).take(pre.len() as int) =~= pre);
}

/// Every line drawn for the entries in `dir` starts with `prefix`.
proof fn lemma_tree_lines_start(
    es: Seq<TreeEntryView>,
    dir: Seq<char>,
    prefix: Seq<char>,
    is_last: bool,
    depth: nat,
    cfg: TreeConfig,
    fuel: nat,
)
    ensures
        forall|i: int|
            0 <= i < tree_lines(es, dir, prefix, is_last, depth, cfg, fuel).len() ==> starts_with(
                #[trigger] tree_lines(es, dir, prefix, is_last, depth, cfg, fuel)[i],
                prefix,
            ),
    decreases fuel, es.len() + 1,
{
    if !(fuel == 0 || (cfg.max_depth > 0 && depth > cfg.max_depth)) {
        lemma_child_blocks_start(es, dir, prefix, is_last, depth, cfg, fuel, es.len());
        assert(tree_lines(es, dir, prefix, is_last, depth, cfg, fuel) == child_blocks(
            es,
            dir,
            prefix,
            is_last,
            depth,
            cfg,
            fuel,
            es.len(),
        ));
    }
}

/// Every line drawn for the first `j` entries in `dir` starts with `prefix`.
proof fn lemma_child_blocks_start(
    es: Seq<TreeEntryView>,
    dir: Seq<char>,
    prefix: Seq<char>,
    is_last: bool,
    depth: nat,
    cfg: TreeConfig,
    fuel: nat,
    j: nat,
)
    requires
        j <= es.len(),
    ensures
        forall|i: int|
            0 <= i < child_blocks(es, dir, prefix, is_last, depth, cfg, fuel, j).len() ==> starts_with(
                #[trigger] child_blocks(es, dir, prefix, is_last, depth, cfg, fuel, j)[i],
                prefix,
            ),
    decreases fuel, j,
{
    if j > 0 {
        lemma_child_blocks_start(es, dir, prefix, is_last, depth, cfg, fuel, (j - 1) as nat);
        lemma_entry_lines_hang_below(es, dir, prefix, is_last, depth, cfg, fuel, (j - 1) as nat);
        let a = child_blocks(es, dir, prefix, is_last, depth, cfg, fuel, (j - 1) as nat);
        let b = if is_child(es[j - 1].path, dir, cfg.windows) {
            entry_block(es, dir, prefix, is_last, depth, cfg, fuel, (j - 1) as nat)
        } else {
            Seq::empty()
        };
        let all = child_blocks(es, dir, prefix, is_last, depth, cfg, fuel, j);
        assert(all == a + b);
        assert forall|i: int| 0 <= i < all.len() implies starts_with(#[trigger] all[i], prefix) by {
            if i < a.len() {
                assert(all[i] == a[i]);
            } else {
                assert(all[i] == b[i - a.len()]);
            }
        }
    }
}

/// The lines drawn for an entry hang below it: each starts with the entry's prefix, and each
/// line below the entry's own (a file's shown lines, or the lines for what a directory
/// holds) starts with that prefix followed by the continuation of the entry's branch:
/// `│   ` under an entry that is not the last of its level, four spaces under the last.
pub proof fn lemma_entry_lines_hang_below(
    es: Seq<TreeEntryView>,
    dir: Seq<char>,
    prefix: Seq<char>,
    is_last: bool,
    depth: nat,
    cfg: TreeConfig,
    fuel: nat,
    j: nat,
)
    ensures
        forall|i: int|
            0 <= i < entry_block(es, dir, prefix, is_last, depth, cfg, fuel, j).len() ==> starts_with(
                #[trigger] entry_block(es, dir, prefix, is_last, depth, cfg, fuel, j)[i],
                prefix,
            ),
        forall|i: int|
            1 <= i < entry_block(es, dir, prefix, is_last, depth, cfg, fuel, j).len() ==> starts_with(
                #[trigger] entry_block(es, dir, prefix, is_last, depth, cfg, fuel, j)[i],
                prefix + branch(is_last).1,
            ),
    decreases fuel, j,
{
    let lines = entry_block(es, dir, prefix, is_last, depth, cfg, fuel, j);
    if !(fuel == 0 || j >= es.len()) {
        let e = es[j as int];
        let (cur, next) = branch(is_last);
        let indent = prefix + next;
        let first: Seq<char> = if e.is_file { prefix + cur + e.name } else { prefix + cur + e.name + "/"@ };
        assert(lines[0] == first);
        lemma_starts_with_concat(prefix, if e.is_file { cur + e.name } else { cur + e.name + "/"@ });
        assert(first =~= prefix + (if e.is_file { cur + e.name } else { cur + e.name + "/"@ }));
        // The lines below the first.
        let below: Seq<Seq<char>> = lines.drop_first();
        if e.is_file {
            let shown: Seq<Seq<char>> = match e.content {
                Some(text) => if cfg.show_content {
                    content_lines(text, indent, cfg.full_content)
                } else {
                    Seq::empty()
                },
                None => Seq::empty(),
            };
            assert(lines == seq![first] + shown);
            assert(below =~= shown);
            match e.content {
                Some(text) => if cfg.show_content {
                    let ls = text_lines(text);
                    let full = cfg.full_content;
                    let kept = if full || ls.len() <= 5 { ls } else { ls.take(5) };
                    let body = kept.map_values(|l: Seq<char>| indent + "│ "@ + l);
                    let tail: Seq<Seq<char>> = if !full && ls.len() > 5 { seq![indent + "│ ..."@] } else { Seq::empty() };
                    assert(shown == body + tail);
                    assert forall|k: int| 0 <= k < shown.len() implies starts_with(#[trigger] shown[k], indent) by {
                        if k < body.len() {
                            assert(shown[k] == indent + "│ "@ + kept[k]);
                            assert(shown[k] =~= indent + ("│ "@ + kept[k]));
                            lemma_starts_with_concat(indent, "│ "@ + kept[k]);
                        } else {
                            assert(shown[k] == indent + "│ ..."@);
                            lemma_starts_with_concat(indent, "│ ..."@);
                        }
                    }
                },
                None => {},
            }
        } else {
            let sub = tree_lines(es, e.path, indent, is_last_child(es, dir, j as int, cfg.windows), depth + 1, cfg, (fuel - 1) as nat);
            lemma_tree_lines_start(es, e.path, indent, is_last_child(es, dir, j as int, cfg.windows), depth + 1, cfg, (fuel - 1) as nat);
            assert(lines == seq![first] + sub);
            assert(below =~= sub);
        }
        assert forall|i: int| 1 <= i < lines.len() implies starts_with(#[trigger] lines[i], prefix + branch(is_last).1) by {
            assert(lines[i] == below[i - 1]);
        }
        assert forall|i: int| 0 <= i < lines.len() implies starts_with(#[trigger] lines[i], prefix) by {
            if i >= 1 {
                assert(lines[i] == below[i - 1]);
                lemma_starts_with_longer(lines[i], prefix, next);
            }
        }
    }
}

} // verus!
