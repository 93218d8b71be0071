//! Search: which entries a search reports, and how a report is written.

use vstd::prelude::*;
use crate::args::FindMode;
use crate::glob::{regex_match_result, CompiledRegex};
use crate::paths::{file_name_chars, file_name_of, parent_chars, parent_of};
use crate::text::{
    chars_of, contains, contains_chars, count_matches, decimal, decimal_chars, occurs_more_than_once,
    string_of,
};

verus! {

/// One entry that a search reports: its path and, for a search in contents, the number of
/// the first matching line (counted from 1) and that line.
pub struct SearchResult {
    pub path: String,
    pub line_number: Option<usize>,
    pub matched_content: Option<String>,
}

/// A regular expression that compiles, for searching lines.
pub struct FindRegex {
    compiled: CompiledRegex,
}

impl View for FindRegex {
    type V = Seq<char>;

    closed spec fn view(&self) -> Seq<char> {
        self.compiled@
    }
}

impl FindRegex {
    /// The expression `pattern`, when it compiles.
    pub fn new(pattern: &str) -> (r: Option<FindRegex>)
        ensures
            match r {
                Some(re) => re@ == pattern@ && forall|h: Seq<char>| #[trigger] regex_match_result(pattern@, h) is Some,
                None => forall|h: Seq<char>| #[trigger] regex_match_result(pattern@, h) is None,
            },
    {
        match CompiledRegex::new(pattern) {
            Some(c) => Some(FindRegex { compiled: c }),
            None => None,
        }
    }
}

/// The lines of a file as read: `None` for a line that could not be read.
pub open spec fn lines_view(lines: Seq<Option<String>>) -> Seq<Option<Seq<char>>> {
    lines.map_values(|l: Option<String>| match l {
        Some(s) => Some(s@),
        None => None,
    })
}

/// The first line (index and text) that was read and satisfies `pred`.
pub open spec fn first_line_where(
    lines: Seq<Option<Seq<char>>>,
    pred: spec_fn(Seq<char>) -> bool,
) -> Option<(int, Seq<char>)>
    decreases lines.len(),
{
    if lines.len() == 0 {
        None
    } else {
        match first_line_where(lines.drop_last(), pred) {
            Some(r) => Some(r),
            None => match lines.last() {
                Some(c) => if pred(c) {
                    Some((lines.len() - 1, c))
                } else {
                    None
                },
                None => None,
            },
        }
    }
}

/// The first line that contains `pattern`, numbered from 1.
pub fn first_line_containing(lines: &Vec<Option<String>>, pattern: &str) -> (r: Option<(usize, String)>)
    ensures
        match r {
            Some((n, c)) => first_line_where(lines_view(lines@), |c: Seq<char>| contains(c, pattern@))
                == Some((n - 1, c@)),
            None => first_line_where(lines_view(lines@), |c: Seq<char>| contains(c, pattern@)) is None,
        },
{
    let p = chars_of(pattern);
    let n = lines.len();
    let ghost lv = lines_view(lines@);
    let ghost pred = |c: Seq<char>| contains(c, pattern@);
    assert(lv.take(0) =~= Seq::<Option<Seq<char>>>::empty());
    for i in 0..n
        invariant
            n == lines@.len(),
            lv == lines_view(lines@),
            p@ == pattern@,
            pred == (|c: Seq<char>| contains(c, pattern@)),
            first_line_where(lv.take(i as int), pred) is None,
    {
        assert(lv.take(i + 1).drop_last() =~= lv.take(i as int));
        match &lines[i] {
            Some(c) => {
                if contains_chars(&chars_of(c.as_str()), &p) {
                    proof { lemma_first_line_prefix(lv, pred, i as int); }
                    return Some((i + 1, c.clone()));
                }
            },
            None => {},
        }
    }
    assert(lv.take(n as int) =~= lv);
    None
}

/// Once found within the first `i + 1` lines, the first line is found at `i` in all of them.
proof fn lemma_first_line_prefix(lines: Seq<Option<Seq<char>>>, pred: spec_fn(Seq<char>) -> bool, i: int)
    requires
        0 <= i < lines.len(),
        first_line_where(lines.take(i), pred) is None,
        lines[i] matches Some(c) && pred(c),
    ensures
        first_line_where(lines, pred) == Some((i, lines[i]->0)),
    decreases lines.len(),
{
    assert(lines.take(i + 1).drop_last() =~= lines.take(i));
    if lines.len() > i + 1 {
        assert(lines.drop_last().take(i) =~= lines.take(i));
        lemma_first_line_prefix(lines.drop_last(), pred, i);
    } else {
        assert(lines.take(i + 1) =~= lines);
    }
}

/// The first line that `regex` matches, numbered from 1.
pub fn first_line_matching(lines: &Vec<Option<String>>, regex: &FindRegex) -> (r: Option<(usize, String)>)
    ensures
        match r {
            Some((n, c)) => first_line_where(lines_view(lines@), |c: Seq<char>| regex_match_result(regex@, c) == Some(true))
                == Some((n - 1, c@)),
            None => first_line_where(lines_view(lines@), |c: Seq<char>| regex_match_result(regex@, c) == Some(true)) is None,
        },
{
    let n = lines.len();
    let ghost lv = lines_view(lines@);
    let ghost pred = |c: Seq<char>| regex_match_result(regex@, c) == Some(true);
    assert(lv.take(0) =~= Seq::<Option<Seq<char>>>::empty());
    for i in 0..n
        invariant
            n == lines@.len(),
            lv == lines_view(lines@),
            pred == (|c: Seq<char>| regex_match_result(regex@, c) == Some(true)),
            first_line_where(lv.take(i as int), pred) is None,
    {
        assert(lv.take(i + 1).drop_last() =~= lv.take(i as int));
        match &lines[i] {
            Some(c) => {
                if regex.compiled.is_match(c.as_str()) {
                    proof { lemma_first_line_prefix(lv, pred, i as int); }
                    return Some((i + 1, c.clone()));
                }
            },
            None => {},
        }
    }
    assert(lv.take(n as int) =~= lv);
    None
}

/// Whether the name of the directory that holds `path` occurs more than once (counting
/// non-overlapping occurrences) in the name of `path`.
pub open spec fn repeats_parent_name(path: Seq<char>, w: bool) -> bool {
    match parent_of(path, w) {
        Some(q) => match file_name_of(q, w) {
            Some(pn) => match file_name_of(path, w) {
                Some(n) => count_matches(n, pn) > 1,
                None => false,
            },
            None => false,
        },
        None => false,
    }
}

/// Whether the name of the directory that holds `path` occurs more than once in its name.
pub fn parent_name_repeated(path: &str, w: bool) -> (b: bool)
    ensures
        b == repeats_parent_name(path@, w),
{
    let p = chars_of(path);
    match parent_chars(&p, w) {
        Some(q) => match file_name_chars(&q, w) {
            Some(pn) => match file_name_chars(&p, w) {
                Some(n) => occurs_more_than_once(&n, &pn),
                None => false,
            },
            None => false,
        },
        None => false,
    }
}

} // verus!

verus! {

/// Why a search cannot start.
pub enum FindError {
    /// The pattern of a regular-expression search does not compile.
    InvalidRegex,
}

/// What a search looks for.
pub enum FindQuery {
    /// Entries whose name contains the text.
    Name(String),
    /// Files with a line that contains the text.
    Content(String),
    /// Files with a line that the expression matches.
    Regex(FindRegex),
    /// Entries whose name holds the name of their directory more than once.
    RepeatedParent,
    /// Nothing (a search by name, content or expression without a pattern).
    Nothing,
}

/// `FindQuery` as plain values (a regular expression by its text).
pub enum QueryView {
    Name(Seq<char>),
    Content(Seq<char>),
    Regex(Seq<char>),
    RepeatedParent,
    Nothing,
}

impl View for FindQuery {
    type V = QueryView;

    open spec fn view(&self) -> QueryView {
        match self {
            FindQuery::Name(s) => QueryView::Name(s@),
            FindQuery::Content(s) => QueryView::Content(s@),
            FindQuery::Regex(r) => QueryView::Regex(r@),
            FindQuery::RepeatedParent => QueryView::RepeatedParent,
            FindQuery::Nothing => QueryView::Nothing,
        }
    }
}

/// What a search in mode `mode` with `pattern` looks for: entries by name, lines by text or
/// by expression, entries repeating their directory's name, or nothing when a search by
/// name, text or expression has no pattern.
pub open spec fn search_query(mode: FindMode, pattern: Option<Seq<char>>) -> QueryView {
    match (mode, pattern) {
        (FindMode::Gavriluk, _) => QueryView::RepeatedParent,
        (_, None) => QueryView::Nothing,
        (FindMode::FileName, Some(p)) => QueryView::Name(p),
        (FindMode::Content, Some(p)) => QueryView::Content(p),
        (FindMode::Regexp, Some(p)) => QueryView::Regex(p),
    }
}

/// The pattern as plain values.
pub open spec fn pattern_view(pattern: Option<&str>) -> Option<Seq<char>> {
    match pattern {
        Some(p) => Some(p@),
        None => None,
    }
}

/// Whether a search in mode `mode` with `pattern` can be prepared: unless it searches by an
/// expression that does not compile.
pub open spec fn search_compiles(mode: FindMode, pattern: Option<Seq<char>>) -> bool {
    match (mode, pattern) {
        (FindMode::Regexp, Some(p)) => regex_match_result(p, Seq::empty()) is Some,
        _ => true,
    }
}

/// What a search in mode `mode` with `pattern` looks for. A search by an expression needs an
/// expression that compiles.
pub fn prepare_search(mode: FindMode, pattern: Option<&str>) -> (q: FindQuery)
    requires
        search_compiles(mode, pattern_view(pattern)),
    ensures
        q@ == search_query(mode, pattern_view(pattern)),
{
    match mode {
        FindMode::Gavriluk => FindQuery::RepeatedParent,
        FindMode::FileName => match pattern {
            Some(p) => FindQuery::Name(crate::text::owned(p)),
            None => FindQuery::Nothing,
        },
        FindMode::Content => match pattern {
            Some(p) => FindQuery::Content(crate::text::owned(p)),
            None => FindQuery::Nothing,
        },
        FindMode::Regexp => match pattern {
            Some(p) => match FindRegex::new(p) {
                Some(re) => FindQuery::Regex(re),
                None => {
                    assert(regex_match_result(p@, Seq::empty()) is None);
                    FindQuery::Nothing
                },
            },
            None => FindQuery::Nothing,
        },
    }
}

/// What a search in mode `mode` with `pattern` looks for, when it can be prepared; `Err`
/// exactly when it searches by an expression that does not compile.
pub fn try_prepare_search(mode: FindMode, pattern: Option<&str>) -> (r: Result<FindQuery, FindError>)
    ensures
        match r {
            Ok(q) => search_compiles(mode, pattern_view(pattern)) && q@ == search_query(mode, pattern_view(pattern)),
            Err(FindError::InvalidRegex) => !search_compiles(mode, pattern_view(pattern)),
        },
{
    match (mode, pattern) {
        (FindMode::Regexp, Some(p)) => match FindRegex::new(p) {
            Some(_) => Ok(prepare_search(mode, pattern)),
            None => {
                assert(regex_match_result(p@, Seq::empty()) is None);
                Err(FindError::InvalidRegex)
            },
        },
        _ => Ok(prepare_search(mode, pattern)),
    }
}

/// A reported entry as plain values.
pub open spec fn result_view(r: SearchResult) -> (Seq<char>, Option<nat>, Option<Seq<char>>) {
    (
        r.path@,
        match r.line_number {
            Some(n) => Some(n as nat),
            None => None,
        },
        match r.matched_content {
            Some(c) => Some(c@),
            None => None,
        },
    )
}

/// What the search reports for the entry at `path` named `name`: by name when the name
/// contains the text; by contents for a file whose lines could be read, with the first
/// matching line; by directory name when it repeats; nothing otherwise.
pub open spec fn search_spec(
    w: bool,
    q: QueryView,
    path: Seq<char>,
    name: Seq<char>,
    is_file: bool,
    lines: Option<Seq<Option<Seq<char>>>>,
) -> Option<(Seq<char>, Option<nat>, Option<Seq<char>>)> {
    match q {
        QueryView::Name(p) => if contains(name, p) { Some((path, None, None)) } else { None },
        QueryView::Content(p) => if !is_file {
            None
        } else {
            match lines {
                Some(ls) => match first_line_where(ls, |c: Seq<char>| contains(c, p)) {
                    Some((i, c)) => Some((path, Some((i + 1) as nat), Some(c))),
                    None => None,
                },
                None => None,
            }
        },
        QueryView::Regex(s) => if !is_file {
            None
        } else {
            match lines {
                Some(ls) => match first_line_where(ls, |c: Seq<char>| regex_match_result(s, c) == Some(true)) {
                    Some((i, c)) => Some((path, Some((i + 1) as nat), Some(c))),
                    None => None,
                },
                None => None,
            }
        },
        QueryView::RepeatedParent => if repeats_parent_name(path, w) { Some((path, None, None)) } else { None },
        QueryView::Nothing => None,
    }
}

impl FindQuery {
    /// Whether the search reads the lines of an entry (a file, in a search of contents).
    pub fn reads_lines(&self, is_file: bool) -> (b: bool)
        ensures
            b == (is_file && (self@ is Content || self@ is Regex)),
    {
        match self {
            FindQuery::Content(_) | FindQuery::Regex(_) => is_file,
            _ => false,
        }
    }

    /// What the search reports for the entry at `path` named `name`; `lines` are its lines as
    /// read (`None` when it could not be opened).
    pub fn check(&self, path: &str, name: &str, is_file: bool, lines: Option<&Vec<Option<String>>>, w: bool) -> (r: Option<SearchResult>)
        ensures
            match r {
                Some(res) => search_spec(w, self@, path@, name@, is_file, match lines {
                    Some(ls) => Some(lines_view(ls@)),
                    None => None,
                }) == Some(result_view(res)),
                None => search_spec(w, self@, path@, name@, is_file, match lines {
                    Some(ls) => Some(lines_view(ls@)),
                    None => None,
                }) is None,
            },
    {
        match self {
            FindQuery::Name(p) => {
                if contains_chars(&chars_of(name), &chars_of(p.as_str())) {
                    Some(SearchResult { path: crate::text::owned(path), line_number: None, matched_content: None })
                } else {
                    None
                }
            },
            FindQuery::Content(p) => {
                if !is_file {
                    return None;
                }
                match lines {
                    Some(ls) => match first_line_containing(ls, p.as_str()) {
                        Some((n, c)) => Some(SearchResult {
                            path: crate::text::owned(path),
                            line_number: Some(n),
                            matched_content: Some(c),
                        }),
                        None => None,
                    },
                    None => None,
                }
            },
            FindQuery::Regex(re) => {
                if !is_file {
                    return None;
                }
                match lines {
                    Some(ls) => match first_line_matching(ls, re) {
                        Some((n, c)) => Some(SearchResult {
                            path: crate::text::owned(path),
                            line_number: Some(n),
                            matched_content: Some(c),
                        }),
                        None => None,
                    },
                    None => None,
                }
            },
            FindQuery::RepeatedParent => {
                if parent_name_repeated(path, w) {
                    Some(SearchResult { path: crate::text::owned(path), line_number: None, matched_content: None })
                } else {
                    None
                }
            },
            FindQuery::Nothing => None,
        }
    }
}

} // verus!

verus! {

/// A terminal hyperlink (OSC 8) to the file `p`, underlined, showing `p`.
pub open spec fn file_link(p: Seq<char>) -> Seq<char> {
    "\x1b]8;;file://"@ + p + "\x1b\\\x1b[4:3m"@ + p + "\x1b[4:0m\x1b]8;;\x1b\\"@
}

/// How a reported entry is written: a search in contents gives the link, the line number and
/// the line, then a `---` rule; the others give the link alone on its line.
pub open spec fn rendered_result(r: (Seq<char>, Option<nat>, Option<Seq<char>>)) -> Seq<char> {
    match (r.1, r.2) {
        (Some(n), Some(c)) => "Файл: "@ + file_link(r.0) + "\n"@ + "Строка "@ + decimal(n) + ": "@ + c
            + "\n---\n"@,
        _ => file_link(r.0) + "\n"@,
    }
}

/// All reported entries written one after the other.
pub open spec fn rendered_results(rs: Seq<SearchResult>) -> Seq<char>
    decreases rs.len(),
{
    if rs.len() == 0 {
        Seq::empty()
    } else {
        rendered_results(rs.drop_last()) + rendered_result(result_view(rs.last()))
    }
}

fn link_exec(p: &str) -> (r: String)
    ensures
        r@ == file_link(p@),
{
    let a = crate::text::concat("\x1b]8;;file://", p);
    let b = crate::text::concat(a.as_str(), "\x1b\\\x1b[4:3m");
    let c = crate::text::concat(b.as_str(), p);
    let d = crate::text::concat(c.as_str(), "\x1b[4:0m\x1b]8;;\x1b\\");
    d
}

/// How the reported entry `r` is written.
pub fn render_result(r: &SearchResult) -> (s: String)
    ensures
        s@ == rendered_result(result_view(*r)),
{
    let link = link_exec(r.path.as_str());
    match (r.line_number, &r.matched_content) {
        (Some(n), Some(c)) => {
            let a = crate::text::concat("Файл: ", link.as_str());
            let b = crate::text::concat(a.as_str(), "\n");
            let b2 = crate::text::concat(b.as_str(), "Строка ");
            let digits = string_of(decimal_chars(n as u64).as_slice());
            let d = crate::text::concat(b2.as_str(), digits.as_str());
            let e = crate::text::concat(d.as_str(), ": ");
            let f = crate::text::concat(e.as_str(), c.as_str());
            crate::text::concat(f.as_str(), "\n---\n")
        },
        _ => crate::text::concat(link.as_str(), "\n"),
    }
}

/// All the reported entries, written in order.
pub fn render_results(results: &Vec<SearchResult>) -> (s: String)
    ensures
        s@ == rendered_results(results@),
{
    let n = results.len();
    let mut out = String::new();
    assert(results@.take(0) =~= Seq::<SearchResult>::empty());
    for i in 0..n
        invariant
            n == results@.len(),
            out@ == rendered_results(results@.take(i as int)),
    {
        let piece = render_result(&results[i]);
        out = crate::text::concat(out.as_str(), piece.as_str());
        assert(results@.take(i + 1).drop_last() =~= results@.take(i as int));
    }
    assert(results@.take(n as int) =~= results@);
    out
}

} // verus!

verus! {

/// A search by name looks at the entry's own name alone: it reports the entry exactly when
/// its name contains the pattern, whatever the entry's path, kind or lines, and the report
/// is the path as given, without a line.
pub proof fn lemma_find_by_name_reads_the_name(
    w: bool,
    p: Seq<char>,
    path: Seq<char>,
    name: Seq<char>,
    is_file: bool,
    lines: Option<Seq<Option<Seq<char>>>>,
    other_path: Seq<char>,
    other_is_file: bool,
    other_lines: Option<Seq<Option<Seq<char>>>>,
)
    ensures
        search_spec(w, QueryView::Name(p), path, name, is_file, lines) is Some <==> contains(name, p),
        contains(name, p) ==> search_spec(w, QueryView::Name(p), path, name, is_file, lines) == Some(
            (path, None::<nat>, None::<Seq<char>>),
        ),
        (search_spec(w, QueryView::Name(p), path, name, is_file, lines) is Some) == (search_spec(
            w,
            QueryView::Name(p),
            other_path,
            name,
            other_is_file,
            other_lines,
        ) is Some),
{
}

} // verus!
