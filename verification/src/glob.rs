//! Shell-style globs (`*`, `?`) turned into anchored regular expressions, matched by `regex`.

use vstd::prelude::*;
use crate::text::{chars_of, extend_chars, string_of};

verus! {

/// What the `regex` crate answers for the pattern `pattern` on `haystack`:
/// `None` when the pattern does not compile, else whether it matches.
pub uninterp spec fn regex_match_result(pattern: Seq<char>, haystack: Seq<char>) -> Option<bool>;

#[verifier::external_type_specification]
#[verifier::external_body]
pub struct ExRegex(regex::Regex);

/// `regex::Regex::new`, with the error dropped. The contract claims that it succeeds exactly
/// when `regex_match_result` has an answer for `pattern`, whatever the haystack (compiling
/// sees the pattern alone).
#[verifier::external_body]
fn regex_new(pattern: &str) -> (r: Option<regex::Regex>)
    ensures
        r is Some ==> forall|h: Seq<char>| #[trigger] regex_match_result(pattern@, h) is Some,
        r is None ==> forall|h: Seq<char>| #[trigger] regex_match_result(pattern@, h) is None,
{
    regex::Regex::new(pattern).ok()
}

/// A regular expression together with the text it was compiled from.
pub struct CompiledRegex {
    re: regex::Regex,
    source: String,
}

impl View for CompiledRegex {
    type V = Seq<char>;

    closed spec fn view(&self) -> Seq<char> {
        self.source@
    }
}

impl CompiledRegex {
    /// The text compiles.
    #[verifier::type_invariant]
    spec fn compiles(self) -> bool {
        forall|h: Seq<char>| #[trigger] regex_match_result(self.source@, h) is Some
    }

    /// The expression `pattern`, compiled; `None` when it does not compile.
    pub fn new(pattern: &str) -> (r: Option<CompiledRegex>)
        ensures
            match r {
                Some(c) => c@ == pattern@ && forall|h: Seq<char>| #[trigger] regex_match_result(pattern@, h) is Some,
                None => forall|h: Seq<char>| #[trigger] regex_match_result(pattern@, h) is None,
            },
    {
        match regex_new(pattern) {
            Some(re) => Some(CompiledRegex { re, source: crate::text::owned(pattern) }),
            None => None,
        }
    }

    /// `regex::Regex::is_match` on `haystack`. The expression was compiled from `self@` (the
    /// fields are private and `new` alone fills them); the contract claims that the answer is
    /// `regex_match_result(self@, haystack)`.
    #[verifier::external_body]
    pub(crate) fn is_match(&self, haystack: &str) -> (b: bool)
        ensures
            regex_match_result(self@, haystack@) == Some(b),
    {
        self.re.is_match(haystack)
    }
}

/// `std::path::MAIN_SEPARATOR`: `/` on Unix, `\` on Windows. Nothing is promised of it here.
#[verifier::external_body]
pub(crate) fn main_separator() -> char {
    std::path::MAIN_SEPARATOR
}

/// Whether `c` has a meaning of its own in a regular expression and is escaped.
pub open spec fn is_regex_special(c: char) -> bool {
    c == '.' || c == '+' || c == '(' || c == ')' || c == '|' || c == '[' || c == ']' || c == '{'
        || c == '}' || c == '^' || c == '$' || c == '\\'
}

/// The regular expression text for one glob character: `*` is any run of characters other
/// than `/`, `?` one character other than `/`; special characters are escaped.
pub open spec fn glob_char_regex(c: char) -> Seq<char> {
    if c == '*' {
        seq!['[', '^', '/', ']', '*']
    } else if c == '?' {
        seq!['[', '^', '/', ']']
    } else if is_regex_special(c) {
        seq!['\\', c]
    } else {
        seq![c]
    }
}

/// The regular expression text for the glob characters `p`, in order.
pub open spec fn glob_body(p: Seq<char>) -> Seq<char>
    decreases p.len(),
{
    if p.len() == 0 {
        Seq::empty()
    } else {
        glob_body(p.drop_last()) + glob_char_regex(p.last())
    }
}

/// The anchored regular expression for the glob `p`, with the case-insensitive flag in front
/// when `case_insensitive`.
pub open spec fn glob_regex_source(p: Seq<char>, case_insensitive: bool) -> Seq<char> {
    (if case_insensitive { seq!['(', '?', 'i', ')'] } else { Seq::empty() }) + seq!['^'] + glob_body(p)
        + seq!['$']
}

/// The expression used when a glob's expression does not compile.
pub open spec fn fallback_source() -> Seq<char> {
    seq!['$', '^']
}

/// Whether the glob whose expression is `source` matches `haystack`: the answer of `source`
/// when it compiles, else the answer of the fallback expression (no match when that one
/// does not compile either).
pub open spec fn glob_matches(source: Seq<char>, haystack: Seq<char>) -> bool {
    match regex_match_result(source, haystack) {
        Some(b) => b,
        None => regex_match_result(fallback_source(), haystack) == Some(true),
    }
}

/// A glob compiled to the text of an anchored regular expression.
pub struct GlobRegex {
    source: String,
    matcher: Option<CompiledRegex>,
}

impl View for GlobRegex {
    type V = Seq<char>;

    closed spec fn view(&self) -> Seq<char> {
        self.source@
    }
}

fn push_glob_char(out: &mut Vec<char>, c: char)
    ensures
        final(out)@ == old(out)@ + glob_char_regex(c),
{
    if c == '*' {
        out.push('[');
        out.push('^');
        out.push('/');
        out.push(']');
        out.push('*');
    } else if c == '?' {
        out.push('[');
        out.push('^');
        out.push('/');
        out.push(']');
    } else if c == '.' || c == '+' || c == '(' || c == ')' || c == '|' || c == '[' || c == ']'
        || c == '{' || c == '}' || c == '^' || c == '$' || c == '\\' {
        out.push('\\');
        out.push(c);
    } else {
        out.push(c);
    }
    assert(final(out)@ =~= old(out)@ + glob_char_regex(c));
}

/// The anchored regular expression text for the glob `pattern`.
pub fn glob_regex_text(pattern: &str, case_insensitive: bool) -> (r: String)
    ensures
        r@ == glob_regex_source(pattern@, case_insensitive),
{
    let p = chars_of(pattern);
    let n = p.len();
    let mut out: Vec<char> = Vec::new();
    if case_insensitive {
        out.push('(');
        out.push('?');
        out.push('i');
        out.push(')');
    }
    out.push('^');
    let ghost head = out@;
    assert(head =~= (if case_insensitive { seq!['(', '?', 'i', ')'] } else { Seq::empty() }) + seq!['^']);
    assert(p@.take(0) =~= Seq::<char>::empty());
    for i in 0..n
        invariant
            n == p@.len(),
            p@ == pattern@,
            out@ == head + glob_body(p@.take(i as int)),
    {
        push_glob_char(&mut out, p[i]);
        assert(p@.take(i + 1).drop_last() =~= p@.take(i as int));
        assert(head + glob_body(p@.take(i + 1)) =~= head + glob_body(p@.take(i as int)) + glob_char_regex(p@[i as int]));
    }
    out.push('$');
    assert(p@.take(n as int) =~= p@);
    string_of(out.as_slice())
}

/// Whether globs match paths without regard to case: on platforms whose main separator is
/// `\`.
pub fn paths_case_insensitive() -> bool {
    separator_ignores_case(main_separator())
}

/// Whether paths whose main separator is `sep` are matched without regard to case: exactly
/// when `sep` is `\`.
pub fn separator_ignores_case(sep: char) -> (b: bool)
    ensures
        b == (sep == '\\'),
{
    sep == '\\'
}

impl GlobRegex {
    /// The matcher is the glob's expression compiled; or, when that does not compile, the
    /// fallback expression compiled; or nothing, when neither compiles.
    #[verifier::type_invariant]
    spec fn matcher_fits(self) -> bool {
        match self.matcher {
            Some(c) => c@ == self.source@ || (c@ == fallback_source() && forall|h: Seq<char>|
                #[trigger] regex_match_result(self.source@, h) is None),
            None => forall|h: Seq<char>|
                #[trigger] regex_match_result(self.source@, h) is None && regex_match_result(fallback_source(), h) is None,
        }
    }

    /// The text of the regular expression.
    pub fn as_str(&self) -> (s: &str)
        ensures
            s@ == self@,
    {
        self.source.as_str()
    }

    /// Whether the glob matches `haystack`.
    pub fn is_match(&self, haystack: &str) -> (b: bool)
        ensures
            b == glob_matches(self@, haystack@),
    {
        proof { use_type_invariant(self); }
        match &self.matcher {
            Some(c) => c.is_match(haystack),
            None => {
                assert(regex_match_result(self.source@, haystack@) is None);
                assert(regex_match_result(fallback_source(), haystack@) is None);
                false
            },
        }
    }

    /// Whether the glob matches each of `haystacks`.
    pub fn matches_each(&self, haystacks: &Vec<String>) -> (r: Vec<bool>)
        ensures
            r@.len() == haystacks@.len(),
            forall|i: int| 0 <= i < r@.len() ==> r@[i] == glob_matches(self@, #[trigger] haystacks@[i]@),
    {
        let n = haystacks.len();
        let mut v: Vec<bool> = Vec::new();
        for i in 0..n
            invariant
                n == haystacks@.len(),
                v@.len() == i,
                forall|j: int| 0 <= j < i ==> v@[j] == glob_matches(self@, #[trigger] haystacks@[j]@),
        {
            v.push(self.is_match(haystacks[i].as_str()));
        }
        v
    }
}

/// The glob `pattern` as an anchored regular expression, compiled, with the case-insensitive
/// flag when `case_insensitive` (which `paths_case_insensitive` gives for this platform).
pub fn glob_to_regex(pattern: &str, case_insensitive: bool) -> (r: GlobRegex)
    ensures
        r@ == glob_regex_source(pattern@, case_insensitive),
{
    let source = glob_regex_text(pattern, case_insensitive);
    let matcher = match CompiledRegex::new(source.as_str()) {
        Some(c) => Some(c),
        None => {
            let mut fb: Vec<char> = Vec::new();
            fb.push('$');
            fb.push('^');
            let fallback = string_of(fb.as_slice());
            assert(fallback@ =~= fallback_source());
            CompiledRegex::new(fallback.as_str())
        },
    };
    GlobRegex { source, matcher }
}

} // verus!

verus! {

/// A glob's expression is anchored at both ends: after the optional case flag it starts with
/// `^`, and it ends with `$`.
pub proof fn lemma_glob_regex_anchored(p: Seq<char>, case_insensitive: bool)
    ensures
        ({
            let src = glob_regex_source(p, case_insensitive);
            let start = if case_insensitive { 4int } else { 0int };
            &&& src.len() >= start + 2
            &&& src[start] == '^'
            &&& src.last() == '$'
        }),
{
    let src = glob_regex_source(p, case_insensitive);
    let flag = if case_insensitive { seq!['(', '?', 'i', ')'] } else { Seq::<char>::empty() };
    assert(src == flag + seq!['^'] + glob_body(p) + seq!['$']);
    assert(src[flag.len() as int] == '^');
}

} // verus!
