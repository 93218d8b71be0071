//! The live line shown while counting entries: a path cut from the left to fit, and the
//! count at the right edge.

use vstd::prelude::*;
use crate::text::{
    chars_of, char_utf8_len, char_utf8_len_exec, decimal, decimal_chars, extend_chars,
    lemma_decimal_shape, lemma_utf8_len_take, s_tail, string_of, utf8_len, utf8_len_exec,
};

verus! {

/// The displayed width (in terminal columns) that `unicode_width` gives the string `s`.
pub uninterp spec fn display_width(s: Seq<char>) -> usize;

/// `unicode_width::UnicodeWidthStr::width`. The contract claims that the result is
/// `display_width(s)`, and that a string of ASCII digits is as wide as it is long (the
/// crate's documentation: such characters take the plain rule of width 1, and the width of a
/// string is the sum of its characters' widths outside the listed sequences).
#[verifier::external_body]
fn str_display_width(s: &str) -> (w: usize)
    ensures
        w == display_width(s@),
        (forall|i: int| 0 <= i < s@.len() ==> '0' <= #[trigger] s@[i] <= '9') ==> w == s@.len(),
{
    unicode_width::UnicodeWidthStr::width(s)
}

/// `terminal_size::terminal_size`: the width in columns of the terminal on standard output,
/// error or input, when there is one. Nothing is promised of it: it depends on the process's
/// environment.
#[verifier::external_body]
fn terminal_columns() -> Option<u16> {
    terminal_size::terminal_size().map(|size| (size.0).0)
}

/// The first index `j >= from` at which the first `j` characters of `s` take at least `cut`
/// bytes (the length of `s` when there is none).
pub open spec fn cut_index(s: Seq<char>, cut: int, from: nat) -> nat
    decreases s.len() - from,
{
    if from >= s.len() || utf8_len(s.take(from as int)) >= cut {
        from
    } else {
        cut_index(s, cut, from + 1)
    }
}

/// `s` cut from the left to fit in `max` bytes: unchanged when it fits; `...` when `max` is
/// at most 3; otherwise `...` followed by the shortest tail of `s` (on a character boundary)
/// that leaves out at least the bytes too many.
pub open spec fn truncated_left(s: Seq<char>, max: nat) -> Seq<char> {
    if utf8_len(s) <= max {
        s
    } else if max <= 3 {
        "..."@
    } else {
        "..."@ + s.skip(cut_index(s, utf8_len(s) - (max - 3), 0) as int)
    }
}

/// `s` cut from the left to fit in `max` bytes, with `...` in front when cut.
pub fn truncate_left(s: &str, max: usize) -> (r: String)
    requires
        utf8_len(s@) <= usize::MAX,
    ensures
        r@ == truncated_left(s@, max as nat),
{
    let total = utf8_len_exec(s);
    if total <= max {
        return crate::text::owned(s);
    }
    if max <= 3 {
        return crate::text::owned("...");
    }
    let cut = total - (max - 3);
    let v = chars_of(s);
    let n = v.len();
    let mut k: usize = 0;
    let mut off: usize = 0;
    assert(v@.take(0) =~= Seq::<char>::empty());
    while k < n && off < cut
        invariant
            n == v@.len(),
            v@ == s@,
            k <= n,
            off as nat == utf8_len(v@.take(k as int)),
            off <= total,
            total as nat == utf8_len(v@),
            cut_index(v@, cut as int, 0) == cut_index(v@, cut as int, k as nat),
        decreases n - k,
    {
        proof {
            lemma_utf8_len_take(v@, k as int);
            lemma_prefix_bytes_bound(v@, k as int + 1);
        }
        off = off + char_utf8_len_exec(v[k]);
        k = k + 1;
    }
    let tail = s_tail(&v, k);
    let mut out: Vec<char> = Vec::new();
    out.push('.');
    out.push('.');
    out.push('.');
    extend_chars(&mut out, &tail);
    proof { reveal_strlit("..."); }
    assert(out@ =~= "..."@ + v@.skip(k as int));
    string_of(out.as_slice())
}

/// A prefix takes no more bytes than the whole.
proof fn lemma_prefix_bytes_bound(s: Seq<char>, k: int)
    requires
        0 <= k <= s.len(),
    ensures
        utf8_len(s.take(k)) <= utf8_len(s),
{
    assert(s =~= s.take(k) + s.skip(k));
    crate::text::lemma_utf8_len_concat(s.take(k), s.skip(k));
}

/// `n` spaces.
pub open spec fn spaces(n: nat) -> Seq<char> {
    Seq::new(n, |i: int| ' ')
}

/// `a - b`, or 0 when `b` is larger.
pub open spec fn sat_sub(a: int, b: int) -> nat {
    if a >= b { (a - b) as nat } else { 0 }
}

/// The live line for the entry at `path` and the running `count`, in a terminal `width`
/// columns wide: 22 columns are left to the spinner and timer; the path, cut from the left
/// to fit beside the count, comes first, and the count is right-aligned in the columns the
/// path leaves.
pub open spec fn live_count_line(path: Seq<char>, count: nat, width: nat) -> Seq<char> {
    let msg_width = sat_sub(width as int, 22);
    let count_str = decimal(count);
    let path_max = sat_sub(msg_width as int, count_str.len() as int + 1);
    let truncated = truncated_left(path, path_max);
    let count_pad = sat_sub(msg_width as int, display_width(truncated) as int);
    truncated + spaces(sat_sub(count_pad as int, count_str.len() as int)) + count_str
}

/// The live line for `path` and `count` in a terminal `width` columns wide.
pub fn format_live_count_width(path: &str, count: u64, width: usize) -> (r: String)
    requires
        utf8_len(path@) <= usize::MAX,
    ensures
        r@ == live_count_line(path@, count as nat, width as nat),
{
    let msg_width = width.saturating_sub(22);
    let digits = decimal_chars(count);
    let count_str = string_of(digits.as_slice());
    proof { lemma_decimal_shape(count as nat); }
    let count_w = str_display_width(count_str.as_str());
    proof { lemma_decimal_digits(count as nat); }
    assert(count_w == count_str@.len());
    let path_max = msg_width.saturating_sub(count_w).saturating_sub(1);
    let truncated = truncate_left(path, path_max);
    let used = str_display_width(truncated.as_str());
    let count_pad = msg_width.saturating_sub(used);
    let mut out = chars_of(truncated.as_str());
    let pad = count_pad.saturating_sub(digits.len());
    let ghost head = out@;
    for i in 0..pad
        invariant
            out@ == head + spaces(i as nat),
    {
        out.push(' ');
        assert(out@ =~= head + spaces((i + 1) as nat));
    }
    extend_chars(&mut out, &digits);
    string_of(out.as_slice())
}

/// Decimal notation is made of ASCII digits.
proof fn lemma_decimal_digits(n: nat)
    ensures
        forall|i: int| 0 <= i < decimal(n).len() ==> '0' <= #[trigger] decimal(n)[i] <= '9',
    decreases n,
{
    if n >= 10 {
        lemma_decimal_digits(n / 10);
        assert forall|i: int| 0 <= i < decimal(n).len() implies '0' <= #[trigger] decimal(n)[i] <= '9' by {
            if i < decimal(n / 10).len() {
                assert(decimal(n)[i] == decimal(n / 10)[i]);
            }
        }
    }
}

/// The width the live line is laid out for: the terminal's columns, or 80 when there is no
/// terminal.
pub open spec fn line_width(columns: Option<u16>) -> nat {
    match columns {
        Some(w) => w as nat,
        None => 80,
    }
}

/// The width the live line is laid out for, given the terminal's columns (`None` when there
/// is no terminal).
pub fn live_line_width(columns: Option<u16>) -> (w: usize)
    ensures
        w as nat == line_width(columns),
{
    match columns {
        Some(w) => w as usize,
        None => 80,
    }
}

/// The live line for the entry at `path` and the running `count`, fitted to the width of the
/// terminal (80 columns when there is none).
pub fn format_live_count(path: &str, count: u64) -> (r: String)
    requires
        utf8_len(path@) <= usize::MAX,
    ensures
        exists|columns: Option<u16>| r@ == live_count_line(path@, count as nat, line_width(columns)),
{
    let columns = terminal_columns();
    let width = live_line_width(columns);
    let r = format_live_count_width(path, count, width);
    assert(r@ == live_count_line(path@, count as nat, line_width(columns)));
    r
}

} // verus!

verus! {

/// The characters that fill a bar on a terminal that shows ANSI escapes.
pub const ANSI_PROGRESS_CHARS: &'static str = "█▇▆▅▄▃▂▁";

/// The characters that fill a bar elsewhere.
pub const PROGRESS_CHARS: &'static str = "=> ";

/// The spinner's frames elsewhere.
pub const TICK_CHARS: &'static str = "-\\|/";

/// How long a spinner frame lasts, in milliseconds.
pub const TICK_MILLIS: u64 = 100;

/// A spinner or a bar.
#[derive(Clone, Copy, PartialEq, Eq)]
pub enum BarKind {
    Spinner,
    Bar,
}

/// How a progress indicator is drawn: its spinner frames (the default when `None`) and its
/// fill characters (the default when `None`).
pub struct BarLook {
    pub tick_chars: Option<&'static str>,
    pub progress_chars: Option<&'static str>,
}

/// How a progress indicator of kind `kind` is drawn: on a terminal that shows ANSI escapes (on
/// standard error, supporting ANSI, and a modern terminal) a bar is filled with block
/// characters and a spinner keeps its default frames; elsewhere both take the plain frames
/// and fill characters.
pub fn bar_look(stderr_is_tty: bool, supports_ansi: bool, modern_terminal: bool, kind: BarKind) -> (r: BarLook)
    ensures
        (stderr_is_tty && supports_ansi && modern_terminal) ==> match kind {
            BarKind::Spinner => r.tick_chars is None && r.progress_chars is None,
            BarKind::Bar => r.tick_chars is None && r.progress_chars == Some(ANSI_PROGRESS_CHARS),
        },
        !(stderr_is_tty && supports_ansi && modern_terminal) ==> r.tick_chars == Some(TICK_CHARS)
            && r.progress_chars == Some(PROGRESS_CHARS),
{
    if stderr_is_tty && supports_ansi && modern_terminal {
        match kind {
            BarKind::Spinner => BarLook { tick_chars: None, progress_chars: None },
            BarKind::Bar => BarLook { tick_chars: None, progress_chars: Some(ANSI_PROGRESS_CHARS) },
        }
    } else {
        BarLook { tick_chars: Some(TICK_CHARS), progress_chars: Some(PROGRESS_CHARS) }
    }
}

} // verus!

verus! {

/// A path cut from the left fits its room: unchanged when it fits; otherwise, when the room
/// holds at least the three dots, the result takes no more bytes than the room, and it is
/// `...` followed by a tail of the path.
pub proof fn lemma_truncated_left_fits(s: Seq<char>, max: nat)
    ensures
        utf8_len(s) <= max ==> truncated_left(s, max) == s,
        max >= 3 ==> utf8_len(truncated_left(s, max)) <= max,
        utf8_len(s) > max ==> exists|k: int|
            0 <= k <= s.len() && truncated_left(s, max) == "..."@ + s.skip(k),
{
    reveal_strlit("...");
    assert(utf8_len("..."@) == 3) by {
        let d: Seq<char> = seq!['.', '.', '.'];
        assert("..."@ =~= d);
        assert(d.drop_first() =~= seq!['.', '.']);
        assert(d.drop_first().drop_first() =~= seq!['.']);
        assert(d.drop_first().drop_first().drop_first() =~= Seq::<char>::empty());
        assert(utf8_len(Seq::<char>::empty()) == 0);
        assert(utf8_len(seq!['.']) == 1);
        assert(utf8_len(seq!['.', '.']) == 2);
    }
    if utf8_len(s) > max {
        if max <= 3 {
            assert(truncated_left(s, max) == "..."@ + s.skip(s.len() as int)) by {
                assert("..."@ + s.skip(s.len() as int) =~= "..."@);
            }
        } else {
            let cut = utf8_len(s) - (max - 3);
            let k = cut_index(s, cut, 0);
            lemma_cut_index(s, cut, 0);
            assert(s =~= s.take(k as int) + s.skip(k as int));
            crate::text::lemma_utf8_len_concat(s.take(k as int), s.skip(k as int));
            crate::text::lemma_utf8_len_concat("..."@, s.skip(k as int));
        }
    }
}

proof fn lemma_cut_index(s: Seq<char>, cut: int, from: nat)
    requires
        from <= s.len(),
        utf8_len(s) >= cut,
    ensures
        from <= cut_index(s, cut, from) <= s.len(),
        utf8_len(s.take(cut_index(s, cut, from) as int)) >= cut,
    decreases s.len() - from,
{
    if from >= s.len() {
        assert(s.take(from as int) =~= s);
    } else if utf8_len(s.take(from as int)) < cut {
        lemma_cut_index(s, cut, from + 1);
    }
}

/// The live line ends with the count.
pub proof fn lemma_live_line_ends_with_count(path: Seq<char>, count: nat, width: nat)
    ensures
        ({
            let line = live_count_line(path, count, width);
            &&& line.len() >= decimal(count).len()
            &&& line.skip(line.len() - decimal(count).len()) == decimal(count)
        }),
{
    let line = live_count_line(path, count, width);
    let d = decimal(count);
    assert(line.skip(line.len() - d.len()) =~= d);
}

} // verus!

verus! {

/// A count that can give the length of a progress bar.
pub trait IntoProgressLen: Sized {
    /// The length, as a number.
    spec fn progress_len(&self) -> int;

    /// The length of the bar.
    fn into_progress_len(self) -> (r: u64)
        ensures
            r as int == self.progress_len();
}

impl IntoProgressLen for u64 {
    open spec fn progress_len(&self) -> int {
        *self as int
    }

    fn into_progress_len(self) -> (r: u64) {
        self
    }
}

impl IntoProgressLen for i32 {
    /// A negative count gives an empty bar.
    open spec fn progress_len(&self) -> int {
        if *self >= 0 { *self as int } else { 0 }
    }

    fn into_progress_len(self) -> (r: u64) {
        if self >= 0 { self as u64 } else { 0u64 }
    }
}

impl IntoProgressLen for usize {
    open spec fn progress_len(&self) -> int {
        *self as int
    }

    fn into_progress_len(self) -> (r: u64) {
        self as u64
    }
}

} // verus!
