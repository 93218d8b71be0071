//! Holding a lock on a file: the clock shown, and when the hold ends.

use vstd::prelude::*;
use crate::text::{decimal, extend_chars, pad2, pad2_chars, string_of, chars_of};

verus! {

/// `seconds` as minutes and seconds, `mm:ss`, each padded with zeros to two digits (minutes
/// may take more).
pub open spec fn duration_text(seconds: nat) -> Seq<char> {
    pad2(decimal(seconds / 60)) + seq![':'] + pad2(decimal(seconds % 60))
}

/// `seconds` written as `mm:ss`.
pub fn format_duration(seconds: u64) -> (r: String)
    ensures
        r@ == duration_text(seconds as nat),
{
    let minutes = seconds / 60;
    let remaining_seconds = seconds % 60;
    let mut v = pad2_chars(minutes);
    v.push(':');
    extend_chars(&mut v, &pad2_chars(remaining_seconds));
    string_of(v.as_slice())
}

/// What the hold of a lock does next.
pub enum LockStep {
    /// Keep holding.
    Continue,
    /// The user pressed Esc: stop.
    Interrupted,
    /// The time is up: stop.
    Finished,
}

/// What the hold does after `elapsed_nanos` nanoseconds, with `timer` seconds to hold (none:
/// until Esc), `esc` telling whether Esc was pressed: a timed hold ends when its time is up,
/// before Esc is looked at.
pub open spec fn lock_step_spec(timer: Option<u64>, elapsed_nanos: u128, esc: bool) -> LockStep {
    match timer {
        Some(t) => if elapsed_nanos >= t as int * 1_000_000_000 {
            LockStep::Finished
        } else if esc {
            LockStep::Interrupted
        } else {
            LockStep::Continue
        },
        None => if esc { LockStep::Interrupted } else { LockStep::Continue },
    }
}

/// What the hold does next.
pub fn lock_step(timer: Option<u64>, elapsed_nanos: u128, esc: bool) -> (r: LockStep)
    ensures
        r == lock_step_spec(timer, elapsed_nanos, esc),
{
    match timer {
        Some(t) => {
            let limit: u128 = (t as u128) * 1_000_000_000u128;
            if elapsed_nanos >= limit {
                LockStep::Finished
            } else if esc {
                LockStep::Interrupted
            } else {
                LockStep::Continue
            }
        },
        None => if esc { LockStep::Interrupted } else { LockStep::Continue },
    }
}

/// The status line and the progress line of a timed hold on `path`, `elapsed` of `duration`
/// seconds in.
pub open spec fn lock_lines(path: Seq<char>, elapsed: nat, duration: nat) -> (Seq<char>, Seq<char>) {
    (
        "Блокировка файла: "@ + path + " | Осталось: "@ + duration_text((duration - elapsed) as nat),
        "Прошло "@ + duration_text(elapsed) + " из "@ + duration_text(duration),
    )
}

/// The status line and the progress line of a timed hold on `path`.
pub fn lock_progress_lines(path: &str, elapsed: u64, duration: u64) -> (r: (String, String))
    requires
        elapsed <= duration,
    ensures
        (r.0@, r.1@) == lock_lines(path@, elapsed as nat, duration as nat),
{
    let mut a = chars_of("Блокировка файла: ");
    extend_chars(&mut a, &chars_of(path));
    extend_chars(&mut a, &chars_of(" | Осталось: "));
    extend_chars(&mut a, &chars_of(format_duration(duration - elapsed).as_str()));
    let mut b = chars_of("Прошло ");
    extend_chars(&mut b, &chars_of(format_duration(elapsed).as_str()));
    extend_chars(&mut b, &chars_of(" из "));
    extend_chars(&mut b, &chars_of(format_duration(duration).as_str()));
    (string_of(a.as_slice()), string_of(b.as_slice()))
}

} // verus!
