//! Logging decisions: which commands are recorded at all, the log line
//! written for a recorded command, and the affirmative check of the clear
//! operation's confirmation prompt.

use vstd::prelude::*;
use crate::record::{serialize_entry, serialize_entry_spec};
use crate::strutil::{has_prefix, to_chars, trim_range, trim_spec};

verus! {

/// A command is recorded unless its trimmed text is empty, names this
/// logger's own command line, or launches the configured editor.
pub open spec fn should_log_spec(s: Seq<char>) -> bool {
    let t = trim_spec(s);
    &&& t.len() > 0
    &&& !has_prefix(t, "cli-wrapped"@)
    &&& !has_prefix(t, "code"@)
}

/// Whether a command is recorded: its trimmed text must be non-empty and
/// must not start with the logger's own name nor the editor prefix.
pub fn should_log_command(command: &str) -> (r: bool)
    ensures
        r == should_log_spec(command@),
{
    let v = to_chars(command);
    let (start, end) = trim_range(&v);
    if start == end {
        return false;
    }
    let own = to_chars("cli-wrapped");
    let editor = to_chars("code");
    !crate::strutil::range_has_prefix(&v, start, end, &own)
        && !crate::strutil::range_has_prefix(&v, start, end, &editor)
}

/// Self-exclusion: an empty trimmed command, one that names the logger
/// itself, and one that launches the editor are never recorded.
pub proof fn lemma_self_exclusion(s: Seq<char>)
    ensures
        trim_spec(s).len() == 0 ==> !should_log_spec(s),
        has_prefix(trim_spec(s), "cli-wrapped"@) ==> !should_log_spec(s),
        has_prefix(trim_spec(s), "code"@) ==> !should_log_spec(s),
{
}

/// The log line recorded for `command` at `timestamp`: its record line if
/// the command is one that is logged, nothing otherwise.
pub fn make_log_line(command: &str, timestamp: &str) -> (r: Option<String>)
    ensures
        match r {
            Some(line) => should_log_spec(command@) && line@ == serialize_entry_spec(
                command@,
                timestamp@,
            ),
            None => !should_log_spec(command@),
        },
{
    if should_log_command(command) {
        Some(serialize_entry(command, timestamp))
    } else {
        None
    }
}

/// Relies on chrono's `Utc::now` and `DateTime::to_rfc3339`: the current UTC
/// instant, rendered as an RFC 3339 timestamp.
#[verifier::external_body]
fn now_rfc3339() -> String {
    chrono::Utc::now().to_rfc3339()
}

/// The log line recorded for `command` at the present instant: its record
/// line, stamped with the current time, if the command is one that is
/// logged; nothing otherwise.
pub fn log_line_now(command: &str) -> (r: Option<String>)
    ensures
        match r {
            Some(line) => should_log_spec(command@) && exists|ts: Seq<char>|
                line@ == serialize_entry_spec(command@, ts),
            None => !should_log_spec(command@),
        },
{
    let ts = now_rfc3339();
    let r = make_log_line(command, ts.as_str());
    proof {
        if r is Some {
            assert(r.unwrap()@ == serialize_entry_spec(command@, ts@));
        }
    }
    r
}

/// An affirmative answer to the clear prompt: exactly `y` or `Y` after
/// trimming.
pub open spec fn affirmative_spec(s: Seq<char>) -> bool {
    trim_spec(s) == "y"@ || trim_spec(s) == "Y"@
}

/// Whether the user's answer to the clear prompt is affirmative; anything
/// but `y` or `Y` (ignoring surrounding whitespace) declines.
pub fn is_affirmative(input: &str) -> (r: bool)
    ensures
        r == affirmative_spec(input@),
{
    proof {
        reveal_strlit("y");
        reveal_strlit("Y");
    }
    let v = to_chars(input);
    let (start, end) = trim_range(&v);
    if end - start != 1 {
        proof {
            assert("y"@.len() == 1);
            assert("Y"@.len() == 1);
            assert(trim_spec(v@).len() != 1);
        }
        return false;
    }
    let c = v[start];
    proof {
        assert(trim_spec(v@).len() == 1);
        assert(trim_spec(v@)[0] == c);
        if c == 'y' {
            assert(trim_spec(v@) =~= "y"@);
        }
        if c == 'Y' {
            assert(trim_spec(v@) =~= "Y"@);
        }
    }
    c == 'y' || c == 'Y'
}

} // verus!
