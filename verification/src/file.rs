//! Storage layout: the naming convention of the per-year log files and the
//! rotation rule that picks the file the next record is appended to.
//!
//! A log file is named `command_log_<N>.jsonl` for a sequence number `N`.
//! Within a year directory the writable file is the highest-numbered one,
//! until it reaches [`MAX_LINES`] records; then the next sequence number
//! starts a fresh file.

use vstd::prelude::*;
use crate::strutil::{
    all_digits, chars_has_suffix, dec_rep, digits_val, has_prefix, has_suffix,
    parse_digits, push_dec_u64, range_has_prefix, to_chars,
    chars_to_string, u64_to_string,
};

verus! {

/// Directory under the platform data directory that holds all log years.
pub const LOG_FOLDERS_DIR: &'static str = "cli-wrapped";

/// Prefix of every log file name.
pub const LOG_FILE_PREFIX: &'static str = "command_log_";

/// Extension of every log file name.
pub const LOG_FILE_EXTENSION: &'static str = ".jsonl";

/// Capacity bound of a log file, in records.
pub const MAX_LINES: usize = 100;

/// The name of the log file with sequence number `n`.
pub open spec fn log_file_name_spec(n: nat) -> Seq<char> {
    LOG_FILE_PREFIX@ + dec_rep(n) + LOG_FILE_EXTENSION@
}

/// Builds the name of the log file with sequence number `n`.
pub fn log_file_name(n: usize) -> (r: String)
    ensures
        r@ == log_file_name_spec(n as nat),
{
    let mut v = to_chars(LOG_FILE_PREFIX);
    push_dec_u64(n as u64, &mut v);
    let ext = to_chars(LOG_FILE_EXTENSION);
    let mut k: usize = 0;
    while k < ext.len()
        invariant
            k <= ext@.len(),
            ext@ == LOG_FILE_EXTENSION@,
            v@ == LOG_FILE_PREFIX@ + dec_rep(n as nat) + ext@.subrange(0, k as int),
        decreases ext@.len() - k,
    {
        v.push(ext[k]);
        proof {
            assert(ext@.subrange(0, k + 1 as int) =~= ext@.subrange(0, k as int).push(
                ext@[k as int],
            ));
            assert(v@ =~= LOG_FILE_PREFIX@ + dec_rep(n as nat) + ext@.subrange(0, k + 1 as int));
        }
        k = k + 1;
    }
    proof {
        assert(ext@.subrange(0, ext@.len() as int) =~= ext@);
    }
    chars_to_string(&v)
}

/// A name that the aggregation scan accepts as a log file: it carries the
/// log-file prefix and extension.
pub open spec fn is_log_file_name_spec(s: Seq<char>) -> bool {
    has_prefix(s, LOG_FILE_PREFIX@) && has_suffix(s, LOG_FILE_EXTENSION@)
}

/// Whether `name` looks like a log file name.
pub fn is_log_file_name(name: &str) -> (r: bool)
    ensures
        r == is_log_file_name_spec(name@),
{
    let v = to_chars(name);
    let p = to_chars(LOG_FILE_PREFIX);
    let e = to_chars(LOG_FILE_EXTENSION);
    let n = v.len();
    let pre = range_has_prefix(&v, 0, n, &p);
    proof {
        assert(v@.subrange(0, n as int) =~= v@);
    }
    if !pre {
        return false;
    }
    chars_has_suffix(&v, &e)
}

/// The sequence number a file name denotes: the digits between the log-file
/// prefix and extension, or nothing if the name is not of that shape.
pub open spec fn log_number_of(s: Seq<char>) -> Option<nat> {
    if has_prefix(s, LOG_FILE_PREFIX@) && has_suffix(s, LOG_FILE_EXTENSION@) && s.len()
        >= LOG_FILE_PREFIX@.len() + LOG_FILE_EXTENSION@.len() {
        let mid = s.subrange(
            LOG_FILE_PREFIX@.len() as int,
            s.len() - LOG_FILE_EXTENSION@.len(),
        );
        if mid.len() > 0 && all_digits(mid) {
            Some(digits_val(mid))
        } else {
            None
        }
    } else {
        None
    }
}

/// Extracts the sequence number from a log file name; names of another shape,
/// and numbers too large for `usize`, yield nothing.
pub fn extract_log_number(filename: &str) -> (r: Option<usize>)
    ensures
        match r {
            Some(n) => log_number_of(filename@) == Some(n as nat),
            None => log_number_of(filename@) is None || log_number_of(
                filename@,
            ).unwrap() > usize::MAX,
        },
{
    let v = to_chars(filename);
    let p = to_chars(LOG_FILE_PREFIX);
    let e = to_chars(LOG_FILE_EXTENSION);
    let n = v.len();
    proof {
        assert(v@.subrange(0, n as int) =~= v@);
    }
    if !range_has_prefix(&v, 0, n, &p) {
        return None;
    }
    if !chars_has_suffix(&v, &e) {
        return None;
    }
    if n < p.len() {
        return None;
    }
    if n - p.len() < e.len() {
        return None;
    }
    parse_digits(&v, p.len(), n - e.len())
}

/// The highest sequence number among `names`, ignoring names that denote no
/// sequence number (and numbers beyond `usize`); `0` when none denotes one.
pub open spec fn highest_log_number_spec(names: Seq<Seq<char>>) -> nat
    decreases names.len(),
{
    if names.len() == 0 {
        0
    } else {
        let rest = highest_log_number_spec(names.drop_last());
        match log_number_of(names.last()) {
            Some(v) => if v <= usize::MAX && v > rest {
                v
            } else {
                rest
            },
            None => rest,
        }
    }
}

/// The highest sequence number among the given file names, `0` when no name
/// denotes one.
pub fn get_highest_log_number(filenames: &Vec<String>) -> (r: usize)
    ensures
        r as nat == highest_log_number_spec(filenames.deep_view()),
{
    let mut highest: usize = 0;
    let mut i: usize = 0;
    while i < filenames.len()
        invariant
            i <= filenames@.len(),
            highest as nat == highest_log_number_spec(
                filenames.deep_view().subrange(0, i as int),
            ),
        decreases filenames@.len() - i,
    {
        let name: &String = &filenames[i];
        match extract_log_number(name.as_str()) {
            Some(num) => {
                if num > highest {
                    highest = num;
                }
            },
            None => {
                proof {
                    if log_number_of(name@) is Some {
                        assert(log_number_of(name@).unwrap() > usize::MAX);
                    }
                }
            },
        }
        proof {
            let pre = filenames.deep_view().subrange(0, i as int);
            let cur = filenames.deep_view().subrange(0, i + 1 as int);
            assert(cur.drop_last() =~= pre);
            assert(cur.last() == filenames.deep_view()[i as int]);
            assert(filenames.deep_view()[i as int] == name@);
        }
        i = i + 1;
    }
    proof {
        assert(filenames.deep_view().subrange(0, filenames@.len() as int)
            =~= filenames.deep_view());
    }
    highest
}

/// The sequence number the next record is appended to, given the highest
/// existing number, whether that file exists, how many records it holds, and
/// the capacity bound: the highest file while it has room, the next number
/// once it is full.
pub open spec fn next_log_index(highest: nat, target_exists: bool, line_count: nat, cap: nat)
    -> nat {
    if !target_exists || line_count < cap {
        highest
    } else {
        highest + 1
    }
}

/// The name of the file the next record is appended to. `highest` is the
/// highest existing sequence number (`0` if no log file exists),
/// `target_exists` says whether the file of that number exists, and
/// `line_count` how many lines it holds (`0` if it does not exist or cannot
/// be read).
pub fn get_log_file_path(highest: usize, target_exists: bool, line_count: usize) -> (r: String)
    requires
        highest < usize::MAX,
    ensures
        r@ == log_file_name_spec(
            next_log_index(highest as nat, target_exists, line_count as nat, MAX_LINES as nat),
        ),
{
    if !target_exists || line_count < MAX_LINES {
        log_file_name(highest)
    } else {
        log_file_name(highest + 1)
    }
}

/// One append against a year directory, modelled on the record counts of its
/// log files: `state[i]` is the number of records in the file of sequence
/// number `i`. The target file is the one [`next_log_index`] picks; appending
/// either grows it by one record or starts the next file with one record.
pub open spec fn rotation_step(state: Seq<nat>, cap: nat) -> Seq<nat> {
    let highest: nat = if state.len() == 0 {
        0
    } else {
        (state.len() - 1) as nat
    };
    let target_exists = state.len() > 0;
    let lines: nat = if state.len() == 0 {
        0
    } else {
        state.last()
    };
    let target = next_log_index(highest, target_exists, lines, cap);
    if target == state.len() {
        state.push(1)
    } else {
        state.update(target as int, (state[target as int] + 1) as nat)
    }
}

/// The record counts of a year directory's log files after `n` appends into
/// an initially empty directory, under capacity bound `cap`.
pub open spec fn rotation_state(n: nat, cap: nat) -> Seq<nat>
    decreases n,
{
    if n == 0 {
        Seq::empty()
    } else {
        rotation_step(rotation_state((n - 1) as nat, cap), cap)
    }
}

/// Shape of the store after `n` appends: every file holds at most `cap`
/// records, every file but the last holds exactly `cap`, and the last holds
/// the remainder.
pub proof fn lemma_rotation_shape(n: nat, cap: nat)
    requires
        cap > 0,
    ensures
        n == 0 ==> rotation_state(n, cap).len() == 0,
        n > 0 ==> rotation_state(n, cap).len() > 0,
        n > 0 ==> rotation_state(n, cap).last() + (rotation_state(n, cap).len() - 1) * cap == n,
        n > 0 ==> 1 <= rotation_state(n, cap).last() <= cap,
        forall|i: int|
            0 <= i < rotation_state(n, cap).len() - 1 ==> rotation_state(n, cap)[i] == cap,
        forall|i: int|
            0 <= i < rotation_state(n, cap).len() ==> rotation_state(n, cap)[i] <= cap,
    decreases n,
{
    if n > 0 {
        lemma_rotation_shape((n - 1) as nat, cap);
        let prev = rotation_state((n - 1) as nat, cap);
        let st = rotation_state(n, cap);
        if prev.len() == 0 {
            assert(st =~= seq![1nat]);
        } else if prev.last() < cap {
            assert(st == prev.update(prev.len() - 1, (prev.last() + 1) as nat));
            assert(st.last() == prev.last() + 1);
            assert(forall|i: int| 0 <= i < st.len() - 1 ==> st[i] == prev[i]);
        } else {
            assert(prev.last() == cap);
            assert(st == prev.push(1));
            assert((n - 1) as int == cap + (prev.len() - 1) * cap);
            assert(cap + (prev.len() - 1) * cap == prev.len() * cap) by (nonlinear_arith);
            assert(st.last() + (st.len() - 1) * cap == 1 + prev.len() * cap);
            assert(forall|i: int| 0 <= i < st.len() - 1 ==> st[i] == prev[i]);
        }
    }
}

/// Rotation correctness: `n` appends into an empty year directory, under
/// capacity bound `cap`, create exactly `ceil(n / cap)` log files; no file
/// ever exceeds `cap` records, and only the most recent file holds fewer.
pub proof fn lemma_rotation_correctness(n: nat, cap: nat)
    requires
        cap > 0,
    ensures
        rotation_state(n, cap).len() == (n + cap - 1) / (cap as int),
        forall|i: int|
            0 <= i < rotation_state(n, cap).len() ==> rotation_state(n, cap)[i] <= cap,
        forall|i: int|
            0 <= i < rotation_state(n, cap).len() - 1 ==> rotation_state(n, cap)[i] == cap,
{
    lemma_rotation_shape(n, cap);
    let st = rotation_state(n, cap);
    if n == 0 {
        assert((cap - 1) / (cap as int) == 0) by {
            vstd::arithmetic::div_mod::lemma_fundamental_div_mod_converse(
                cap as int - 1,
                cap as int,
                0,
                cap as int - 1,
            );
        }
    } else {
        let len = st.len() as int;
        let last = st.last() as int;
        assert(n + cap - 1 == len * cap + (last - 1)) by {
            assert(last + (len - 1) * cap == n);
            assert((len - 1) * cap + cap == len * cap) by (nonlinear_arith);
        }
        vstd::arithmetic::div_mod::lemma_fundamental_div_mod_converse(
            n + cap as int - 1,
            cap as int,
            len,
            last - 1,
        );
    }
}


/// The name of a year's directory: the year in decimal, a negative year
/// with a leading minus sign.
pub open spec fn year_name_spec(year: int) -> Seq<char> {
    if year >= 0 {
        dec_rep(year as nat)
    } else {
        seq!['-'] + dec_rep((-year) as nat)
    }
}

/// Builds the directory name for `year`.
pub fn year_dir_name(year: i32) -> (r: String)
    ensures
        r@ == year_name_spec(year as int),
{
    if year >= 0 {
        u64_to_string(year as u64)
    } else {
        let mut v: Vec<char> = Vec::new();
        v.push('-');
        let m = -(year as i64);
        push_dec_u64(m as u64, &mut v);
        proof {
            assert(v@ =~= seq!['-'] + dec_rep((-(year as int)) as nat));
        }
        chars_to_string(&v)
    }
}

/// Relies on chrono's `Utc::now` and `Datelike::year`: the year of the
/// current UTC instant.
#[verifier::external_body]
fn current_year() -> i32 {
    chrono::Datelike::year(&chrono::Utc::now())
}

/// The directory name of the current year: the name [`year_dir_name`] gives
/// for whatever year it is now.
pub fn current_year_dir_name() -> (r: String)
    ensures
        exists|y: int| r@ == year_name_spec(y),
{
    let y = current_year();
    let r = year_dir_name(y);
    proof {
        assert(r@ == year_name_spec(y as int));
    }
    r
}

} // verus!
