//! The aggregation engine: turns parsed record lines into two frequency
//! tables — by base command and by full invocation — and ranks them by
//! count, descending, keeping the original encounter order among ties.

use vstd::prelude::*;
use crate::record::{hex_val, hex_val_char, parse_entry_line, parse_entry_spec, serialize_entry_spec};
use crate::strutil::{
    chars_has_suffix, chars_to_string, copy_range, dec_rep, first_token, first_token_range,
    has_suffix, push_all, push_dec_u64, second_token, to_chars,
};

verus! {

/// The command has a base command at all: its text holds at least one
/// non-whitespace character.
pub open spec fn has_token(cmd: Seq<char>) -> bool {
    first_token(cmd).len() > 0
}

/// The base-command key of a command: its first token, normalised to
/// `python` when the token is a virtual environment's Python interpreter
/// (recognised by the interpreter's Windows executable suffix).
pub open spec fn base_key(cmd: Seq<char>) -> Seq<char> {
    if has_suffix(first_token(cmd), "python.exe"@) {
        "python"@
    } else {
        first_token(cmd)
    }
}

/// The invocation key of a command: its full text, except that a virtual
/// environment's Python interpreter collapses to `python` followed by the
/// first argument token (or `python` alone when there is none).
pub open spec fn invocation_key(cmd: Seq<char>) -> Seq<char> {
    if has_suffix(first_token(cmd), "python.exe"@) {
        if second_token(cmd).len() > 0 {
            "python "@ + second_token(cmd)
        } else {
            "python"@
        }
    } else {
        cmd
    }
}

/// The two keys a command is tallied under, or nothing for a command of
/// pure whitespace (which is tallied under neither table).
pub fn record_keys(command: &str) -> (r: Option<(String, String)>)
    ensures
        match r {
            Some(k) => has_token(command@) && k.0@ == base_key(command@) && k.1@
                == invocation_key(command@),
            None => !has_token(command@),
        },
{
    let v = to_chars(command);
    let (a, b) = first_token_range(&v);
    if a == b {
        return None;
    }
    let mut tok: Vec<char> = Vec::new();
    let mut i: usize = a;
    while i < b
        invariant
            a <= i <= b <= v@.len(),
            tok@ == v@.subrange(a as int, i as int),
        decreases b - i,
    {
        tok.push(v[i]);
        proof {
            assert(v@.subrange(a as int, i + 1 as int) =~= v@.subrange(a as int, i as int).push(
                v@[i as int],
            ));
        }
        i = i + 1;
    }
    assert(tok@ == first_token(v@));
    let pyexe = to_chars("python.exe");
    if chars_has_suffix(&tok, &pyexe) {
        let base = String::from_str("python");
        let mut rest: Vec<char> = Vec::new();
        let mut j: usize = b;
        while j < v.len()
            invariant
                b <= j <= v@.len(),
                rest@ == v@.subrange(b as int, j as int),
            decreases v@.len() - j,
        {
            rest.push(v[j]);
            proof {
                assert(v@.subrange(b as int, j + 1 as int) =~= v@.subrange(
                    b as int,
                    j as int,
                ).push(v@[j as int]));
            }
            j = j + 1;
        }
        proof {
            assert(rest@ =~= v@.skip(b as int));
            assert(second_token(v@) == first_token(rest@));
        }
        let (c, d) = first_token_range(&rest);
        if c == d {
            let inv = String::from_str("python");
            Some((base, inv))
        } else {
            let mut invc = to_chars("python ");
            let mut k: usize = c;
            while k < d
                invariant
                    c <= k <= d <= rest@.len(),
                    invc@ == "python "@ + rest@.subrange(c as int, k as int),
                decreases d - k,
            {
                invc.push(rest[k]);
                proof {
                    assert(rest@.subrange(c as int, k + 1 as int) =~= rest@.subrange(
                        c as int,
                        k as int,
                    ).push(rest@[k as int]));
                    assert("python "@ + rest@.subrange(c as int, k as int).push(rest@[k as int])
                        =~= ("python "@ + rest@.subrange(c as int, k as int)).push(
                        rest@[k as int],
                    ));
                }
                k = k + 1;
            }
            let inv = chars_to_string(&invc);
            Some((base, inv))
        }
    } else {
        let base = chars_to_string(&tok);
        let inv = String::from_str(command);
        Some((base, inv))
    }
}

/// A frequency table: keys with their occurrence counts, in the order the
/// keys were first encountered.
pub struct FrequencyTable {
    pub entries: Vec<(String, usize)>,
}

/// The mathematical value of a sequence of key/count pairs.
pub open spec fn entries_view(s: Seq<(String, usize)>) -> Seq<(Seq<char>, nat)> {
    s.map(|i: int, e: (String, usize)| (e.0@, e.1 as nat))
}

impl View for FrequencyTable {
    type V = Seq<(Seq<char>, nat)>;

    open spec fn view(&self) -> Seq<(Seq<char>, nat)> {
        entries_view(self.entries@)
    }
}

/// The sum of all counts of a table.
pub open spec fn total_count(t: Seq<(Seq<char>, nat)>) -> nat
    decreases t.len(),
{
    if t.len() == 0 {
        0
    } else {
        t[0].1 + total_count(t.drop_first())
    }
}

/// Every count is at most the total.
pub proof fn lemma_entry_le_total(t: Seq<(Seq<char>, nat)>, i: int)
    requires
        0 <= i < t.len(),
    ensures
        t[i].1 <= total_count(t),
    decreases i,
{
    if i > 0 {
        lemma_entry_le_total(t.drop_first(), i - 1);
    }
}

/// The total splits at any position into the prefix's and the rest's.
pub proof fn lemma_total_skip(t: Seq<(Seq<char>, nat)>, i: int)
    requires
        0 <= i <= t.len(),
    ensures
        total_count(t) == total_count(t.subrange(0, i)) + total_count(t.skip(i)),
    decreases i,
{
    if i == 0 {
        assert(t.subrange(0, 0) =~= Seq::<(Seq<char>, nat)>::empty());
        assert(t.skip(0) =~= t);
    } else {
        lemma_total_skip(t.drop_first(), i - 1);
        assert(t.drop_first().subrange(0, i - 1) =~= t.subrange(0, i).drop_first());
        assert(t.drop_first().skip(i - 1) =~= t.skip(i));
        assert(total_count(t.subrange(0, i)) == t.subrange(0, i)[0].1 + total_count(
            t.subrange(0, i).drop_first(),
        ));
    }
}

/// `t` with the count of `key` one higher: the first entry of that key is
/// bumped, and a missing key enters at the end with count `1`.
pub open spec fn bump(t: Seq<(Seq<char>, nat)>, key: Seq<char>) -> Seq<(Seq<char>, nat)>
    decreases t.len(),
{
    if t.len() == 0 {
        seq![(key, 1nat)]
    } else if t[0].0 == key {
        seq![(t[0].0, (t[0].1 + 1) as nat)] + t.drop_first()
    } else {
        seq![t[0]] + bump(t.drop_first(), key)
    }
}

/// When `key` first occurs at position `i`, bumping updates that entry.
pub proof fn lemma_bump_found(t: Seq<(Seq<char>, nat)>, key: Seq<char>, i: int)
    requires
        0 <= i < t.len(),
        t[i].0 == key,
        forall|j: int| 0 <= j < i ==> t[j].0 != key,
    ensures
        bump(t, key) == t.update(i, (key, (t[i].1 + 1) as nat)),
    decreases i,
{
    if i == 0 {
        assert(seq![(t[0].0, (t[0].1 + 1) as nat)] + t.drop_first() =~= t.update(
            0,
            (key, (t[0].1 + 1) as nat),
        ));
    } else {
        let t1 = t.drop_first();
        assert(forall|j: int| 0 <= j < i - 1 ==> t1[j].0 != key);
        lemma_bump_found(t1, key, i - 1);
        assert(seq![t[0]] + t1.update(i - 1, (key, (t[i].1 + 1) as nat)) =~= t.update(
            i,
            (key, (t[i].1 + 1) as nat),
        ));
    }
}

/// When `key` occurs nowhere, bumping appends a fresh entry of count one.
pub proof fn lemma_bump_missing(t: Seq<(Seq<char>, nat)>, key: Seq<char>)
    requires
        forall|j: int| 0 <= j < t.len() ==> t[j].0 != key,
    ensures
        bump(t, key) == t.push((key, 1nat)),
    decreases t.len(),
{
    if t.len() == 0 {
        assert(bump(t, key) =~= t.push((key, 1nat)));
    } else {
        lemma_bump_missing(t.drop_first(), key);
        assert(seq![t[0]] + t.drop_first().push((key, 1nat)) =~= t.push((key, 1nat)));
    }
}

/// Bumping raises the total by exactly one.
pub proof fn lemma_bump_total(t: Seq<(Seq<char>, nat)>, key: Seq<char>)
    ensures
        total_count(bump(t, key)) == total_count(t) + 1,
    decreases t.len(),
{
    if t.len() == 0 {
        let b = bump(t, key);
        assert(b == seq![(key, 1nat)]);
        assert(b.drop_first() =~= Seq::<(Seq<char>, nat)>::empty());
        assert(total_count(b) == b[0].1 + total_count(b.drop_first()));
        assert(total_count(b) == 1);
    } else if t[0].0 == key {
        let b = bump(t, key);
        assert(b.drop_first() =~= t.drop_first());
        assert(b[0].1 == t[0].1 + 1);
        assert(total_count(b) == b[0].1 + total_count(b.drop_first()));
        assert(total_count(t) == t[0].1 + total_count(t.drop_first()));
    } else {
        let b = bump(t, key);
        lemma_bump_total(t.drop_first(), key);
        assert(b.drop_first() =~= bump(t.drop_first(), key));
        assert(b[0] == t[0]);
        assert(total_count(b) == b[0].1 + total_count(b.drop_first()));
        assert(total_count(t) == t[0].1 + total_count(t.drop_first()));
    }
}

impl FrequencyTable {
    /// Well-formed: keys are distinct, counts are positive, and the total
    /// fits the machine.
    pub open spec fn wf(&self) -> bool {
        &&& forall|i: int, j: int| 0 <= i < j < self@.len() ==> self@[i].0 != self@[j].0
        &&& forall|i: int| 0 <= i < self@.len() ==> 1 <= self@[i].1
        &&& total_count(self@) <= usize::MAX
    }

    /// An empty table.
    pub fn new() -> (r: FrequencyTable)
        ensures
            r.wf(),
            r@ == Seq::<(Seq<char>, nat)>::empty(),
            total_count(r@) == 0,
    {
        let t = FrequencyTable { entries: Vec::new() };
        proof {
            assert(t@ =~= Seq::<(Seq<char>, nat)>::empty());
        }
        t
    }

    /// The number of distinct keys.
    pub fn len(&self) -> (r: usize)
        ensures
            r == self@.len(),
    {
        self.entries.len()
    }

    /// Raises the count of `key` by one, adding the key with count one on
    /// its first occurrence.
    pub fn increment(&mut self, key: String)
        requires
            old(self).wf(),
            total_count(old(self)@) < usize::MAX,
        ensures
            final(self).wf(),
            final(self)@ == bump(old(self)@, key@),
            total_count(final(self)@) == total_count(old(self)@) + 1,
    {
        let ghost t0 = self@;
        let n = self.entries.len();
        let mut i: usize = 0;
        while i < n
            invariant
                i <= n,
                n == self@.len(),
                self@ == t0,
                t0 == old(self)@,
                self.wf(),
                total_count(t0) < usize::MAX,
                forall|j: int| 0 <= j < i ==> self@[j].0 != key@,
            decreases n - i,
        {
            if self.entries[i].0 == key {
                proof {
                    assert(self@[i as int].0 == key@);
                    lemma_entry_le_total(t0, i as int);
                    lemma_bump_found(t0, key@, i as int);
                }
                let cnt = self.entries[i].1;
                self.entries[i] = (key, cnt + 1);
                proof {
                    assert(self@ =~= bump(t0, key@));
                    lemma_bump_total(t0, key@);
                }
                return ;
            }
            i = i + 1;
        }
        proof {
            lemma_bump_missing(t0, key@);
        }
        self.entries.push((key, 1));
        proof {
            assert(self@ =~= bump(t0, key@));
            lemma_bump_total(t0, key@);
        }
    }

    /// The sum of all counts: the number of records tallied into the table.
    pub fn total(&self) -> (r: usize)
        requires
            self.wf(),
        ensures
            r as nat == total_count(self@),
    {
        let ghost t = self@;
        let n = self.entries.len();
        let mut acc: usize = 0;
        let mut i: usize = 0;
        while i < n
            invariant
                i <= n,
                n == self@.len(),
                self@ == t,
                self.wf(),
                acc as nat == total_count(t.subrange(0, i as int)),
            decreases n - i,
        {
            proof {
                lemma_total_skip(t, i as int);
                lemma_total_skip(t, i + 1);
                assert(t.skip(i as int)[0] == t[i as int]);
                assert(t.skip(i as int).drop_first() =~= t.skip(i + 1));
                assert(total_count(t.subrange(0, i + 1)) == total_count(t.subrange(0, i as int))
                    + t[i as int].1);
            }
            let c = self.entries[i].1;
            acc = acc + c;
            i = i + 1;
        }
        proof {
            assert(t.subrange(0, n as int) =~= t);
        }
        acc
    }
}

/// The commands of the records that parse from `lines`, in line order.
pub open spec fn parsed_commands(lines: Seq<Seq<char>>) -> Seq<Seq<char>>
    decreases lines.len(),
{
    if lines.len() == 0 {
        Seq::empty()
    } else {
        let prev = parsed_commands(lines.drop_last());
        match parse_entry_spec(lines.last()) {
            Some(p) => prev.push(p.0),
            None => prev,
        }
    }
}

/// `t` after tallying each command of `cmds` under its base-command key;
/// a command of pure whitespace is tallied under nothing.
pub open spec fn tally_base_into(t: Seq<(Seq<char>, nat)>, cmds: Seq<Seq<char>>) -> Seq<
    (Seq<char>, nat),
>
    decreases cmds.len(),
{
    if cmds.len() == 0 {
        t
    } else {
        let prev = tally_base_into(t, cmds.drop_last());
        if has_token(cmds.last()) {
            bump(prev, base_key(cmds.last()))
        } else {
            prev
        }
    }
}

/// `t` after tallying each command of `cmds` under its invocation key;
/// a command of pure whitespace is tallied under nothing.
pub open spec fn tally_inv_into(t: Seq<(Seq<char>, nat)>, cmds: Seq<Seq<char>>) -> Seq<
    (Seq<char>, nat),
>
    decreases cmds.len(),
{
    if cmds.len() == 0 {
        t
    } else {
        let prev = tally_inv_into(t, cmds.drop_last());
        if has_token(cmds.last()) {
            bump(prev, invocation_key(cmds.last()))
        } else {
            prev
        }
    }
}

/// How many of `cmds` have a base command at all.
pub open spec fn token_count(cmds: Seq<Seq<char>>) -> nat
    decreases cmds.len(),
{
    if cmds.len() == 0 {
        0
    } else {
        token_count(cmds.drop_last()) + if has_token(cmds.last()) {
            1nat
        } else {
            0nat
        }
    }
}

/// Tallying adds one to a table's total for every command with a token.
pub proof fn lemma_tally_total(t: Seq<(Seq<char>, nat)>, cmds: Seq<Seq<char>>)
    ensures
        total_count(tally_base_into(t, cmds)) == total_count(t) + token_count(cmds),
        total_count(tally_inv_into(t, cmds)) == total_count(t) + token_count(cmds),
    decreases cmds.len(),
{
    if cmds.len() > 0 {
        lemma_tally_total(t, cmds.drop_last());
        if has_token(cmds.last()) {
            lemma_bump_total(tally_base_into(t, cmds.drop_last()), base_key(cmds.last()));
            lemma_bump_total(tally_inv_into(t, cmds.drop_last()), invocation_key(cmds.last()));
        }
    }
}

/// Tally conservation: over any set of well-formed records — every command
/// holds a token — the base-command table's total, the invocation table's
/// total and the number of records are all equal.
pub proof fn lemma_tally_conservation(cmds: Seq<Seq<char>>)
    requires
        forall|i: int| 0 <= i < cmds.len() ==> has_token(#[trigger] cmds[i]),
    ensures
        total_count(tally_base_into(Seq::empty(), cmds)) == cmds.len(),
        total_count(tally_inv_into(Seq::empty(), cmds)) == cmds.len(),
{
    lemma_tally_total(Seq::empty(), cmds);
    lemma_token_count_all(cmds);
}

/// When every command holds a token, the token count is the length.
proof fn lemma_token_count_all(cmds: Seq<Seq<char>>)
    requires
        forall|i: int| 0 <= i < cmds.len() ==> has_token(#[trigger] cmds[i]),
    ensures
        token_count(cmds) == cmds.len(),
    decreases cmds.len(),
{
    if cmds.len() > 0 {
        lemma_token_count_all(cmds.drop_last());
    }
}

/// Tallies every line of one log file into the two tables: each parsable
/// line's record under its base-command key and its invocation key, lines
/// of any other shape under neither.
pub fn tally_log_file(
    lines: &Vec<String>,
    command_table: &mut FrequencyTable,
    invocation_table: &mut FrequencyTable,
)
    requires
        old(command_table).wf(),
        old(invocation_table).wf(),
        total_count(old(command_table)@) + lines@.len() <= usize::MAX,
        total_count(old(invocation_table)@) + lines@.len() <= usize::MAX,
    ensures
        final(command_table).wf(),
        final(invocation_table).wf(),
        final(command_table)@ == tally_base_into(
            old(command_table)@,
            parsed_commands(lines.deep_view()),
        ),
        final(invocation_table)@ == tally_inv_into(
            old(invocation_table)@,
            parsed_commands(lines.deep_view()),
        ),
        total_count(final(command_table)@) <= total_count(old(command_table)@) + lines@.len(),
        total_count(final(invocation_table)@) <= total_count(old(invocation_table)@)
            + lines@.len(),
{
    let ghost c0 = old(command_table)@;
    let ghost v0 = old(invocation_table)@;
    let ghost ls = lines.deep_view();
    let n = lines.len();
    let mut i: usize = 0;
    while i < n
        invariant
            i <= n,
            n == lines@.len(),
            ls == lines.deep_view(),
            ls.len() == n,
            c0 == old(command_table)@,
            v0 == old(invocation_table)@,
            total_count(c0) + n <= usize::MAX,
            total_count(v0) + n <= usize::MAX,
            command_table.wf(),
            invocation_table.wf(),
            command_table@ == tally_base_into(c0, parsed_commands(ls.subrange(0, i as int))),
            invocation_table@ == tally_inv_into(v0, parsed_commands(ls.subrange(0, i as int))),
            total_count(command_table@) <= total_count(c0) + i,
            total_count(invocation_table@) <= total_count(v0) + i,
        decreases n - i,
    {
        let ghost pre = parsed_commands(ls.subrange(0, i as int));
        proof {
            assert(ls.subrange(0, i + 1).drop_last() =~= ls.subrange(0, i as int));
            assert(ls.subrange(0, i + 1).last() == ls[i as int]);
            assert(ls[i as int] == lines@[i as int]@);
        }
        let line: &String = &lines[i];
        match parse_entry_line(line.as_str()) {
            Some(entry) => {
                proof {
                    assert(parse_entry_spec(ls[i as int]) == Some(
                        (entry.command@, entry.timestamp@),
                    ));
                    assert(parsed_commands(ls.subrange(0, i + 1)) == pre.push(entry.command@));
                    assert(pre.push(entry.command@).drop_last() =~= pre);
                }
                match record_keys(entry.command.as_str()) {
                    Some(keys) => {
                        let (bk, ik) = keys;
                        command_table.increment(bk);
                        invocation_table.increment(ik);
                    },
                    None => {
                    },
                }
            },
            None => {
                proof {
                    assert(parsed_commands(ls.subrange(0, i + 1)) == pre);
                }
            },
        }
        i = i + 1;
    }
    proof {
        assert(ls.subrange(0, n as int) =~= ls);
    }
}

/// Parsing distributes over concatenation of line sequences.
pub proof fn lemma_parsed_concat(a: Seq<Seq<char>>, b: Seq<Seq<char>>)
    ensures
        parsed_commands(a + b) == parsed_commands(a) + parsed_commands(b),
    decreases b.len(),
{
    if b.len() == 0 {
        assert(a + b =~= a);
        assert(parsed_commands(a) + parsed_commands(b) =~= parsed_commands(a));
    } else {
        lemma_parsed_concat(a, b.drop_last());
        assert((a + b).drop_last() =~= a + b.drop_last());
        assert((a + b).last() == b.last());
        match parse_entry_spec(b.last()) {
            Some(p) => {
                assert((parsed_commands(a) + parsed_commands(b.drop_last())).push(p.0)
                    =~= parsed_commands(a) + parsed_commands(b.drop_last()).push(p.0));
            },
            None => {
            },
        }
    }
}

/// Tallying composes: tallying a concatenation is tallying the parts in
/// turn.
pub proof fn lemma_tally_concat(t: Seq<(Seq<char>, nat)>, a: Seq<Seq<char>>, b: Seq<Seq<char>>)
    ensures
        tally_base_into(t, a + b) == tally_base_into(tally_base_into(t, a), b),
        tally_inv_into(t, a + b) == tally_inv_into(tally_inv_into(t, a), b),
    decreases b.len(),
{
    if b.len() == 0 {
        assert(a + b =~= a);
    } else {
        lemma_tally_concat(t, a, b.drop_last());
        assert((a + b).drop_last() =~= a + b.drop_last());
        assert((a + b).last() == b.last());
    }
}

/// At most every command holds a token.
proof fn lemma_token_count_le(cmds: Seq<Seq<char>>)
    ensures
        token_count(cmds) <= cmds.len(),
    decreases cmds.len(),
{
    if cmds.len() > 0 {
        lemma_token_count_le(cmds.drop_last());
    }
}

/// At most every line parses.
proof fn lemma_parsed_le(lines: Seq<Seq<char>>)
    ensures
        parsed_commands(lines).len() <= lines.len(),
    decreases lines.len(),
{
    if lines.len() > 0 {
        lemma_parsed_le(lines.drop_last());
    }
}

/// The two frequency tables over all scanned log files: every file's lines
/// tallied in file order, files in the caller's traversal order.
pub fn get_command_invocation_maps(files: &Vec<Vec<String>>) -> (r: (
    FrequencyTable,
    FrequencyTable,
))
    requires
        files.deep_view().flatten().len() <= usize::MAX,
    ensures
        r.0.wf(),
        r.1.wf(),
        r.0@ == tally_base_into(Seq::empty(), parsed_commands(files.deep_view().flatten())),
        r.1@ == tally_inv_into(Seq::empty(), parsed_commands(files.deep_view().flatten())),
        total_count(r.0@) <= files.deep_view().flatten().len(),
        total_count(r.1@) <= files.deep_view().flatten().len(),
{
    let ghost fs = files.deep_view();
    let mut command_table = FrequencyTable::new();
    let mut invocation_table = FrequencyTable::new();
    let n = files.len();
    let mut i: usize = 0;
    proof {
        assert(fs.subrange(0, 0).flatten() =~= Seq::<Seq<char>>::empty());
        assert(parsed_commands(Seq::<Seq<char>>::empty()) =~= Seq::<Seq<char>>::empty());
    }
    while i < n
        invariant
            i <= n,
            n == files@.len(),
            fs == files.deep_view(),
            fs.len() == n,
            fs.flatten().len() <= usize::MAX,
            command_table.wf(),
            invocation_table.wf(),
            command_table@ == tally_base_into(
                Seq::empty(),
                parsed_commands(fs.subrange(0, i as int).flatten()),
            ),
            invocation_table@ == tally_inv_into(
                Seq::empty(),
                parsed_commands(fs.subrange(0, i as int).flatten()),
            ),
            total_count(command_table@) <= fs.subrange(0, i as int).flatten().len(),
            total_count(invocation_table@) <= fs.subrange(0, i as int).flatten().len(),
        decreases n - i,
    {
        let ghost pre = fs.subrange(0, i as int);
        let ghost cur = fs.subrange(0, i + 1);
        proof {
            assert(cur =~= pre.push(fs[i as int]));
            pre.lemma_flatten_push(fs[i as int]);
            assert(fs =~= cur + fs.skip(i + 1));
            vstd::seq_lib::lemma_flatten_concat(cur, fs.skip(i + 1));
            assert(cur.flatten().len() <= fs.flatten().len());
            lemma_parsed_concat(pre.flatten(), fs[i as int]);
            lemma_tally_concat(
                Seq::empty(),
                parsed_commands(pre.flatten()),
                parsed_commands(fs[i as int]),
            );
        }
        let file: &Vec<String> = &files[i];
        proof {
            assert(fs[i as int] == file.deep_view());
        }
        tally_log_file(file, &mut command_table, &mut invocation_table);
        i = i + 1;
    }
    proof {
        assert(fs.subrange(0, n as int) =~= fs);
    }
    (command_table, invocation_table)
}


/// Entries in descending count order.
pub open spec fn sorted_desc(t: Seq<(Seq<char>, nat)>) -> bool {
    forall|i: int, j: int| 0 <= i < j < t.len() ==> t[i].1 >= t[j].1
}

/// The predicate of entries counted exactly `c` times.
pub open spec fn count_is(c: nat) -> spec_fn((Seq<char>, nat)) -> bool {
    |x: (Seq<char>, nat)| x.1 == c
}

/// Inserts `e` after every entry whose count is at least `e`'s.
pub open spec fn insert_desc(t: Seq<(Seq<char>, nat)>, e: (Seq<char>, nat)) -> Seq<
    (Seq<char>, nat),
>
    decreases t.len(),
{
    if t.len() == 0 {
        seq![e]
    } else if t.last().1 >= e.1 {
        t.push(e)
    } else {
        insert_desc(t.drop_last(), e).push(t.last())
    }
}

/// Stable descending sort by count: entries in descending count order, ties
/// kept in their original order.
pub open spec fn sort_by_count(t: Seq<(Seq<char>, nat)>) -> Seq<(Seq<char>, nat)>
    decreases t.len(),
{
    if t.len() == 0 {
        t
    } else {
        insert_desc(sort_by_count(t.drop_last()), t.last())
    }
}

/// Where the insertion lands: `e` enters right before the first entry of
/// strictly smaller count.
pub proof fn lemma_insert_desc_at(t: Seq<(Seq<char>, nat)>, e: (Seq<char>, nat), p: int)
    requires
        0 <= p <= t.len(),
        forall|j: int| p <= j < t.len() ==> t[j].1 < e.1,
        p == 0 || t[p - 1].1 >= e.1,
    ensures
        insert_desc(t, e) == t.insert(p, e),
    decreases t.len(),
{
    if t.len() == 0 {
        assert(seq![e] =~= t.insert(0, e));
    } else if t.last().1 >= e.1 {
        assert(p == t.len());
        assert(t.push(e) =~= t.insert(t.len() as int, e));
    } else {
        assert(p < t.len());
        let tdl = t.drop_last();
        assert(forall|j: int| p <= j < tdl.len() ==> tdl[j].1 < e.1);
        lemma_insert_desc_at(tdl, e, p);
        assert(tdl.insert(p, e).push(t.last()) =~= t.insert(p, e));
    }
}

/// Every count in `insert_desc(t, e)` is one of `t`'s or `e`'s, so a lower
/// bound on them all is kept.
proof fn lemma_insert_desc_lower(t: Seq<(Seq<char>, nat)>, e: (Seq<char>, nat), b: nat)
    requires
        forall|j: int| 0 <= j < t.len() ==> t[j].1 >= b,
        e.1 >= b,
    ensures
        forall|j: int| 0 <= j < insert_desc(t, e).len() ==> insert_desc(t, e)[j].1 >= b,
    decreases t.len(),
{
    if t.len() == 0 {
        assert(insert_desc(t, e) == seq![e]);
    } else if t.last().1 >= e.1 {
        let x = t.push(e);
        assert(forall|j: int| 0 <= j < x.len() ==> x[j].1 >= b) by {
            assert(forall|j: int| 0 <= j < t.len() ==> x[j] == t[j]);
            assert(x[t.len() as int] == e);
        }
    } else {
        let tdl = t.drop_last();
        assert(forall|j: int| 0 <= j < tdl.len() ==> tdl[j].1 >= b);
        lemma_insert_desc_lower(tdl, e, b);
        let x = insert_desc(tdl, e);
        let y = x.push(t.last());
        assert(forall|j: int| 0 <= j < y.len() ==> y[j].1 >= b) by {
            assert(forall|j: int| 0 <= j < x.len() ==> y[j] == x[j]);
            assert(y[x.len() as int] == t.last());
        }
    }
}

/// Inserting keeps the order: the result of inserting into a descending
/// table is descending.
pub proof fn lemma_insert_desc_sorted(t: Seq<(Seq<char>, nat)>, e: (Seq<char>, nat))
    requires
        sorted_desc(t),
    ensures
        sorted_desc(insert_desc(t, e)),
        insert_desc(t, e).len() == t.len() + 1,
    decreases t.len(),
{
    if t.len() == 0 {
    } else if t.last().1 >= e.1 {
        assert(forall|j: int| 0 <= j < t.len() ==> t[j].1 >= e.1);
    } else {
        let tdl = t.drop_last();
        assert(sorted_desc(tdl));
        lemma_insert_desc_sorted(tdl, e);
        let x = insert_desc(tdl, e);
        assert(forall|j: int| 0 <= j < tdl.len() ==> tdl[j].1 >= t.last().1);
        lemma_insert_desc_lower(tdl, e, t.last().1);
        assert(forall|j: int| 0 <= j < x.len() ==> x[j].1 >= t.last().1);
        assert(sorted_desc(x.push(t.last())));
    }
}

/// Ranking is sorted: the stable sort yields a table of the same length in
/// descending count order.
pub proof fn lemma_ranking_sorted(t: Seq<(Seq<char>, nat)>)
    ensures
        sorted_desc(sort_by_count(t)),
        sort_by_count(t).len() == t.len(),
    decreases t.len(),
{
    if t.len() > 0 {
        lemma_ranking_sorted(t.drop_last());
        lemma_insert_desc_sorted(sort_by_count(t.drop_last()), t.last());
    }
}

/// Insertion respects ties: the entries of any one count, in order, gain
/// exactly `e` at the end when `e` has that count, and stay as they are
/// otherwise.
proof fn lemma_insert_desc_filter(t: Seq<(Seq<char>, nat)>, e: (Seq<char>, nat), c: nat)
    ensures
        e.1 == c ==> insert_desc(t, e).filter(count_is(c)) == t.filter(count_is(c)).push(e),
        e.1 != c ==> insert_desc(t, e).filter(count_is(c)) == t.filter(count_is(c)),
    decreases t.len(),
{
    broadcast use Seq::lemma_filter_push;

    let pc = count_is(c);
    if t.len() == 0 {
        assert(seq![e] =~= Seq::<(Seq<char>, nat)>::empty().push(e));
        assert(Seq::<(Seq<char>, nat)>::empty().filter(pc) == Seq::<(Seq<char>, nat)>::empty());
        assert(t.filter(pc) == Seq::<(Seq<char>, nat)>::empty());
    } else if t.last().1 >= e.1 {
        assert(insert_desc(t, e) == t.push(e));
    } else {
        let tdl = t.drop_last();
        lemma_insert_desc_filter(tdl, e, c);
        let x = insert_desc(tdl, e);
        assert(insert_desc(t, e) == x.push(t.last()));
        assert(t =~= tdl.push(t.last()));
        assert(t.last().1 < e.1);
        if e.1 == c {
            assert(!pc(t.last()));
            assert(x.push(t.last()).filter(pc) == x.filter(pc));
            assert(tdl.push(t.last()).filter(pc) == tdl.filter(pc));
        }
    }
}

/// Ranking stability: among entries of one count, the sort keeps exactly
/// the original entries in their original order.
pub proof fn lemma_ranking_stable(t: Seq<(Seq<char>, nat)>, c: nat)
    ensures
        sort_by_count(t).filter(count_is(c)) == t.filter(count_is(c)),
    decreases t.len(),
{
    broadcast use Seq::lemma_filter_push;

    let pc = count_is(c);
    if t.len() > 0 {
        let tdl = t.drop_last();
        lemma_ranking_stable(tdl, c);
        lemma_insert_desc_filter(sort_by_count(tdl), t.last(), c);
        assert(t =~= tdl.push(t.last()));
        assert(tdl.push(t.last()).filter(pc) == if pc(t.last()) {
            tdl.filter(pc).push(t.last())
        } else {
            tdl.filter(pc)
        });
    }
}

/// Ranks a frequency table: its entries sorted by count, descending, ties
/// kept in the order the keys were first encountered.
pub fn sort_map(table: FrequencyTable) -> (r: Vec<(String, usize)>)
    ensures
        entries_view(r@) == sort_by_count(table@),
{
    let ghost t0 = table@;
    let entries = table.entries;
    let mut out: Vec<(String, usize)> = Vec::new();
    let n = entries.len();
    let mut i: usize = 0;
    proof {
        assert(entries_view(out@) =~= sort_by_count(entries_view(entries@.subrange(0, 0))));
        assert(entries_view(entries@.subrange(0, 0)) =~= Seq::<(Seq<char>, nat)>::empty());
    }
    while i < n
        invariant
            i <= n,
            n == entries@.len(),
            entries_view(entries@) == t0,
            entries_view(out@) == sort_by_count(entries_view(entries@.subrange(0, i as int))),
        decreases n - i,
    {
        let e = (entries[i].0.clone(), entries[i].1);
        let ghost ev = (entries@[i as int].0@, entries@[i as int].1 as nat);
        let mut p: usize = out.len();
        while p > 0 && out[p - 1].1 < e.1
            invariant
                p <= out@.len(),
                forall|j: int| p <= j < out@.len() ==> (#[trigger] out@[j]).1 < e.1,
            decreases p,
        {
            p = p - 1;
        }
        proof {
            let ov = entries_view(out@);
            assert(forall|j: int| p <= j < ov.len() ==> (#[trigger] ov[j]).1 < ev.1);
            assert(p == 0 || ov[p - 1].1 >= ev.1);
            lemma_insert_desc_at(ov, ev, p as int);
        }
        out.insert(p, e);
        proof {
            let pre = entries_view(entries@.subrange(0, i as int));
            let cur = entries_view(entries@.subrange(0, i + 1));
            assert(cur.drop_last() =~= pre);
            assert(cur.last() == ev);
            assert(entries_view(out@) =~= insert_desc(sort_by_count(pre), ev));
        }
        i = i + 1;
    }
    proof {
        assert(entries@.subrange(0, n as int) =~= entries@);
    }
    out
}


/// Virtual-environment normalisation: any two commands that invoke a
/// virtual environment's Python interpreter with the same first argument
/// share one base-command key — `python` — and one invocation key.
pub proof fn lemma_venv_normalization(c1: Seq<char>, c2: Seq<char>)
    requires
        has_suffix(first_token(c1), "python.exe"@),
        has_suffix(first_token(c2), "python.exe"@),
        second_token(c1) == second_token(c2),
    ensures
        base_key(c1) == "python"@,
        base_key(c2) == "python"@,
        invocation_key(c1) == invocation_key(c2),
{
}

/// At most the top `n` entries of a ranked list, for presentation; a
/// shorter list is returned whole.
pub fn render_top_n(ranked: &Vec<(String, usize)>, n: usize) -> (r: Vec<(String, usize)>)
    ensures
        r@ == ranked@.subrange(
            0,
            if n <= ranked@.len() {
                n as int
            } else {
                ranked@.len() as int
            },
        ),
{
    let m = if n <= ranked.len() {
        n
    } else {
        ranked.len()
    };
    let mut r: Vec<(String, usize)> = Vec::new();
    let mut i: usize = 0;
    proof {
        assert(r@ =~= ranked@.subrange(0, 0));
    }
    while i < m
        invariant
            i <= m <= ranked@.len(),
            r@ == ranked@.subrange(0, i as int),
        decreases m - i,
    {
        let e = (ranked[i].0.clone(), ranked[i].1);
        proof {
            assert(e == ranked@[i as int]);
        }
        r.push(e);
        proof {
            assert(ranked@.subrange(0, i + 1 as int) =~= ranked@.subrange(0, i as int).push(
                ranked@[i as int],
            ));
        }
        i = i + 1;
    }
    r
}

/// A run of `k` zero characters.
pub open spec fn zeros(k: nat) -> Seq<char>
    decreases k,
{
    if k == 0 {
        Seq::empty()
    } else {
        zeros((k - 1) as nat).push('0')
    }
}

/// A count formatted six digits wide: its decimal representation, filled
/// with leading zeros up to width six (wider counts stand as they are).
pub open spec fn padded_count(n: nat) -> Seq<char> {
    let d = dec_rep(n);
    if d.len() >= 6 {
        d
    } else {
        zeros((6 - d.len()) as nat) + d
    }
}

/// How many zero characters `s` starts with.
pub open spec fn leading_zeros(s: Seq<char>) -> nat
    decreases s.len(),
{
    if s.len() == 0 || s[0] != '0' {
        0
    } else {
        1 + leading_zeros(s.drop_first())
    }
}

/// The zero run reaches to position `i`: `leading_zeros(s)` is the first
/// position holding another character.
proof fn lemma_leading_zeros_at(s: Seq<char>, i: int)
    requires
        0 <= i <= s.len(),
        forall|j: int| 0 <= j < i ==> s[j] == '0',
        i == s.len() || s[i] != '0',
    ensures
        leading_zeros(s) == i,
    decreases i,
{
    if i > 0 {
        let t = s.drop_first();
        assert(forall|j: int| 0 <= j < i - 1 ==> t[j] == '0');
        lemma_leading_zeros_at(t, i - 1);
    }
}

/// A count split for presentation: the zero filling, and the count itself
/// — the two concatenate to the six-wide form of [`padded_count`].
pub fn format_count(count: usize) -> (r: (String, String))
    ensures
        r.0@ == padded_count(count as nat).subrange(
            0,
            leading_zeros(padded_count(count as nat)) as int,
        ),
        r.1@ == padded_count(count as nat).skip(leading_zeros(padded_count(count as nat)) as int),
        r.0@ + r.1@ == padded_count(count as nat),
{
    let ghost p = padded_count(count as nat);
    let mut digits: Vec<char> = Vec::new();
    push_dec_u64(count as u64, &mut digits);
    assert(digits@ == dec_rep(count as nat));
    let mut padded: Vec<char> = Vec::new();
    let d = digits.len();
    let padn: usize = if d >= 6 {
        0
    } else {
        6 - d
    };
    let mut c: usize = 0;
    while c < padn
        invariant
            c <= padn,
            padded@.len() == c,
            padded@ == zeros(c as nat),
        decreases padn - c,
    {
        padded.push('0');
        c = c + 1;
    }
    push_all(&digits, &mut padded);
    proof {
        assert(padded@ == p);
    }
    let n = padded.len();
    let mut i: usize = 0;
    while i < n && padded[i] == '0'
        invariant
            i <= n,
            n == padded@.len(),
            forall|j: int| 0 <= j < i ==> padded@[j] == '0',
        decreases n - i,
    {
        i = i + 1;
    }
    proof {
        lemma_leading_zeros_at(padded@, i as int);
    }
    let lead = copy_range(&padded, 0, i);
    let tail = copy_range(&padded, i, n);
    proof {
        assert(padded@.subrange(i as int, n as int) =~= padded@.skip(i as int));
        assert(padded@.subrange(0, i as int) + padded@.skip(i as int) =~= padded@);
    }
    (chars_to_string(&lead), chars_to_string(&tail))
}

/// `s` with every leading `#` removed.
pub open spec fn drop_leading_hashes(s: Seq<char>) -> Seq<char>
    decreases s.len(),
{
    if s.len() > 0 && s[0] == '#' {
        drop_leading_hashes(s.drop_first())
    } else {
        s
    }
}

/// The colour a hex code denotes: exactly six hexadecimal digits after the
/// leading `#` signs, read as three channel bytes.
pub open spec fn hex_color_spec(s: Seq<char>) -> Option<(nat, nat, nat)> {
    let t = drop_leading_hashes(s);
    if t.len() == 6 && (forall|j: int| 0 <= j < 6 ==> hex_val(#[trigger] t[j]) is Some) {
        Some(
            (
                hex_val(t[0]).unwrap() * 16 + hex_val(t[1]).unwrap(),
                hex_val(t[2]).unwrap() * 16 + hex_val(t[3]).unwrap(),
                hex_val(t[4]).unwrap() * 16 + hex_val(t[5]).unwrap(),
            ),
        )
    } else {
        None
    }
}

/// The `#` run reaches to position `i`: what remains is `s.skip(i)`.
proof fn lemma_drop_hashes_at(s: Seq<char>, i: int)
    requires
        0 <= i <= s.len(),
        forall|j: int| 0 <= j < i ==> s[j] == '#',
        i == s.len() || s[i] != '#',
    ensures
        drop_leading_hashes(s) == s.skip(i),
    decreases i,
{
    if i == 0 {
        assert(s.skip(0) =~= s);
    } else {
        let t = s.drop_first();
        assert(forall|j: int| 0 <= j < i - 1 ==> t[j] == '#');
        lemma_drop_hashes_at(t, i - 1);
        assert(t.skip(i - 1) =~= s.skip(i));
    }
}

/// Reads a colour of the form `#rrggbb` into its three channel bytes;
/// anything else yields nothing.
pub fn parse_hex_color(hex: &str) -> (r: Option<(u8, u8, u8)>)
    ensures
        match r {
            Some(c) => hex_color_spec(hex@) == Some((c.0 as nat, c.1 as nat, c.2 as nat)),
            None => hex_color_spec(hex@) is None,
        },
{
    let v = to_chars(hex);
    let n = v.len();
    let mut i: usize = 0;
    while i < n && v[i] == '#'
        invariant
            i <= n,
            n == v@.len(),
            forall|j: int| 0 <= j < i ==> v@[j] == '#',
        decreases n - i,
    {
        i = i + 1;
    }
    proof {
        lemma_drop_hashes_at(v@, i as int);
        assert(drop_leading_hashes(v@) == v@.skip(i as int));
    }
    let ghost t = v@.skip(i as int);
    if n - i != 6 {
        return None;
    }
    let mut vals: Vec<u8> = Vec::new();
    let mut k: usize = 0;
    while k < 6
        invariant
            k <= 6,
            i + 6 == n,
            n == v@.len(),
            v@ == hex@,
            t == v@.skip(i as int),
            t == drop_leading_hashes(hex@),
            t.len() == 6,
            vals@.len() == k,
            forall|j: int|
                0 <= j < k ==> hex_val(#[trigger] t[j]) == Some(vals@[j] as nat) && vals@[j] < 16,
        decreases 6 - k,
    {
        proof {
            assert(t[k as int] == v@[i + k]);
        }
        match hex_val_char(v[i + k]) {
            Some(x) => {
                vals.push(x);
            },
            None => {
                proof {
                    assert(hex_val(t[k as int]) is None);
                    assert(!(forall|j: int| 0 <= j < 6 ==> hex_val(#[trigger] t[j]) is Some));
                }
                return None;
            },
        }
        k = k + 1;
    }
    let red = vals[0] * 16 + vals[1];
    let green = vals[2] * 16 + vals[3];
    let blue = vals[4] * 16 + vals[5];
    Some((red, green, blue))
}


/// Lines written by the encoder parse back to their commands: the parsed
/// commands of a sequence of record lines are the commands they were
/// written from, in order.
pub proof fn lemma_parsed_serialized(recs: Seq<(Seq<char>, Seq<char>)>)
    ensures
        parsed_commands(recs.map(|i: int, r: (Seq<char>, Seq<char>)| serialize_entry_spec(r.0, r.1)))
            == recs.map(|i: int, r: (Seq<char>, Seq<char>)| r.0),
    decreases recs.len(),
{
    let ser = |i: int, r: (Seq<char>, Seq<char>)| serialize_entry_spec(r.0, r.1);
    let fst = |i: int, r: (Seq<char>, Seq<char>)| r.0;
    if recs.len() == 0 {
        assert(recs.map(ser) =~= Seq::<Seq<char>>::empty());
        assert(recs.map(fst) =~= Seq::<Seq<char>>::empty());
    } else {
        let pre = recs.drop_last();
        lemma_parsed_serialized(pre);
        let last = recs.last();
        assert(recs.map(ser).drop_last() =~= pre.map(ser));
        assert(recs.map(ser).last() == serialize_entry_spec(last.0, last.1));
        crate::record::lemma_parse_serialize(last.0, last.1);
        assert(recs.map(fst) =~= pre.map(fst).push(last.0));
    }
}


} // verus!
