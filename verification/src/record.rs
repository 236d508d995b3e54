//! The record line format: one JSON object per line, holding the command
//! text and its timestamp. This module defines the format itself — string
//! escaping, encoding of a record, and a parser for the canonical shape the
//! encoder writes — so that a line round-trips to exactly the record it was
//! written from, and garbage is recognised and skipped.

use vstd::prelude::*;
use crate::strutil::{chars_to_string, has_prefix, push_all, range_has_prefix, to_chars};

verus! {

/// One logged command invocation: the full command text and the RFC 3339
/// rendering of the instant it was recorded.
pub struct CommandEntry {
    pub command: String,
    pub timestamp: String,
}

/// The lower-case hexadecimal digit character for `d` (meaningful for
/// `d < 16`).
pub open spec fn hex_digit(d: nat) -> char {
    if d < 10 {
        (48 + d) as char
    } else {
        (87 + d) as char
    }
}

/// How a character is written inside a JSON string: quote, backslash and
/// control characters are escaped, every other character stands for itself.
pub open spec fn escape_char(c: char) -> Seq<char> {
    if c == '"' {
        seq!['\\', '"']
    } else if c == '\\' {
        seq!['\\', '\\']
    } else if c == '\u{8}' {
        seq!['\\', 'b']
    } else if c == '\u{c}' {
        seq!['\\', 'f']
    } else if c == '\n' {
        seq!['\\', 'n']
    } else if c == '\r' {
        seq!['\\', 'r']
    } else if c == '\t' {
        seq!['\\', 't']
    } else if (c as u32) < 32 {
        seq!['\\', 'u', '0', '0', hex_digit(((c as u32) / 16) as nat), hex_digit(
            ((c as u32) % 16) as nat,
        )]
    } else {
        seq![c]
    }
}

/// The JSON escaping of a whole string.
pub open spec fn escape_string(s: Seq<char>) -> Seq<char>
    decreases s.len(),
{
    if s.len() == 0 {
        Seq::empty()
    } else {
        escape_char(s[0]) + escape_string(s.drop_first())
    }
}

/// Escaping distributes over appending one character at the end.
pub proof fn lemma_escape_push(s: Seq<char>, c: char)
    ensures
        escape_string(s.push(c)) == escape_string(s) + escape_char(c),
    decreases s.len(),
{
    if s.len() == 0 {
        let t = s.push(c);
        assert(t[0] == c);
        assert(t.drop_first() =~= Seq::<char>::empty());
        assert(escape_string(t) == escape_char(c) + escape_string(Seq::<char>::empty()));
        assert(escape_char(c) + Seq::<char>::empty() =~= escape_char(c));
        assert(escape_string(s) + escape_char(c) =~= escape_char(c));
    } else {
        assert(s.push(c).drop_first() =~= s.drop_first().push(c));
        lemma_escape_push(s.drop_first(), c);
        assert(escape_char(s[0]) + (escape_string(s.drop_first()) + escape_char(c))
            =~= (escape_char(s[0]) + escape_string(s.drop_first())) + escape_char(c));
    }
}

/// Appends `escape_string(s@)` to `out`.
pub fn push_escaped(s: &Vec<char>, out: &mut Vec<char>)
    ensures
        final(out)@ == old(out)@ + escape_string(s@),
{
    let ghost base = old(out)@;
    let mut i: usize = 0;
    while i < s.len()
        invariant
            i <= s@.len(),
            out@ == base + escape_string(s@.subrange(0, i as int)),
        decreases s@.len() - i,
    {
        let c = s[i];
        let u = c as u32;
        if c == '"' {
            out.push('\\');
            out.push('"');
        } else if c == '\\' {
            out.push('\\');
            out.push('\\');
        } else if c == '\u{8}' {
            out.push('\\');
            out.push('b');
        } else if c == '\u{c}' {
            out.push('\\');
            out.push('f');
        } else if c == '\n' {
            out.push('\\');
            out.push('n');
        } else if c == '\r' {
            out.push('\\');
            out.push('r');
        } else if c == '\t' {
            out.push('\\');
            out.push('t');
        } else if u < 32 {
            out.push('\\');
            out.push('u');
            out.push('0');
            out.push('0');
            let hi = (u / 16) as u8;
            let lo = (u % 16) as u8;
            let hc = if hi < 10 {
                (48 + hi) as char
            } else {
                (87 + hi) as char
            };
            let lc = if lo < 10 {
                (48 + lo) as char
            } else {
                (87 + lo) as char
            };
            assert(hc == hex_digit(((c as u32) / 16) as nat));
            assert(lc == hex_digit(((c as u32) % 16) as nat));
            out.push(hc);
            out.push(lc);
        } else {
            out.push(c);
        }
        proof {
            assert(out@ =~= base + escape_string(s@.subrange(0, i as int)) + escape_char(
                s@[i as int],
            ));
            lemma_escape_push(s@.subrange(0, i as int), s@[i as int]);
            assert(s@.subrange(0, i + 1 as int) =~= s@.subrange(0, i as int).push(s@[i as int]));
            assert(base + escape_string(s@.subrange(0, i as int)) + escape_char(s@[i as int])
                =~= base + (escape_string(s@.subrange(0, i as int)) + escape_char(s@[i as int])));
        }
        i = i + 1;
    }
    proof {
        assert(s@.subrange(0, s@.len() as int) =~= s@);
    }
}

/// The value of a hexadecimal digit character, upper or lower case.
pub open spec fn hex_val(c: char) -> Option<nat> {
    let u = c as u32;
    if 48 <= u && u <= 57 {
        Some((u - 48) as nat)
    } else if 97 <= u && u <= 102 {
        Some((u - 87) as nat)
    } else if 65 <= u && u <= 70 {
        Some((u - 55) as nat)
    } else {
        None
    }
}

/// Executable counterpart of [`hex_val`].
pub(crate) fn hex_val_char(c: char) -> (r: Option<u8>)
    ensures
        match r {
            Some(x) => hex_val(c) == Some(x as nat) && x < 16,
            None => hex_val(c) is None,
        },
{
    let u = c as u32;
    if 48 <= u && u <= 57 {
        Some((u - 48) as u8)
    } else if 97 <= u && u <= 102 {
        Some((u - 87) as u8)
    } else if 65 <= u && u <= 70 {
        Some((u - 55) as u8)
    } else {
        None
    }
}

/// The character a two-character JSON escape denotes.
pub open spec fn unescape_short(e: char) -> Option<char> {
    if e == '"' {
        Some('"')
    } else if e == '\\' {
        Some('\\')
    } else if e == '/' {
        Some('/')
    } else if e == 'b' {
        Some('\u{8}')
    } else if e == 'f' {
        Some('\u{c}')
    } else if e == 'n' {
        Some('\n')
    } else if e == 'r' {
        Some('\r')
    } else if e == 't' {
        Some('\t')
    } else {
        None
    }
}

/// Executable counterpart of [`unescape_short`].
fn unescape_short_char(e: char) -> (r: Option<char>)
    ensures
        r == unescape_short(e),
{
    if e == '"' {
        Some('"')
    } else if e == '\\' {
        Some('\\')
    } else if e == '/' {
        Some('/')
    } else if e == 'b' {
        Some('\u{8}')
    } else if e == 'f' {
        Some('\u{c}')
    } else if e == 'n' {
        Some('\n')
    } else if e == 'r' {
        Some('\r')
    } else if e == 't' {
        Some('\t')
    } else {
        None
    }
}

/// A Unicode scalar value: representable as a `char`.
pub open spec fn valid_code_point(v: nat) -> bool {
    v < 0xD800 || (0xE000 <= v && v <= 0x10FFFF)
}

/// Relies on `char::from_u32`: a value converts exactly when it is not a
/// surrogate and at most 0x10FFFF, and the result is the character with that
/// code point.
#[verifier::external_body]
fn char_from_u32(v: u32) -> (r: Option<char>)
    ensures
        valid_code_point(v as nat) ==> r == Some(v as char),
        !valid_code_point(v as nat) ==> r is None,
{
    char::from_u32(v)
}

/// Parses the body of a JSON string together with its closing quote:
/// yields the denoted characters and how many input characters were
/// consumed, or nothing if the input is exhausted or malformed.
pub open spec fn parse_string_body(s: Seq<char>) -> Option<(Seq<char>, int)>
    decreases s.len(),
{
    if s.len() == 0 {
        None
    } else if s[0] == '"' {
        Some((Seq::empty(), 1))
    } else if s[0] == '\\' {
        if s.len() < 2 {
            None
        } else if s[1] == 'u' {
            if s.len() < 6 {
                None
            } else {
                match (hex_val(s[2]), hex_val(s[3]), hex_val(s[4]), hex_val(s[5])) {
                    (Some(a), Some(b), Some(x), Some(d)) => {
                        let v = a * 4096 + b * 256 + x * 16 + d;
                        if valid_code_point(v) {
                            match parse_string_body(s.skip(6)) {
                                Some(p) => Some((seq![v as char] + p.0, 6 + p.1)),
                                None => None,
                            }
                        } else {
                            None
                        }
                    },
                    _ => None,
                }
            }
        } else {
            match unescape_short(s[1]) {
                Some(c) => match parse_string_body(s.skip(2)) {
                    Some(p) => Some((seq![c] + p.0, 2 + p.1)),
                    None => None,
                },
                None => None,
            }
        }
    } else {
        match parse_string_body(s.skip(1)) {
            Some(p) => Some((seq![s[0]] + p.0, 1 + p.1)),
            None => None,
        }
    }
}

/// Parses a JSON string body starting at position `i` of `v`, as
/// [`parse_string_body`] describes on `v@.skip(i)`.
fn parse_string_body_exec(v: &Vec<char>, i: usize) -> (r: Option<(Vec<char>, usize)>)
    requires
        i <= v@.len(),
    ensures
        match r {
            Some(p) => {
                &&& parse_string_body(v@.skip(i as int)) == Some((p.0@, p.1 as int))
                &&& 1 <= p.1
                &&& i + p.1 <= v@.len()
            },
            None => parse_string_body(v@.skip(i as int)) is None,
        },
    decreases v@.len() - i,
{
    let ghost s = v@.skip(i as int);
    if i == v.len() {
        return None;
    }
    let c = v[i];
    assert(s[0] == c);
    if c == '"' {
        let t: Vec<char> = Vec::new();
        assert(t@ =~= Seq::<char>::empty());
        return Some((t, 1));
    }
    if c == '\\' {
        if i + 1 == v.len() {
            return None;
        }
        let e = v[i + 1];
        assert(s[1] == e);
        if e == 'u' {
            if v.len() - i < 6 {
                return None;
            }
            assert(s[2] == v@[i + 2]);
            assert(s[3] == v@[i + 3]);
            assert(s[4] == v@[i + 4]);
            assert(s[5] == v@[i + 5]);
            let h1 = hex_val_char(v[i + 2]);
            let h2 = hex_val_char(v[i + 3]);
            let h3 = hex_val_char(v[i + 4]);
            let h4 = hex_val_char(v[i + 5]);
            match (h1, h2, h3, h4) {
                (Some(a), Some(b), Some(x), Some(d)) => {
                    let code: u32 = (a as u32) * 4096 + (b as u32) * 256 + (x as u32) * 16
                        + (d as u32);
                    match char_from_u32(code) {
                        Some(ch) => {
                            match parse_string_body_exec(v, i + 6) {
                                Some(p) => {
                                    let (mut t, k) = p;
                                    proof {
                                        assert(s.skip(6) =~= v@.skip(i + 6 as int));
                                    }
                                    t.insert(0, ch);
                                    proof {
                                        let su = parse_string_body(s).unwrap();
                                        assert(su.0 =~= t@);
                                    }
                                    Some((t, k + 6))
                                },
                                None => {
                                    proof {
                                        assert(s.skip(6) =~= v@.skip(i + 6 as int));
                                    }
                                    None
                                },
                            }
                        },
                        None => None,
                    }
                },
                _ => None,
            }
        } else {
            match unescape_short_char(e) {
                Some(ch) => {
                    match parse_string_body_exec(v, i + 2) {
                        Some(p) => {
                            let (mut t, k) = p;
                            proof {
                                assert(s.skip(2) =~= v@.skip(i + 2 as int));
                            }
                            t.insert(0, ch);
                            proof {
                                let su = parse_string_body(s).unwrap();
                                assert(su.0 =~= t@);
                            }
                            Some((t, k + 2))
                        },
                        None => {
                            proof {
                                assert(s.skip(2) =~= v@.skip(i + 2 as int));
                            }
                            None
                        },
                    }
                },
                None => None,
            }
        }
    } else {
        match parse_string_body_exec(v, i + 1) {
            Some(p) => {
                let (mut t, k) = p;
                proof {
                    assert(s.skip(1) =~= v@.skip(i + 1 as int));
                }
                t.insert(0, c);
                proof {
                    let su = parse_string_body(s).unwrap();
                    assert(su.0 =~= t@);
                }
                Some((t, k + 1))
            },
            None => {
                proof {
                    assert(s.skip(1) =~= v@.skip(i + 1 as int));
                }
                None
            },
        }
    }
}

/// Escaping keeps a hexadecimal digit's value.
proof fn lemma_hex_digit_val(d: nat)
    requires
        d < 16,
    ensures
        hex_val(hex_digit(d)) == Some(d),
{
    let c = hex_digit(d);
    if d < 10 {
        assert(c as u32 == 48 + d);
    } else {
        assert(c as u32 == 87 + d);
    }
}

/// Parsing inverts escaping: an escaped string, its closing quote and
/// whatever follows parse back to exactly that string, consuming the escaped
/// characters and the quote.
pub proof fn lemma_parse_escaped(s: Seq<char>, rest: Seq<char>)
    ensures
        parse_string_body(escape_string(s) + seq!['"'] + rest) == Some(
            (s, escape_string(s).len() as int + 1),
        ),
    decreases s.len(),
{
    let e = escape_string(s);
    let t = e + seq!['"'] + rest;
    if s.len() == 0 {
        assert(t =~= seq!['"'] + rest);
        assert(t[0] == '"');
        assert(s =~= Seq::<char>::empty());
    } else {
        let c = s[0];
        let s1 = s.drop_first();
        let e1 = escape_string(s1);
        let t1 = e1 + seq!['"'] + rest;
        lemma_parse_escaped(s1, rest);
        let ec = escape_char(c);
        assert(e == ec + e1);
        assert(seq![c] + s1 =~= s);
        if (c as u32) >= 32 && c != '"' && c != '\\' {
            assert(ec =~= seq![c]);
            assert(t[0] == c);
            assert(t.skip(1) =~= t1);
            assert(parse_string_body(t) == Some((seq![c] + s1, 1 + (e1.len() as int + 1))));
        } else if c == '"' || c == '\\' || c == '\u{8}' || c == '\u{c}' || c == '\n' || c == '\r'
            || c == '\t' {
            assert(ec.len() == 2 && ec[0] == '\\' && ec[1] != 'u' && unescape_short(ec[1])
                == Some(c));
            assert(t[0] == '\\');
            assert(t[1] == ec[1]);
            assert(t.len() >= 2);
            assert(t.skip(2) =~= t1);
            assert(parse_string_body(t) == Some((seq![c] + s1, 2 + (e1.len() as int + 1))));
        } else {
            let u = c as u32;
            assert(u < 32);
            let hi = (u / 16) as nat;
            let lo = (u % 16) as nat;
            assert(ec =~= seq!['\\', 'u', '0', '0', hex_digit(hi), hex_digit(lo)]);
            assert(t.len() >= 6);
            assert(t[0] == '\\');
            assert(t[1] == 'u');
            assert(t[2] == '0');
            assert(t[3] == '0');
            assert(t[4] == hex_digit(hi));
            assert(t[5] == hex_digit(lo));
            assert(hex_val('0') == Some(0nat)) by {
                assert('0' as u32 == 48);
            }
            lemma_hex_digit_val(hi);
            lemma_hex_digit_val(lo);
            let v = 0 * 4096 + 0 * 256 + hi * 16 + lo;
            assert(v == u) by {
                assert(16 * ((u as int) / 16) + (u as int) % 16 == u as int);
            }
            assert(valid_code_point(v)) by {
                vstd::utf8::char_is_scalar(c);
            }
            assert((v as char) == c) by {
                vstd::utf8::char_u32_cast(c, u);
            }
            assert(t.skip(6) =~= t1);
            assert(parse_string_body(t) == Some((seq![c] + s1, 6 + (e1.len() as int + 1))));
        }
    }
}

/// The record line written for a command and a timestamp: one JSON object
/// with the two fields, in this order, each a JSON string.
pub open spec fn serialize_entry_spec(cmd: Seq<char>, ts: Seq<char>) -> Seq<char> {
    "{\"command\":\""@ + escape_string(cmd) + "\",\"timestamp\":\""@ + escape_string(ts) + "\"}"@
}

/// Encodes one record as its log line.
pub fn serialize_entry(command: &str, timestamp: &str) -> (r: String)
    ensures
        r@ == serialize_entry_spec(command@, timestamp@),
{
    let mut out = to_chars("{\"command\":\"");
    let cmd = to_chars(command);
    push_escaped(&cmd, &mut out);
    let m1 = to_chars("\",\"timestamp\":\"");
    push_all(&m1, &mut out);
    let ts = to_chars(timestamp);
    push_escaped(&ts, &mut out);
    let m2 = to_chars("\"}");
    push_all(&m2, &mut out);
    proof {
        assert(out@ =~= serialize_entry_spec(command@, timestamp@));
    }
    chars_to_string(&out)
}

/// The record a line denotes: the command text and timestamp of a line in
/// the canonical shape [`serialize_entry_spec`] writes, nothing for any
/// other line.
pub open spec fn parse_entry_spec(s: Seq<char>) -> Option<(Seq<char>, Seq<char>)> {
    let p1 = "{\"command\":\""@;
    let p2 = ",\"timestamp\":\""@;
    if has_prefix(s, p1) {
        match parse_string_body(s.skip(p1.len() as int)) {
            Some(c) => {
                let s2 = s.skip(p1.len() + c.1);
                if has_prefix(s2, p2) {
                    match parse_string_body(s2.skip(p2.len() as int)) {
                        Some(t) => {
                            let s3 = s2.skip(p2.len() + t.1);
                            if s3 == "}"@ {
                                Some((c.0, t.0))
                            } else {
                                None
                            }
                        },
                        None => None,
                    }
                } else {
                    None
                }
            },
            None => None,
        }
    } else {
        None
    }
}

/// Decodes a log line into the record it denotes; lines of any other shape
/// — garbage, another JSON value, a truncated line — yield nothing.
pub fn parse_entry_line(line: &str) -> (r: Option<CommandEntry>)
    ensures
        match r {
            Some(e) => parse_entry_spec(line@) == Some((e.command@, e.timestamp@)),
            None => parse_entry_spec(line@) is None,
        },
{
    let v = to_chars(line);
    let p1 = to_chars("{\"command\":\"");
    let p2 = to_chars(",\"timestamp\":\"");
    let n = v.len();
    proof {
        assert(v@.subrange(0, n as int) =~= v@);
    }
    if !range_has_prefix(&v, 0, n, &p1) {
        return None;
    }
    let pos1 = p1.len();
    let r1 = parse_string_body_exec(&v, pos1);
    match r1 {
        None => None,
        Some((cmd, k1)) => {
            let pos2 = pos1 + k1;
            let ghost s2 = v@.skip(pos2 as int);
            proof {
                assert(v@.subrange(pos2 as int, n as int) =~= s2);
            }
            if !range_has_prefix(&v, pos2, n, &p2) {
                return None;
            }
            let pos3 = pos2 + p2.len();
            proof {
                assert(s2.skip(p2@.len() as int) =~= v@.skip(pos3 as int));
            }
            let r2 = parse_string_body_exec(&v, pos3);
            match r2 {
                None => None,
                Some((ts, k2)) => {
                    let pos4 = pos3 + k2;
                    let ghost s3 = s2.skip(p2@.len() + k2 as int);
                    proof {
                        reveal_strlit("}");
                        assert(s3 =~= v@.skip(pos4 as int));
                    }
                    if n - pos4 == 1 && v[pos4] == '}' {
                        proof {
                            assert(s3 =~= "}"@);
                        }
                        Some(
                            CommandEntry {
                                command: chars_to_string(&cmd),
                                timestamp: chars_to_string(&ts),
                            },
                        )
                    } else {
                        proof {
                            if s3 == "}"@ {
                                assert(s3.len() == 1);
                                assert(v@[pos4 as int] == s3[0]);
                            }
                        }
                        None
                    }
                },
            }
        },
    }
}

/// Round trip: a record line parses back to exactly the command and
/// timestamp it was written from.
pub proof fn lemma_parse_serialize(cmd: Seq<char>, ts: Seq<char>)
    ensures
        parse_entry_spec(serialize_entry_spec(cmd, ts)) == Some((cmd, ts)),
{
    let p1 = "{\"command\":\""@;
    let p2 = ",\"timestamp\":\""@;
    let m1 = "\",\"timestamp\":\""@;
    let m2 = "\"}"@;
    let e1 = escape_string(cmd);
    let e2 = escape_string(ts);
    let sser = serialize_entry_spec(cmd, ts);
    reveal_strlit("{\"command\":\"");
    reveal_strlit(",\"timestamp\":\"");
    reveal_strlit("\",\"timestamp\":\"");
    reveal_strlit("\"}");
    reveal_strlit("}");
    assert(m1 =~= seq!['"'] + p2);
    assert(m2 =~= seq!['"'] + "}"@);
    assert(has_prefix(sser, p1)) by {
        assert(sser.subrange(0, p1.len() as int) =~= p1);
    }
    let tail1 = p2 + e2 + seq!['"'] + "}"@;
    assert(sser.skip(p1.len() as int) =~= e1 + seq!['"'] + tail1);
    lemma_parse_escaped(cmd, tail1);
    let c = parse_string_body(sser.skip(p1.len() as int)).unwrap();
    assert(c.0 == cmd && c.1 == e1.len() as int + 1);
    let s2 = sser.skip(p1.len() + c.1);
    assert(s2 =~= tail1);
    assert(has_prefix(s2, p2)) by {
        assert(s2.subrange(0, p2.len() as int) =~= p2);
    }
    assert(s2.skip(p2.len() as int) =~= e2 + seq!['"'] + "}"@);
    lemma_parse_escaped(ts, "}"@);
    let t = parse_string_body(s2.skip(p2.len() as int)).unwrap();
    assert(t.0 == ts && t.1 == e2.len() as int + 1);
    let s3 = s2.skip(p2.len() + t.1);
    assert(s3 =~= "}"@);
}

} // verus!
