//! String helpers shared by the naming convention, the record codec and the
//! aggregation engine: whitespace trimming, prefix and suffix tests, and
//! decimal digit handling, each with a spec-level definition.

use vstd::prelude::*;

verus! {

/// The whitespace characters this library recognises when trimming and
/// splitting command text: the Unicode `White_Space` set, the one
/// `str::trim` and `str::split_whitespace` go by.
pub open spec fn is_space(c: char) -> bool {
    let u = c as u32;
    ||| 0x9 <= u && u <= 0xD
    ||| u == 0x20
    ||| u == 0x85
    ||| u == 0xA0
    ||| u == 0x1680
    ||| 0x2000 <= u && u <= 0x200A
    ||| u == 0x2028
    ||| u == 0x2029
    ||| u == 0x202F
    ||| u == 0x205F
    ||| u == 0x3000
}

/// Executable counterpart of [`is_space`].
pub fn is_space_char(c: char) -> (r: bool)
    ensures
        r == is_space(c),
{
    let u = c as u32;
    (0x9 <= u && u <= 0xD) || u == 0x20 || u == 0x85 || u == 0xA0 || u == 0x1680 || (0x2000 <= u
        && u <= 0x200A) || u == 0x2028 || u == 0x2029 || u == 0x202F || u == 0x205F || u == 0x3000
}

/// `s` with its leading whitespace removed.
pub open spec fn drop_leading_spaces(s: Seq<char>) -> Seq<char>
    decreases s.len(),
{
    if s.len() == 0 {
        s
    } else if is_space(s[0]) {
        drop_leading_spaces(s.drop_first())
    } else {
        s
    }
}

/// `s` with its trailing whitespace removed.
pub open spec fn drop_trailing_spaces(s: Seq<char>) -> Seq<char>
    decreases s.len(),
{
    if s.len() == 0 {
        s
    } else if is_space(s[s.len() - 1]) {
        drop_trailing_spaces(s.drop_last())
    } else {
        s
    }
}

/// `s` with leading and trailing whitespace removed, as `str::trim` does.
pub open spec fn trim_spec(s: Seq<char>) -> Seq<char> {
    drop_trailing_spaces(drop_leading_spaces(s))
}

/// `p` is a prefix of `s`.
pub open spec fn has_prefix(s: Seq<char>, p: Seq<char>) -> bool {
    p.len() <= s.len() && s.subrange(0, p.len() as int) == p
}

/// `p` is a suffix of `s`.
pub open spec fn has_suffix(s: Seq<char>, p: Seq<char>) -> bool {
    p.len() <= s.len() && s.subrange(s.len() - p.len(), s.len() as int) == p
}

/// The characters of `s`, as a vector.
pub fn to_chars(s: &str) -> (r: Vec<char>)
    ensures
        r@ == s@,
{
    let n = s.unicode_len();
    let mut r: Vec<char> = Vec::new();
    let mut i: usize = 0;
    while i < n
        invariant
            i <= n,
            n == s@.len(),
            r@ == s@.subrange(0, i as int),
        decreases n - i,
    {
        let c = s.get_char(i);
        r.push(c);
        proof {
            assert(s@.subrange(0, i + 1 as int) =~= s@.subrange(0, i as int).push(
                s@[i as int],
            ));
        }
        i = i + 1;
    }
    proof {
        assert(s@.subrange(0, n as int) =~= s@);
    }
    r
}

/// Appends all characters of `src` to `out`.
pub fn push_all(src: &Vec<char>, out: &mut Vec<char>)
    ensures
        final(out)@ == old(out)@ + src@,
{
    let ghost base = old(out)@;
    let mut k: usize = 0;
    while k < src.len()
        invariant
            k <= src@.len(),
            out@ == base + src@.subrange(0, k as int),
        decreases src@.len() - k,
    {
        out.push(src[k]);
        proof {
            assert(src@.subrange(0, k + 1 as int) =~= src@.subrange(0, k as int).push(
                src@[k as int],
            ));
            assert(base + src@.subrange(0, k as int).push(src@[k as int]) =~= (base
                + src@.subrange(0, k as int)).push(src@[k as int]));
        }
        k = k + 1;
    }
    proof {
        assert(src@.subrange(0, src@.len() as int) =~= src@);
    }
}

/// The characters of `v@.subrange(a, b)`, as a fresh vector.
pub fn copy_range(v: &Vec<char>, a: usize, b: usize) -> (r: Vec<char>)
    requires
        a <= b <= v@.len(),
    ensures
        r@ == v@.subrange(a as int, b as int),
{
    let mut r: Vec<char> = Vec::new();
    let mut i: usize = a;
    while i < b
        invariant
            a <= i <= b <= v@.len(),
            r@ == v@.subrange(a as int, i as int),
        decreases b - i,
    {
        r.push(v[i]);
        proof {
            assert(v@.subrange(a as int, i + 1 as int) =~= v@.subrange(a as int, i as int).push(
                v@[i as int],
            ));
        }
        i = i + 1;
    }
    r
}

/// Relies on std's `FromIterator` impl for `String`: collecting characters
/// yields the string made of exactly those characters, in order.
#[verifier::external_body]
pub fn chars_to_string(v: &Vec<char>) -> (r: String)
    ensures
        r@ == v@,
{
    v.iter().collect()
}

/// Dropping leading whitespace keeps a suffix of `s`: it equals
/// `s.subrange(i, s.len())` for the first non-space position `i`.
pub proof fn lemma_drop_leading_at(s: Seq<char>, i: int)
    requires
        0 <= i <= s.len(),
        forall|j: int| 0 <= j < i ==> is_space(s[j]),
        i == s.len() || !is_space(s[i]),
    ensures
        drop_leading_spaces(s) == s.subrange(i, s.len() as int),
    decreases i,
{
    if i == 0 {
        assert(s.subrange(0, s.len() as int) =~= s);
    } else {
        assert(is_space(s[0]));
        let t = s.drop_first();
        assert(forall|j: int| 0 <= j < i - 1 ==> is_space(t[j]));
        lemma_drop_leading_at(t, i - 1);
        assert(t.subrange(i - 1, t.len() as int) =~= s.subrange(i, s.len() as int));
    }
}

/// Dropping trailing whitespace keeps a prefix of `s`: it equals
/// `s.subrange(0, e)` for the last non-space position `e - 1`.
pub proof fn lemma_drop_trailing_at(s: Seq<char>, e: int)
    requires
        0 <= e <= s.len(),
        forall|j: int| e <= j < s.len() ==> is_space(s[j]),
        e == 0 || !is_space(s[e - 1]),
    ensures
        drop_trailing_spaces(s) == s.subrange(0, e),
    decreases s.len() - e,
{
    if e == s.len() {
        assert(s.subrange(0, s.len() as int) =~= s);
    } else {
        assert(is_space(s[s.len() - 1]));
        let t = s.drop_last();
        assert(forall|j: int| e <= j < t.len() ==> is_space(t[j]));
        lemma_drop_trailing_at(t, e);
        assert(t.subrange(0, e) =~= s.subrange(0, e));
    }
}

/// The bounds of `trim_spec(v@)` within `v`: returns `(start, end)` with
/// `trim_spec(v@) == v@.subrange(start, end)`.
pub fn trim_range(v: &Vec<char>) -> (r: (usize, usize))
    ensures
        r.0 <= r.1 <= v@.len(),
        trim_spec(v@) == v@.subrange(r.0 as int, r.1 as int),
{
    let n = v.len();
    let mut start: usize = 0;
    while start < n && is_space_char(v[start])
        invariant
            start <= n,
            n == v@.len(),
            forall|j: int| 0 <= j < start ==> is_space(v@[j]),
        decreases n - start,
    {
        start = start + 1;
    }
    proof {
        lemma_drop_leading_at(v@, start as int);
    }
    let ghost mid = v@.subrange(start as int, n as int);
    let mut end: usize = n;
    while end > start && is_space_char(v[end - 1])
        invariant
            start <= end <= n,
            n == v@.len(),
            forall|j: int| end <= j < n ==> is_space(v@[j]),
        decreases end,
    {
        end = end - 1;
    }
    proof {
        assert(forall|j: int| end - start <= j < mid.len() ==> is_space(mid[j]));
        assert(end - start == 0 || !is_space(mid[end - start - 1]));
        lemma_drop_trailing_at(mid, end - start);
        assert(mid.subrange(0, end - start) =~= v@.subrange(start as int, end as int));
    }
    (start, end)
}

/// Whether `p@` is a prefix of `v@.subrange(start, end)`.
pub fn range_has_prefix(v: &Vec<char>, start: usize, end: usize, p: &Vec<char>) -> (r: bool)
    requires
        start <= end <= v@.len(),
    ensures
        r == has_prefix(v@.subrange(start as int, end as int), p@),
{
    let ghost s = v@.subrange(start as int, end as int);
    if p.len() > end - start {
        return false;
    }
    let mut k: usize = 0;
    while k < p.len()
        invariant
            k <= p@.len(),
            p@.len() <= end - start,
            start <= end <= v@.len(),
            s == v@.subrange(start as int, end as int),
            forall|j: int| 0 <= j < k ==> s[j] == p@[j],
        decreases p@.len() - k,
    {
        if v[start + k] != p[k] {
            assert(s[k as int] != p@[k as int]);
            assert(!has_prefix(s, p@)) by {
                if has_prefix(s, p@) {
                    assert(s.subrange(0, p@.len() as int)[k as int] == p@[k as int]);
                }
            }
            return false;
        }
        k = k + 1;
    }
    proof {
        assert(s.subrange(0, p@.len() as int) =~= p@);
    }
    true
}

/// Whether `p@` is a suffix of `v@`.
pub fn chars_has_suffix(v: &Vec<char>, p: &Vec<char>) -> (r: bool)
    ensures
        r == has_suffix(v@, p@),
{
    let n = v.len();
    if p.len() > n {
        return false;
    }
    let base = n - p.len();
    let mut k: usize = 0;
    while k < p.len()
        invariant
            k <= p@.len(),
            base == v@.len() - p@.len(),
            n == v@.len(),
            forall|j: int| 0 <= j < k ==> v@[base + j] == p@[j],
        decreases p@.len() - k,
    {
        if v[base + k] != p[k] {
            assert(!has_suffix(v@, p@)) by {
                if has_suffix(v@, p@) {
                    assert(v@.subrange(v@.len() - p@.len(), v@.len() as int)[k as int] == p@[
                        k as int
                    ]);
                }
            }
            return false;
        }
        k = k + 1;
    }
    proof {
        assert(v@.subrange(v@.len() - p@.len(), v@.len() as int) =~= p@);
    }
    true
}

/// The leading run of non-whitespace characters of `s`.
pub open spec fn take_until_space(s: Seq<char>) -> Seq<char>
    decreases s.len(),
{
    if s.len() == 0 {
        s
    } else if is_space(s[0]) {
        Seq::empty()
    } else {
        seq![s[0]] + take_until_space(s.drop_first())
    }
}

/// `s` with its leading run of non-whitespace characters removed.
pub open spec fn drop_token(s: Seq<char>) -> Seq<char>
    decreases s.len(),
{
    if s.len() == 0 {
        s
    } else if is_space(s[0]) {
        s
    } else {
        drop_token(s.drop_first())
    }
}

/// The first whitespace-delimited token of `s` (empty if `s` is all
/// whitespace).
pub open spec fn first_token(s: Seq<char>) -> Seq<char> {
    take_until_space(drop_leading_spaces(s))
}

/// The second whitespace-delimited token of `s` (empty if there is none).
pub open spec fn second_token(s: Seq<char>) -> Seq<char> {
    first_token(drop_token(drop_leading_spaces(s)))
}

/// The leading non-whitespace run reaches to position `e`: it equals
/// `s.subrange(0, e)` for the first whitespace position `e`.
pub proof fn lemma_take_until_space_at(s: Seq<char>, e: int)
    requires
        0 <= e <= s.len(),
        forall|j: int| 0 <= j < e ==> !is_space(s[j]),
        e == s.len() || is_space(s[e]),
    ensures
        take_until_space(s) == s.subrange(0, e),
    decreases e,
{
    if s.len() == 0 || is_space(s[0]) {
        assert(e == 0);
        assert(s.subrange(0, 0) =~= Seq::<char>::empty());
    } else {
        assert(e >= 1);
        let t = s.drop_first();
        assert(forall|j: int| 0 <= j < e - 1 ==> !is_space(t[j]));
        lemma_take_until_space_at(t, e - 1);
        assert(seq![s[0]] + t.subrange(0, e - 1) =~= s.subrange(0, e));
    }
}

/// Dropping the leading non-whitespace run keeps the rest: it equals
/// `s.skip(e)` for the first whitespace position `e`.
pub proof fn lemma_drop_token_at(s: Seq<char>, e: int)
    requires
        0 <= e <= s.len(),
        forall|j: int| 0 <= j < e ==> !is_space(s[j]),
        e == s.len() || is_space(s[e]),
    ensures
        drop_token(s) == s.skip(e),
    decreases e,
{
    if s.len() == 0 || is_space(s[0]) {
        assert(e == 0);
        assert(s.skip(0) =~= s);
    } else {
        assert(e >= 1);
        let t = s.drop_first();
        assert(forall|j: int| 0 <= j < e - 1 ==> !is_space(t[j]));
        lemma_drop_token_at(t, e - 1);
        assert(t.skip(e - 1) =~= s.skip(e));
    }
}

/// The bounds of the first token of `v@`: returns `(start, end)` with
/// `first_token(v@) == v@.subrange(start, end)`, where `start` is the first
/// non-space position (`v@.len()` if none) and `end` the next space after
/// it. Also relates the remainder: `drop_token(drop_leading_spaces(v@)) ==
/// v@.skip(end)`.
pub fn first_token_range(v: &Vec<char>) -> (r: (usize, usize))
    ensures
        r.0 <= r.1 <= v@.len(),
        first_token(v@) == v@.subrange(r.0 as int, r.1 as int),
        drop_token(drop_leading_spaces(v@)) == v@.skip(r.1 as int),
        (r.0 == r.1) == (first_token(v@).len() == 0),
{
    let n = v.len();
    let mut start: usize = 0;
    while start < n && is_space_char(v[start])
        invariant
            start <= n,
            n == v@.len(),
            forall|j: int| 0 <= j < start ==> is_space(v@[j]),
        decreases n - start,
    {
        start = start + 1;
    }
    proof {
        lemma_drop_leading_at(v@, start as int);
    }
    let ghost mid = v@.skip(start as int);
    proof {
        assert(v@.subrange(start as int, n as int) =~= mid);
    }
    let mut end: usize = start;
    while end < n && !is_space_char(v[end])
        invariant
            start <= end <= n,
            n == v@.len(),
            forall|j: int| start <= j < end ==> !is_space(v@[j]),
        decreases n - end,
    {
        end = end + 1;
    }
    proof {
        assert(forall|j: int| 0 <= j < end - start ==> !is_space(mid[j]));
        assert(end - start == mid.len() || is_space(mid[end - start]));
        lemma_take_until_space_at(mid, end - start);
        lemma_drop_token_at(mid, end - start);
        assert(mid.subrange(0, end - start) =~= v@.subrange(start as int, end as int));
        assert(mid.skip(end - start) =~= v@.skip(end as int));
    }
    (start, end)
}

/// The decimal digit character for `d` (meaningful for `d < 10`).
pub open spec fn dec_digit(d: nat) -> char {
    (48 + d) as char
}

/// The decimal representation of `n`, without sign or leading zeros
/// (except that `0` is written `"0"`).
pub open spec fn dec_rep(n: nat) -> Seq<char>
    decreases n,
{
    if n < 10 {
        seq![dec_digit(n)]
    } else {
        dec_rep(n / 10).push(dec_digit(n % 10))
    }
}

/// Appends the decimal representation of `n` to `out`.
pub fn push_dec_u64(n: u64, out: &mut Vec<char>)
    ensures
        final(out)@ == old(out)@ + dec_rep(n as nat),
    decreases n,
{
    if n < 10 {
        let c = ((48 + n) as u8) as char;
        assert(c == dec_digit(n as nat));
        out.push(c);
        assert(out@ =~= old(out)@ + dec_rep(n as nat));
    } else {
        push_dec_u64(n / 10, out);
        let d = n % 10;
        let c = ((48 + d) as u8) as char;
        assert(c == dec_digit((n % 10) as nat));
        out.push(c);
        assert(out@ =~= old(out)@ + dec_rep(n as nat));
    }
}

/// The decimal representation of `n` as a `String`.
pub fn u64_to_string(n: u64) -> (r: String)
    ensures
        r@ == dec_rep(n as nat),
{
    let mut v: Vec<char> = Vec::new();
    push_dec_u64(n, &mut v);
    assert(v@ =~= dec_rep(n as nat));
    chars_to_string(&v)
}

/// `c` is a decimal digit character.
pub open spec fn is_digit(c: char) -> bool {
    48 <= c as int <= 57
}

/// Executable counterpart of [`is_digit`].
pub fn is_digit_char(c: char) -> (r: bool)
    ensures
        r == is_digit(c),
{
    let u = c as u32;
    48 <= u && u <= 57
}

/// Every character of `s` is a decimal digit.
pub open spec fn all_digits(s: Seq<char>) -> bool {
    forall|j: int| 0 <= j < s.len() ==> is_digit(s[j])
}

/// The number denoted by the digit string `s`, most significant digit first.
pub open spec fn digits_val(s: Seq<char>) -> nat
    decreases s.len(),
{
    if s.len() == 0 {
        0
    } else {
        (digits_val(s.drop_last()) * 10 + (s.last() as int - 48)) as nat
    }
}

/// The number denoted by the digits of `v@.subrange(start, end)`, if that
/// range is non-empty, all digits, and its value fits in `usize`.
pub fn parse_digits(v: &Vec<char>, start: usize, end: usize) -> (r: Option<usize>)
    requires
        start <= end <= v@.len(),
    ensures
        ({
            let s = v@.subrange(start as int, end as int);
            match r {
                Some(x) => s.len() > 0 && all_digits(s) && digits_val(s) == x as nat,
                None => s.len() == 0 || !all_digits(s) || digits_val(s) > usize::MAX,
            }
        }),
{
    let ghost s = v@.subrange(start as int, end as int);
    if start == end {
        return None;
    }
    let mut acc: usize = 0;
    let mut k: usize = 0;
    while k < end - start
        invariant
            k <= end - start,
            start <= end <= v@.len(),
            s == v@.subrange(start as int, end as int),
            all_digits(s.subrange(0, k as int)),
            acc as nat == digits_val(s.subrange(0, k as int)),
        decreases end - start - k,
    {
        let c = v[start + k];
        if !is_digit_char(c) {
            assert(s[k as int] == c);
            return None;
        }
        let d = (c as u32 as usize) - 48;
        let acc10 = match acc.checked_mul(10) {
            Some(x) => x,
            None => {
                proof {
                    assert(s.subrange(0, k + 1).drop_last() =~= s.subrange(0, k as int));
                    assert(s.subrange(0, k + 1).last() == s[k as int]);
                    if all_digits(s) {
                        lemma_digits_val_monotonic(s, k + 1);
                    }
                }
                return None;
            },
        };
        let acc2 = match acc10.checked_add(d) {
            Some(x) => x,
            None => {
                proof {
                    assert(s.subrange(0, k + 1).drop_last() =~= s.subrange(0, k as int));
                    assert(s.subrange(0, k + 1).last() == s[k as int]);
                    if all_digits(s) {
                        lemma_digits_val_monotonic(s, k + 1);
                    }
                }
                return None;
            },
        };
        acc = acc2;
        proof {
            assert(s.subrange(0, k + 1).drop_last() =~= s.subrange(0, k as int));
            assert(s.subrange(0, k + 1).last() == s[k as int]);
        }
        k = k + 1;
    }
    proof {
        assert(s.subrange(0, s.len() as int) =~= s);
    }
    Some(acc)
}

/// A digit string's value only grows when digits are appended: the value of
/// the whole is at least the value of any prefix.
pub proof fn lemma_digits_val_monotonic(s: Seq<char>, k: int)
    requires
        0 <= k <= s.len(),
        all_digits(s),
    ensures
        digits_val(s.subrange(0, k)) <= digits_val(s),
    decreases s.len() - k,
{
    if k < s.len() {
        lemma_digits_val_monotonic(s, k + 1);
        let a = s.subrange(0, k);
        let b = s.subrange(0, k + 1);
        assert(b.drop_last() =~= a);
        assert(is_digit(b.last()));
        assert(digits_val(b) == digits_val(a) * 10 + (b.last() as int - 48));
        assert(digits_val(a) <= digits_val(a) * 10) by (nonlinear_arith);
    } else {
        assert(s.subrange(0, s.len() as int) =~= s);
    }
}

} // verus!
