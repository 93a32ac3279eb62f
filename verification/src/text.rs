//! Character-level text handling shared by the small config readers:
//! whitespace trimming, line splitting, literal matching and integer parsing.

use vstd::prelude::*;

verus! {

/// Unicode `White_Space`, the set `char::is_whitespace` tests.
pub open spec fn is_ws(c: char) -> bool {
    ||| c == '\t'
    ||| c == '\n'
    ||| c == '\u{0B}'
    ||| c == '\u{0C}'
    ||| c == '\r'
    ||| c == ' '
    ||| c == '\u{85}'
    ||| c == '\u{A0}'
    ||| c == '\u{1680}'
    ||| ('\u{2000}' <= c && c <= '\u{200A}')
    ||| c == '\u{2028}'
    ||| c == '\u{2029}'
    ||| c == '\u{202F}'
    ||| c == '\u{205F}'
    ||| c == '\u{3000}'
}

/// Whether `c` is whitespace (see [`is_ws`]).
pub fn is_whitespace(c: char) -> (r: bool)
    ensures
        r == is_ws(c),
{
    c == '\t' || c == '\n' || c == '\u{0B}' || c == '\u{0C}' || c == '\r' || c == ' ' || c == '\u{85}' || c
        == '\u{A0}' || c == '\u{1680}' || ('\u{2000}' <= c && c <= '\u{200A}') || c == '\u{2028}' || c
        == '\u{2029}' || c == '\u{202F}' || c == '\u{205F}' || c == '\u{3000}'
}

/// `s` without its leading characters satisfying `p`.
pub open spec fn trim_start_by(s: Seq<char>, p: spec_fn(char) -> bool) -> Seq<char>
    decreases s.len(),
{
    if s.len() > 0 && p(s[0]) {
        trim_start_by(s.drop_first(), p)
    } else {
        s
    }
}

/// `s` without its trailing characters satisfying `p`.
pub open spec fn trim_end_by(s: Seq<char>, p: spec_fn(char) -> bool) -> Seq<char>
    decreases s.len(),
{
    if s.len() > 0 && p(s.last()) {
        trim_end_by(s.drop_last(), p)
    } else {
        s
    }
}

/// `s` without leading whitespace.
pub open spec fn trim_start(s: Seq<char>) -> Seq<char> {
    trim_start_by(s, |c: char| is_ws(c))
}

/// `s` without leading and trailing whitespace.
pub open spec fn trim(s: Seq<char>) -> Seq<char> {
    trim_end_by(trim_start(s), |c: char| is_ws(c))
}

/// Index of the first `'\n'` in `s`, or its length.
pub open spec fn line_end(s: Seq<char>) -> int
    decreases s.len(),
{
    if s.len() == 0 {
        0
    } else if s[0] == '\n' {
        0
    } else {
        1 + line_end(s.drop_first())
    }
}

/// What follows the first line of `s` (empty when it has no `'\n'`).
pub open spec fn after_line(s: Seq<char>) -> Seq<char> {
    if line_end(s) < s.len() {
        s.skip(line_end(s) + 1)
    } else {
        Seq::empty()
    }
}

/// `s[lo..hi]`.
pub open spec fn range(s: Seq<char>, lo: int, hi: int) -> Seq<char> {
    s.subrange(lo, hi)
}

/// Whether `s` begins with `p`.
pub open spec fn starts_with(s: Seq<char>, p: Seq<char>) -> bool {
    p.len() <= s.len() && s.take(p.len() as int) == p
}

pub proof fn lemma_line_end(s: Seq<char>)
    ensures
        0 <= line_end(s) <= s.len(),
        forall|i: int| 0 <= i < line_end(s) ==> s[i] != '\n',
        line_end(s) < s.len() ==> s[line_end(s)] == '\n',
    decreases s.len(),
{
    if s.len() > 0 && s[0] != '\n' {
        lemma_line_end(s.drop_first());
        assert forall|i: int| 0 <= i < line_end(s) implies s[i] != '\n' by {
            if i > 0 {
                assert(s[i] == s.drop_first()[i - 1]);
            }
        }
    }
}

/// The end of the line of `s` starting at `lo`: the first `'\n'` at or
/// after `lo`, or the length.
pub fn find_line_end(s: &Vec<char>, lo: usize) -> (r: usize)
    requires
        lo <= s@.len(),
    ensures
        r == lo + line_end(s@.skip(lo as int)),
        lo <= r <= s@.len(),
{
    let mut i = lo;
    while i < s.len() && s[i] != '\n'
        invariant
            lo <= i <= s@.len(),
            forall|j: int| lo <= j < i ==> s@[j] != '\n',
        decreases s@.len() - i,
    {
        i += 1;
    }
    proof {
        let t = s@.skip(lo as int);
        lemma_line_end(t);
        if line_end(t) < i - lo {
            assert(t[line_end(t)] == s@[lo + line_end(t)]);
        }
        if line_end(t) > i - lo {
            assert(t[i - lo] == s@[i as int]);
        }
    }
    i
}

proof fn lemma_trim_start_by(s: Seq<char>, p: spec_fn(char) -> bool, k: int)
    requires
        0 <= k <= s.len(),
        forall|j: int| 0 <= j < k ==> p(#[trigger] s[j]),
    ensures
        trim_start_by(s, p) == trim_start_by(s.skip(k), p),
    decreases k,
{
    if k > 0 {
        assert(s.skip(1) =~= s.drop_first());
        lemma_trim_start_by(s.drop_first(), p, k - 1);
        assert(s.drop_first().skip(k - 1) =~= s.skip(k));
    } else {
        assert(s.skip(0) =~= s);
    }
}

proof fn lemma_trim_end_by(s: Seq<char>, p: spec_fn(char) -> bool, k: int)
    requires
        0 <= k <= s.len(),
        forall|j: int| k <= j < s.len() ==> p(#[trigger] s[j]),
    ensures
        trim_end_by(s, p) == trim_end_by(s.take(k), p),
    decreases s.len() - k,
{
    if k < s.len() {
        lemma_trim_end_by(s.drop_last(), p, k);
        assert(s.drop_last().take(k) =~= s.take(k));
    } else {
        assert(s.take(k) =~= s);
    }
}

/// Bounds of `s[lo..hi]` with characters satisfying `p` trimmed from the front.
pub fn trim_start_range(s: &Vec<char>, lo: usize, hi: usize, Ghost(p): Ghost<spec_fn(char) -> bool>, f: impl Fn(char) -> bool) -> (r: usize)
    requires
        lo <= hi <= s@.len(),
        forall|c: char| call_requires(f, (c,)),
        forall|c: char, b: bool| call_ensures(f, (c,), b) ==> b == p(c),
    ensures
        lo <= r <= hi,
        range(s@, r as int, hi as int) == trim_start_by(range(s@, lo as int, hi as int), p),
{
    let mut i = lo;
    while i < hi && f(s[i])
        invariant
            lo <= i <= hi <= s@.len(),
            forall|j: int| lo <= j < i ==> p(#[trigger] s@[j]),
            forall|c: char| call_requires(f, (c,)),
            forall|c: char, b: bool| call_ensures(f, (c,), b) ==> b == p(c),
        decreases hi - i,
    {
        i += 1;
    }
    proof {
        let t = range(s@, lo as int, hi as int);
        assert forall|j: int| 0 <= j < i - lo implies p(#[trigger] t[j]) by {
            assert(t[j] == s@[lo + j]);
        }
        lemma_trim_start_by(t, p, i - lo);
        assert(t.skip(i - lo) =~= range(s@, i as int, hi as int));
        if i < hi {
            assert(!p(t.skip(i - lo)[0]));
        }
    }
    i
}

/// Bounds of `s[lo..hi]` with characters satisfying `p` trimmed from the back.
pub fn trim_end_range(s: &Vec<char>, lo: usize, hi: usize, Ghost(p): Ghost<spec_fn(char) -> bool>, f: impl Fn(char) -> bool) -> (r: usize)
    requires
        lo <= hi <= s@.len(),
        forall|c: char| call_requires(f, (c,)),
        forall|c: char, b: bool| call_ensures(f, (c,), b) ==> b == p(c),
    ensures
        lo <= r <= hi,
        range(s@, lo as int, r as int) == trim_end_by(range(s@, lo as int, hi as int), p),
{
    let mut i = hi;
    while i > lo && f(s[i - 1])
        invariant
            lo <= i <= hi <= s@.len(),
            forall|j: int| i <= j < hi ==> p(#[trigger] s@[j]),
            forall|c: char| call_requires(f, (c,)),
            forall|c: char, b: bool| call_ensures(f, (c,), b) ==> b == p(c),
        decreases i - lo,
    {
        i -= 1;
    }
    proof {
        let t = range(s@, lo as int, hi as int);
        assert forall|j: int| i - lo <= j < t.len() implies p(#[trigger] t[j]) by {
            assert(t[j] == s@[lo + j]);
        }
        lemma_trim_end_by(t, p, i - lo);
        assert(t.take(i - lo) =~= range(s@, lo as int, i as int));
        if i > lo {
            assert(!p(t.take(i - lo).last()));
        }
    }
    i
}

/// Bounds of `s[lo..hi]` with whitespace trimmed from both ends.
pub fn trim_range(s: &Vec<char>, lo: usize, hi: usize) -> (r: (usize, usize))
    requires
        lo <= hi <= s@.len(),
    ensures
        lo <= r.0 <= r.1 <= hi,
        range(s@, r.0 as int, r.1 as int) == trim(range(s@, lo as int, hi as int)),
{
    let a = trim_start_range(s, lo, hi, Ghost(|c: char| is_ws(c)), |c: char| -> (b: bool)
        ensures
            b == is_ws(c),
        { is_whitespace(c) });
    let b = trim_end_range(s, a, hi, Ghost(|c: char| is_ws(c)), |c: char| -> (b: bool)
        ensures
            b == is_ws(c),
        { is_whitespace(c) });
    (a, b)
}

/// The characters of `s`.
pub fn to_chars(s: &str) -> (r: Vec<char>)
    ensures
        r@ == s@,
{
    let n = s.unicode_len();
    let mut out: Vec<char> = Vec::new();
    let mut i: usize = 0;
    while i < n
        invariant
            n == s@.len(),
            i <= n,
            out@ == s@.subrange(0, i as int),
        decreases n - i,
    {
        let c = s.get_char(i);
        out.push(c);
        proof {
            assert(s@.subrange(0, i + 1) =~= s@.subrange(0, i as int).push(c));
        }
        i += 1;
    }
    proof {
        assert(s@.subrange(0, n as int) =~= s@);
    }
    out
}

/// Whether `s[lo..hi]` begins with the characters of `lit`.
pub fn range_starts_with(s: &Vec<char>, lo: usize, hi: usize, lit: &str) -> (r: bool)
    requires
        lo <= hi <= s@.len(),
    ensures
        r == starts_with(range(s@, lo as int, hi as int), lit@),
{
    let n = lit.unicode_len();
    if n > hi - lo {
        return false;
    }
    let mut i: usize = 0;
    while i < n
        invariant
            n == lit@.len(),
            lo + n <= hi <= s@.len(),
            i <= n,
            forall|j: int| 0 <= j < i ==> s@[lo + j] == lit@[j],
        decreases n - i,
    {
        if s[lo + i] != lit.get_char(i) {
            proof {
                assert(range(s@, lo as int, hi as int).take(n as int)[i as int] != lit@[i as int]);
            }
            return false;
        }
        i += 1;
    }
    proof {
        assert(range(s@, lo as int, hi as int).take(n as int) =~= lit@);
    }
    true
}

/// Whether `s[lo..hi]` is exactly the characters of `lit`.
pub fn range_is(s: &Vec<char>, lo: usize, hi: usize, lit: &str) -> (r: bool)
    requires
        lo <= hi <= s@.len(),
    ensures
        r == (range(s@, lo as int, hi as int) == lit@),
{
    let n = lit.unicode_len();
    if n != hi - lo {
        proof {
            assert(range(s@, lo as int, hi as int).len() != lit@.len());
        }
        return false;
    }
    let b = range_starts_with(s, lo, hi, lit);
    proof {
        assert(range(s@, lo as int, hi as int).take(n as int) =~= range(s@, lo as int, hi as int));
    }
    b
}

/// The characters of `s[lo..hi]`.
pub fn copy_range(s: &Vec<char>, lo: usize, hi: usize) -> (r: Vec<char>)
    requires
        lo <= hi <= s@.len(),
    ensures
        r@ == range(s@, lo as int, hi as int),
{
    let mut out: Vec<char> = Vec::new();
    let mut i = lo;
    while i < hi
        invariant
            lo <= i <= hi <= s@.len(),
            out@ == range(s@, lo as int, i as int),
        decreases hi - i,
    {
        out.push(s[i]);
        proof {
            assert(range(s@, lo as int, i + 1) =~= range(s@, lo as int, i as int).push(s@[i as int]));
        }
        i += 1;
    }
    out
}

/// The characters of `v` as a `String`. Trusted: it collects the chars with
/// std's `FromIterator<char>` for `String` (`Iterator::collect`), which
/// vstd does not specify; the contract claims only that the string holds
/// exactly those characters in order, as std documents.
#[verifier::external_body]
pub(crate) fn chars_to_string(v: &Vec<char>) -> (s: String)
    ensures
        s@ == v@,
{
    v.iter().collect()
}

/// The character of a hexadecimal digit (upper case).
pub open spec fn hex_char(d: nat) -> char {
    if d < 10 {
        (48 + d) as char
    } else {
        (55 + d) as char
    }
}

/// Decimal digits of `n`, most significant first.
pub open spec fn dec(n: nat) -> Seq<char>
    decreases n,
{
    if n < 10 {
        seq![hex_char(n)]
    } else {
        dec(n / 10).push(hex_char(n % 10))
    }
}

/// Append the characters of `s`.
pub fn push_str(out: &mut Vec<char>, s: &str)
    ensures
        final(out)@ == old(out)@ + s@,
{
    let n = s.unicode_len();
    let mut i: usize = 0;
    while i < n
        invariant
            n == s@.len(),
            i <= n,
            out@ == old(out)@ + s@.subrange(0, i as int),
        decreases n - i,
    {
        let c = s.get_char(i);
        out.push(c);
        proof {
            assert(s@.subrange(0, i + 1) =~= s@.subrange(0, i as int).push(c));
        }
        i += 1;
    }
    proof {
        assert(s@.subrange(0, n as int) =~= s@);
    }
}

/// The character of a digit below 16.
pub fn digit_char(d: u32) -> (c: char)
    requires
        d < 16,
    ensures
        c == hex_char(d as nat),
{
    if d < 10 {
        ((48 + d) as u8) as char
    } else {
        ((55 + d) as u8) as char
    }
}

/// Append the decimal digits of `n`.
pub fn push_dec(out: &mut Vec<char>, n: u64)
    ensures
        final(out)@ == old(out)@ + dec(n as nat),
    decreases n,
{
    if n >= 10 {
        push_dec(out, n / 10);
    }
    out.push(digit_char((n % 10) as u32));
    proof {
        if n >= 10 {
            assert(dec(n as nat) == dec((n / 10) as nat).push(hex_char((n % 10) as nat)));
        }
    }
    assert(out@ =~= old(out)@ + dec(n as nat));
}

/// Value of a string of decimal digits.
pub open spec fn digits_value(s: Seq<char>) -> int
    decreases s.len(),
{
    if s.len() == 0 {
        0
    } else {
        10 * digits_value(s.drop_last()) + (s.last() as int - '0' as int)
    }
}

/// Whether every character is an ASCII digit.
pub open spec fn all_digits(s: Seq<char>) -> bool {
    forall|i: int| 0 <= i < s.len() ==> '0' <= #[trigger] s[i] && s[i] <= '9'
}

/// What `str::parse::<i32>` accepts: an optional `+` or `-`, then one or more
/// ASCII digits, with a value in range.
pub open spec fn parse_i32_spec(s: Seq<char>) -> Option<i32> {
    let neg = s.len() > 0 && s[0] == '-';
    let signed = s.len() > 0 && (s[0] == '-' || s[0] == '+');
    let body = if signed {
        s.drop_first()
    } else {
        s
    };
    let v = if neg {
        -digits_value(body)
    } else {
        digits_value(body)
    };
    if body.len() == 0 || !all_digits(body) || v < i32::MIN || v > i32::MAX {
        None
    } else {
        Some(v as i32)
    }
}

proof fn lemma_digits_nonneg(s: Seq<char>)
    requires
        all_digits(s),
    ensures
        digits_value(s) >= 0,
    decreases s.len(),
{
    if s.len() > 0 {
        assert(all_digits(s.drop_last())) by {
            assert forall|i: int| 0 <= i < s.drop_last().len() implies '0' <= #[trigger] s.drop_last()[i]
                && s.drop_last()[i] <= '9' by {
                assert(s.drop_last()[i] == s[i]);
            }
        }
        lemma_digits_nonneg(s.drop_last());
    }
}

/// Parse a decimal `i32` the way `str::parse::<i32>` does (see [`parse_i32_spec`]).
pub fn parse_i32(s: &str) -> (r: Option<i32>)
    ensures
        r == parse_i32_spec(s@),
{
    let cs = to_chars(s);
    let n = cs.len();
    if n == 0 {
        proof {
            assert(s@.len() == 0);
        }
        return None;
    }
    let neg = cs[0] == '-';
    let start: usize = if cs[0] == '-' || cs[0] == '+' {
        1
    } else {
        0
    };
    let ghost body = cs@.skip(start as int);
    proof {
        if start == 1 {
            assert(cs@.skip(1) =~= cs@.drop_first());
        } else {
            assert(cs@.skip(0) =~= cs@);
        }
        assert(body.len() == 0 ==> parse_i32_spec(s@) is None);
    }
    if start == n {
        return None;
    }
    // Accumulate the magnitude; stop once it exceeds every i32 magnitude.
    let mut acc: i64 = 0;
    let mut i = start;
    let mut big = false;
    while i < n
        invariant
            start <= i <= n == cs@.len(),
            n > 0,
            start == (if cs@[0] == '-' || cs@[0] == '+' {
                1usize
            } else {
                0usize
            }),
            neg == (cs@[0] == '-'),
            body == cs@.skip(start as int),
            cs@ == s@,
            all_digits(cs@.subrange(start as int, i as int)),
            !big ==> acc == digits_value(cs@.subrange(start as int, i as int)) && 0 <= acc <= 0x8000_0000,
            big ==> digits_value(cs@.subrange(start as int, i as int)) > 0x8000_0000,
        decreases n - i,
    {
        let c = cs[i];
        if !('0' <= c && c <= '9') {
            proof {
                assert(body[i - start] == c);
                assert(!('0' <= body[i - start] && body[i - start] <= '9'));
                assert(!all_digits(body));
                if start == 1 {
                    assert(cs@.skip(1) =~= cs@.drop_first());
                } else {
                    assert(cs@.skip(0) =~= cs@);
                }
            }
            return None;
        }
        let d = (c as u32 - '0' as u32) as i64;
        proof {
            let pre = cs@.subrange(start as int, i as int);
            let nxt = cs@.subrange(start as int, i + 1);
            assert(nxt.drop_last() =~= pre);
            assert(nxt.last() == c);
            assert(all_digits(nxt)) by {
                assert forall|j: int| 0 <= j < nxt.len() implies '0' <= #[trigger] nxt[j] && nxt[j] <= '9' by {
                    if j < pre.len() {
                        assert(nxt[j] == pre[j]);
                    }
                }
            }
            lemma_digits_nonneg(pre);
        }
        if !big {
            acc = acc * 10 + d;
            if acc > 0x8000_0000 {
                big = true;
            }
        }
        i += 1;
    }
    proof {
        assert(cs@.subrange(start as int, n as int) =~= body);
    }
    if big {
        return None;
    }
    let v = if neg {
        -acc
    } else {
        acc
    };
    if v < i32::MIN as i64 || v > i32::MAX as i64 {
        return None;
    }
    Some(v as i32)
}

} // verus!
