//! The text and byte formats at the simulation's edge.
use crate::fixed::{clamp, INFINITY, NEG_INFINITY};
use byteorder::{ByteOrder, NetworkEndian};
use vstd::prelude::*;
use vstd::string::StringSliceAdditionalSpecFns;

verus! {

/// The number that the decimal digits `s` write.
pub open spec fn digits_value(s: Seq<u8>) -> int
    decreases s.len(),
{
    if s.len() == 0 {
        0
    } else {
        digits_value(s.drop_last()) * 10 + (s.last() - 48)
    }
}

/// Every byte of `s` is a decimal digit.
pub open spec fn all_digits(s: Seq<u8>) -> bool {
    forall|i: int| 0 <= i < s.len() ==> 48 <= #[trigger] s[i] <= 57
}

/// The number below 256 that `s` writes in decimal digits, if it does.
pub open spec fn small_number(s: Seq<u8>) -> Option<u8> {
    if s.len() > 0 && all_digits(s) && digits_value(s) <= 255 {
        Some(digits_value(s) as u8)
    } else {
        None
    }
}

/// The index of the first `c` in `s` at or after `from`; the length of `s`
/// where there is none.
pub open spec fn first_index(s: Seq<u8>, c: u8, from: int) -> int
    decreases s.len() - from,
{
    if from < 0 || from >= s.len() {
        s.len() as int
    } else if s[from] == c {
        from
    } else {
        first_index(s, c, from + 1)
    }
}

/// The lane pairing that `s` writes: two numbers with a colon between them.
/// What follows a second colon is not read.
pub open spec fn lane_pair(s: Seq<u8>) -> Option<(u8, u8)> {
    let i = first_index(s, 58, 0);
    if i >= s.len() {
        None
    } else {
        let j = first_index(s, 58, i + 1);
        match (small_number(s.subrange(0, i)), small_number(s.subrange(i + 1, j))) {
            (Some(a), Some(b)) => Some((a, b)),
            _ => None,
        }
    }
}

/// The lane pairings that `s` writes from index `from` on: one or more
/// pairings with semicolons between them.
pub open spec fn lane_pair_list(s: Seq<u8>, from: int) -> Option<Seq<(u8, u8)>>
    decreases s.len() - from,
{
    if from < 0 || from > s.len() {
        None
    } else {
        let i = first_index(s, 59, from);
        match lane_pair(s.subrange(from, i)) {
            None => None,
            Some(p) => if i >= s.len() {
                Some(seq![p])
            } else if i < from {
                None
            } else {
                match lane_pair_list(s, i + 1) {
                    Some(rest) => Some(seq![p] + rest),
                    None => None,
                }
            },
        }
    }
}

/// The index of the first `c` in `s` at or after `from`.
pub(crate) fn find_byte(s: &[u8], c: u8, from: usize) -> (i: usize)
    requires
        from <= s@.len(),
    ensures
        i == first_index(s@, c, from as int),
        from <= i <= s@.len(),
{
    let mut i: usize = from;
    while i < s.len()
        invariant
            from <= i <= s@.len(),
            first_index(s@, c, from as int) == first_index(s@, c, i as int),
        decreases s@.len() - i,
    {
        if s[i] == c {
            return i;
        }
        i += 1;
    }
    i
}

/// Reads the number below 256 that the bytes from `lo` to `hi` write.
pub(crate) fn read_small(s: &[u8], lo: usize, hi: usize) -> (r: Option<u8>)
    requires
        lo <= hi <= s@.len(),
    ensures
        r == small_number(s@.subrange(lo as int, hi as int)),
{
    let ghost t = s@.subrange(lo as int, hi as int);
    if lo == hi {
        return None;
    }
    let mut v: u16 = 0;
    let mut i: usize = lo;
    while i < hi
        invariant
            lo <= i <= hi <= s@.len(),
            t == s@.subrange(lo as int, hi as int),
            all_digits(t.take(i - lo)),
            v == digits_value(t.take(i - lo)),
            v <= 255,
        decreases hi - i,
    {
        let b = s[i];
        proof {
            assert(t[i - lo] == b);
            assert(t.take(i - lo + 1).drop_last() =~= t.take(i - lo));
            assert(t.take(i - lo + 1).last() == b);
        }
        if b < 48 || b > 57 {
            return None;
        }
        let d: u16 = (b - 48) as u16;
        if v * 10 + d > 255 {
            proof {
                if all_digits(t) {
                    lemma_digits_grow(t, i - lo + 1);
                }
            }
            return None;
        }
        v = v * 10 + d;
        i += 1;
        proof {
            assert forall|k: int| 0 <= k < t.take(i - lo).len() implies 48 <= #[trigger] t.take(
                i - lo,
            )[k] <= 57 by {
                if k < i - lo - 1 {
                    assert(t.take(i - lo - 1)[k] == t[k]);
                }
            }
        }
    }
    proof {
        assert(t.take(hi - lo) =~= t);
    }
    Some(v as u8)
}

/// The value of the first `n` digits is no more than that of all of them.
proof fn lemma_digits_grow(s: Seq<u8>, n: int)
    requires
        0 <= n <= s.len(),
        all_digits(s),
    ensures
        digits_value(s.take(n)) <= digits_value(s),
        digits_value(s) >= 0,
    decreases s.len() - n,
{
    if n == s.len() {
        assert(s.take(n) =~= s);
        lemma_digits_nonneg(s);
    } else {
        lemma_digits_grow(s, n + 1);
        assert(s.take(n + 1).drop_last() =~= s.take(n));
        assert(s.take(n + 1).last() == s[n]);
        lemma_digits_nonneg(s.take(n));
    }
}

proof fn lemma_digits_nonneg(s: Seq<u8>)
    requires
        all_digits(s),
    ensures
        digits_value(s) >= 0,
    decreases s.len(),
{
    if s.len() > 0 {
        assert forall|k: int| 0 <= k < s.drop_last().len() implies 48 <= #[trigger] s.drop_last()[k]
            <= 57 by {
            assert(s.drop_last()[k] == s[k]);
        }
        lemma_digits_nonneg(s.drop_last());
    }
}

/// Reads the lane pairing that the bytes from `lo` to `hi` write.
fn read_pair(s: &[u8], lo: usize, hi: usize) -> (r: Option<(u8, u8)>)
    requires
        lo <= hi <= s@.len(),
    ensures
        r == lane_pair(s@.subrange(lo as int, hi as int)),
{
    let ghost t = s@.subrange(lo as int, hi as int);
    let mut i: usize = lo;
    while i < hi && s[i] != 58
        invariant
            lo <= i <= hi <= s@.len(),
            t == s@.subrange(lo as int, hi as int),
            first_index(t, 58, 0) == first_index(t, 58, i - lo),
        decreases hi - i,
    {
        proof {
            assert(t[i - lo] == s@[i as int]);
        }
        i += 1;
    }
    if i >= hi {
        return None;
    }
    proof {
        assert(t[i - lo] == s@[i as int]);
    }
    let mut j: usize = i + 1;
    while j < hi && s[j] != 58
        invariant
            i < j <= hi <= s@.len(),
            lo <= i,
            t == s@.subrange(lo as int, hi as int),
            first_index(t, 58, i - lo + 1) == first_index(t, 58, j - lo),
        decreases hi - j,
    {
        proof {
            assert(t[j - lo] == s@[j as int]);
        }
        j += 1;
    }
    proof {
        if j < hi {
            assert(t[j - lo] == s@[j as int]);
        }
        assert(t.subrange(0, i - lo) =~= s@.subrange(lo as int, i as int));
        assert(t.subrange(i - lo + 1, j - lo) =~= s@.subrange(i + 1, j as int));
    }
    match (read_small(s, lo, i), read_small(s, i + 1, j)) {
        (Some(a), Some(b)) => Some((a, b)),
        _ => None,
    }
}

/// Reads lane pairings such as `0:0;1:2`: each pairing is a lane of the
/// inbound link, a colon and a lane of the outbound link, in decimal digits,
/// and a semicolon stands between two pairings.
pub fn parse_lane_pairs(text: &str) -> (r: Option<Vec<(u8, u8)>>)
    ensures
        match r {
            Some(pairs) => lane_pair_list(text.spec_bytes(), 0) == Some(pairs@),
            None => lane_pair_list(text.spec_bytes(), 0) is None,
        },
{
    parse_lane_pair_bytes(text.as_bytes())
}

/// Reads the lane pairings that the bytes `s` write.
pub fn parse_lane_pair_bytes(s: &[u8]) -> (r: Option<Vec<(u8, u8)>>)
    ensures
        match r {
            Some(pairs) => lane_pair_list(s@, 0) == Some(pairs@),
            None => lane_pair_list(s@, 0) is None,
        },
{
    let mut pairs: Vec<(u8, u8)> = Vec::new();
    let mut from: usize = 0;
    loop
        invariant
            0 <= from <= s@.len(),
            match lane_pair_list(s@, from as int) {
                Some(rest) => lane_pair_list(s@, 0) == Some(pairs@ + rest),
                None => lane_pair_list(s@, 0) is None,
            },
        decreases s@.len() - from,
    {
        let i = find_byte(s, 59, from);
        match read_pair(s, from, i) {
            None => {
                return None;
            },
            Some(p) => {
                let ghost before = pairs@;
                pairs.push(p);
                if i >= s.len() {
                    proof {
                        assert(before + seq![p] =~= pairs@);
                    }
                    return Some(pairs);
                }
                proof {
                    match lane_pair_list(s@, i + 1) {
                        Some(rest) => {
                            assert(before + (seq![p] + rest) =~= pairs@ + rest);
                        },
                        None => {},
                    }
                }
                from = i + 1;
            },
        }
    }
}

/// The number up to `max` that `s` writes in decimal digits, if it does.
pub open spec fn whole_number(s: Seq<u8>, max: int) -> Option<int> {
    if s.len() > 0 && all_digits(s) && digits_value(s) <= max {
        Some(digits_value(s))
    } else {
        None
    }
}

/// The power of ten with exponent `n`.
pub open spec fn tens(n: nat) -> int
    decreases n,
{
    if n == 0 {
        1
    } else {
        10 * tens((n - 1) as nat)
    }
}

/// The number that the first `n` of the digits `d` write, with zeros in the
/// place of those that `d` lacks.
pub open spec fn scaled(d: Seq<u8>, n: int) -> int {
    if n <= 0 {
        0
    } else if n <= d.len() {
        digits_value(d.take(n))
    } else {
        digits_value(d) * tens((n - d.len()) as nat)
    }
}

/// The index of the first `a` or `b` in `s` at or after `from`; the length
/// of `s` where there is none.
pub open spec fn first_of_two(s: Seq<u8>, a: u8, b: u8, from: int) -> int
    decreases s.len() - from,
{
    if from < 0 || from >= s.len() {
        s.len() as int
    } else if s[from] == a || s[from] == b {
        from
    } else {
        first_of_two(s, a, b, from + 1)
    }
}

/// Whether `s` begins with a plus or a minus sign.
pub open spec fn has_sign(s: Seq<u8>) -> bool {
    s.len() > 0 && (s[0] == 43 || s[0] == 45)
}

/// What of `s` follows its sign, if it has one.
pub open spec fn unsigned(s: Seq<u8>) -> Seq<u8> {
    if has_sign(s) {
        s.subrange(1, s.len() as int)
    } else {
        s
    }
}

/// The whole number that `s` writes: an optional sign and one or more
/// digits.
pub open spec fn signed_whole(s: Seq<u8>) -> Option<int> {
    let digits = unsigned(s);
    if digits.len() > 0 && all_digits(digits) {
        Some(
            if s[0] == 45 {
                -digits_value(digits)
            } else {
                digits_value(digits)
            },
        )
    } else {
        None
    }
}

/// The letter `c` as a small letter; any other byte as it is.
pub open spec fn small(c: u8) -> u8 {
    if 65 <= c <= 90 {
        (c + 32) as u8
    } else {
        c
    }
}

/// Whether `s` spells the word `word`, in small or capital letters.
pub open spec fn spells(s: Seq<u8>, word: Seq<u8>) -> bool {
    s.len() == word.len() && forall|i: int| 0 <= i < s.len() ==> small(#[trigger] s[i]) == word[i]
}

/// Whether `s` is one of the words for a quantity without limit: `inf` or
/// `infinity`.
pub open spec fn unlimited(s: Seq<u8>) -> bool {
    spells(s, seq![105u8, 110u8, 102u8]) || spells(
        s,
        seq![105u8, 110u8, 102u8, 105u8, 110u8, 105u8, 116u8, 121u8],
    )
}

/// The quantity that `s` writes as a decimal number: an optional sign;
/// digits, with or without a point among them, before them or after them;
/// and optionally an `e` or `E` and a whole number, the power of ten to
/// multiply by. The quantity is cut off after its sixth decimal, and clamped
/// where it is too large. A sign and one of the words for a quantity without
/// limit write the end of the range on the sign's side.
pub open spec fn decimal(s: Seq<u8>) -> Option<i64> {
    if unlimited(unsigned(s)) {
        Some(
            if s[0] == 45 {
                NEG_INFINITY
            } else {
                INFINITY
            },
        )
    } else {
        number(s)
    }
}

/// The quantity that `s` writes in digits.
pub open spec fn number(s: Seq<u8>) -> Option<i64> {
    let body = unsigned(s);
    let mark = first_of_two(body, 101, 69, 0);
    let mantissa = body.subrange(0, mark);
    let exponent = if mark < body.len() {
        signed_whole(body.subrange(mark + 1, body.len() as int))
    } else {
        Some(0int)
    };
    let dot = first_index(mantissa, 46, 0);
    let whole = mantissa.subrange(0, dot);
    let frac = if dot < mantissa.len() {
        mantissa.subrange(dot + 1, mantissa.len() as int)
    } else {
        Seq::empty()
    };
    if whole.len() + frac.len() > 0 && all_digits(whole) && all_digits(frac) && exponent is Some {
        let size = scaled(whole + frac, whole.len() + 6 + exponent->0);
        Some(
            clamp(
                if s[0] == 45 {
                    -size
                } else {
                    size
                },
            ),
        )
    } else {
        None
    }
}

/// The value of digits grows by a factor of ten with each further digit.
proof fn lemma_digits_step(s: Seq<u8>, n: int)
    requires
        0 <= n < s.len(),
    ensures
        digits_value(s.take(n + 1)) == digits_value(s.take(n)) * 10 + (s[n] - 48),
{
    assert(s.take(n + 1).drop_last() =~= s.take(n));
    assert(s.take(n + 1).last() == s[n]);
}

/// Reads the number up to `max` that the bytes from `lo` to `hi` write.
pub(crate) fn read_whole(s: &[u8], lo: usize, hi: usize, max: u64) -> (r: Option<u64>)
    requires
        lo <= hi <= s@.len(),
        max <= 0xffff_ffff_ffff,
    ensures
        match r {
            Some(v) => whole_number(s@.subrange(lo as int, hi as int), max as int)
                == Some(v as int),
            None => whole_number(s@.subrange(lo as int, hi as int), max as int) is None,
        },
{
    let ghost t = s@.subrange(lo as int, hi as int);
    if lo == hi {
        return None;
    }
    let mut v: u64 = 0;
    let mut i: usize = lo;
    while i < hi
        invariant
            lo <= i <= hi <= s@.len(),
            max <= 0xffff_ffff_ffff,
            t == s@.subrange(lo as int, hi as int),
            all_digits(t.take(i - lo)),
            v == digits_value(t.take(i - lo)),
            v <= max,
        decreases hi - i,
    {
        let b = s[i];
        proof {
            assert(t[i - lo] == b);
            lemma_digits_step(t, i - lo);
        }
        if b < 48 || b > 57 {
            return None;
        }
        let d: u64 = (b - 48) as u64;
        if v * 10 + d > max {
            proof {
                if all_digits(t) {
                    lemma_digits_grow(t, i - lo + 1);
                }
            }
            return None;
        }
        v = v * 10 + d;
        i += 1;
        proof {
            assert forall|k: int| 0 <= k < t.take(i - lo).len() implies 48 <= #[trigger] t.take(
                i - lo,
            )[k] <= 57 by {
                if k < i - lo - 1 {
                    assert(t.take(i - lo - 1)[k] == t[k]);
                }
            }
        }
    }
    proof {
        assert(t.take(hi - lo) =~= t);
    }
    Some(v)
}

/// The bytes of `s` from `lo` to `hi`.
pub(crate) fn part(s: &[u8], lo: usize, hi: usize) -> (r: &[u8])
    requires
        lo <= hi <= s@.len(),
    ensures
        r@ == s@.subrange(lo as int, hi as int),
{
    let (head, _) = s.split_at(hi);
    let (_, r) = head.split_at(lo);
    proof {
        assert(r@ =~= s@.subrange(lo as int, hi as int));
    }
    r
}

/// Whether `s` spells the word `word`, in small or capital letters.
fn is_word(s: &[u8], word: &[u8]) -> (r: bool)
    ensures
        r == spells(s@, word@),
{
    if s.len() != word.len() {
        return false;
    }
    let mut i: usize = 0;
    while i < s.len()
        invariant
            0 <= i <= s@.len(),
            s@.len() == word@.len(),
            forall|k: int| 0 <= k < i ==> small(#[trigger] s@[k]) == word@[k],
        decreases s@.len() - i,
    {
        let c = s[i];
        let low = if c >= 65 && c <= 90 {
            c + 32
        } else {
            c
        };
        if low != word[i] {
            return false;
        }
        i += 1;
    }
    true
}

/// The index of the first `a` or `b` in `s` at or after `from`.
fn find_either(s: &[u8], a: u8, b: u8, from: usize) -> (i: usize)
    requires
        from <= s@.len(),
    ensures
        i == first_of_two(s@, a, b, from as int),
        from <= i <= s@.len(),
{
    let mut i: usize = from;
    while i < s.len()
        invariant
            from <= i <= s@.len(),
            first_of_two(s@, a, b, from as int) == first_of_two(s@, a, b, i as int),
        decreases s@.len() - i,
    {
        if s[i] == a || s[i] == b {
            return i;
        }
        i += 1;
    }
    i
}

/// Whether every byte of `s` is a decimal digit.
fn are_digits(s: &[u8]) -> (r: bool)
    ensures
        r == all_digits(s@),
{
    let mut i: usize = 0;
    while i < s.len()
        invariant
            0 <= i <= s@.len(),
            forall|k: int| 0 <= k < i ==> 48 <= #[trigger] s@[k] <= 57,
        decreases s@.len() - i,
    {
        if s[i] < 48 || s[i] > 57 {
            return false;
        }
        i += 1;
    }
    true
}

/// The number `v` with the digits `d` written after it.
spec fn appended(v: int, d: Seq<u8>) -> int
    decreases d.len(),
{
    if d.len() == 0 {
        v
    } else {
        appended(v, d.drop_last()) * 10 + (d.last() - 48)
    }
}

/// The number `v`, but no more than `cap`.
spec fn capped(v: int, cap: int) -> int {
    if v >= cap {
        cap
    } else {
        v
    }
}

/// From this size on a quantity is beyond the range, whatever its sign.
const SIZE_CAP: u128 = 10_000_000_000_000_000_000;

/// From this size on an exponent decides alone whether the quantity is zero
/// or beyond the range.
const EXPONENT_CAP: u128 = 10_000_000_000_000_000_000_000;

/// Digits written after a number write the number that all of them write.
proof fn lemma_appended(a: Seq<u8>, b: Seq<u8>)
    ensures
        digits_value(a + b) == appended(digits_value(a), b),
    decreases b.len(),
{
    if b.len() == 0 {
        assert(a + b =~= a);
    } else {
        assert((a + b).drop_last() =~= a + b.drop_last());
        assert((a + b).last() == b.last());
        lemma_appended(a, b.drop_last());
    }
}

/// A number with digits written after it is no smaller than it was.
proof fn lemma_appended_grows(v: int, d: Seq<u8>)
    requires
        v >= 0,
        all_digits(d),
    ensures
        appended(v, d) >= v,
    decreases d.len(),
{
    if d.len() > 0 {
        assert forall|k: int| 0 <= k < d.drop_last().len() implies 48 <= #[trigger] d.drop_last()[k]
            <= 57 by {
            assert(d.drop_last()[k] == d[k]);
        }
        lemma_appended_grows(v, d.drop_last());
        assert(48 <= d.last() <= 57);
    }
}

/// Writes the first `n` of the digits `d` after the number `acc`, which
/// stands for `v`, and stops at `cap`.
fn feed(acc: u128, Ghost(v): Ghost<int>, d: &[u8], n: usize, cap: u128) -> (r: u128)
    requires
        all_digits(d@),
        n <= d@.len(),
        v >= 0,
        acc == capped(v, cap as int),
        cap <= EXPONENT_CAP,
    ensures
        r == capped(appended(v, d@.take(n as int)), cap as int),
        appended(v, d@.take(n as int)) >= v,
{
    let mut r: u128 = acc;
    let mut i: usize = 0;
    proof {
        assert(d@.take(0).len() == 0);
    }
    while i < n
        invariant
            0 <= i <= n <= d@.len(),
            all_digits(d@),
            cap <= EXPONENT_CAP,
            v >= 0,
            r == capped(appended(v, d@.take(i as int)), cap as int),
            appended(v, d@.take(i as int)) >= v,
        decreases n - i,
    {
        let digit: u128 = (d[i] - 48) as u128;
        proof {
            assert(48 <= d@[i as int] <= 57);
            assert(d@.take(i + 1).drop_last() =~= d@.take(i as int));
            assert(d@.take(i + 1).last() == d@[i as int]);
        }
        if r < cap {
            r = r * 10 + digit;
            if r > cap {
                r = cap;
            }
        }
        i += 1;
    }
    r
}

/// Ten to a power of twenty or more is more than any size that is read.
proof fn lemma_tens_large(m: nat)
    requires
        m >= 20,
    ensures
        tens(m) >= 100_000_000_000_000_000_000,
    decreases m,
{
    if m == 20 {
        reveal_with_fuel(tens, 21);
    } else {
        lemma_tens_large((m - 1) as nat);
    }
}

/// A power of ten is positive.
proof fn lemma_tens_positive(m: nat)
    ensures
        tens(m) >= 1,
    decreases m,
{
    if m > 0 {
        lemma_tens_positive((m - 1) as nat);
    }
}

/// Multiplies the number `acc`, which stands for `v`, by ten to the power of
/// `m`, and stops at the cap of sizes. A power beyond the twentieth makes no
/// difference.
fn pad(acc: u128, Ghost(v): Ghost<int>, m: u128, Ghost(power): Ghost<nat>) -> (r: u128)
    requires
        v >= 0,
        acc == capped(v, SIZE_CAP as int),
        m == capped(power as int, 20),
    ensures
        r == capped(v * tens(power), SIZE_CAP as int),
{
    let mut r: u128 = acc;
    let mut k: u128 = 0;
    proof {
        assert(v * tens(0) == v) by (nonlinear_arith)
            requires
                tens(0) == 1,
        ;
    }
    while k < m
        invariant
            0 <= k <= m <= 20,
            v >= 0,
            r == capped(v * tens(k as nat), SIZE_CAP as int),
        decreases m - k,
    {
        proof {
            assert(tens((k + 1) as nat) == 10 * tens(k as nat));
            assert(v * tens((k + 1) as nat) == v * tens(k as nat) * 10) by (nonlinear_arith)
                requires
                    tens((k + 1) as nat) == 10 * tens(k as nat),
            ;
            lemma_tens_positive(k as nat);
            assert(v * tens(k as nat) >= 0) by (nonlinear_arith)
                requires
                    v >= 0,
                    tens(k as nat) >= 1,
            ;
        }
        if r < SIZE_CAP {
            r = r * 10;
            if r > SIZE_CAP {
                r = SIZE_CAP;
            }
        }
        k += 1;
    }
    proof {
        if power > 20 {
            lemma_tens_large(power);
            lemma_tens_large(20);
            if v > 0 {
                assert(v * tens(power) >= SIZE_CAP && v * tens(20) >= SIZE_CAP) by (nonlinear_arith)
                    requires
                        v >= 1,
                        tens(power) >= 100_000_000_000_000_000_000,
                        tens(20) >= 100_000_000_000_000_000_000,
                        SIZE_CAP == 10_000_000_000_000_000_000,
                ;
            } else {
                assert(v * tens(power) == 0 && v * tens(20) == 0) by (nonlinear_arith)
                    requires
                        v == 0,
                ;
            }
        }
    }
    r
}

/// An exponent, held within the caps on both sides.
spec fn bounded(e: int) -> int {
    if e >= EXPONENT_CAP {
        EXPONENT_CAP as int
    } else if e <= -EXPONENT_CAP {
        -EXPONENT_CAP
    } else {
        e
    }
}

/// Reads the whole number that `s` writes, with its sign; one beyond the cap
/// of exponents is read as the cap.
fn read_exponent(s: &[u8]) -> (r: Option<i128>)
    ensures
        match signed_whole(s@) {
            Some(e) => r == Some(bounded(e) as i128),
            None => r is None,
        },
{
    let signed = s.len() > 0 && (s[0] == 43 || s[0] == 45);
    let digits = if signed {
        part(s, 1, s.len())
    } else {
        s
    };
    if digits.len() == 0 || !are_digits(digits) {
        return None;
    }
    let size = feed(0, Ghost(0), digits, digits.len(), EXPONENT_CAP);
    proof {
        assert(digits@.take(digits@.len() as int) =~= digits@);
        lemma_appended(Seq::<u8>::empty(), digits@);
        assert(Seq::<u8>::empty() + digits@ =~= digits@);
    }
    if s[0] == 45 {
        Some(-(size as i128))
    } else {
        Some(size as i128)
    }
}

/// Reads the quantity that the bytes from `lo` to `hi` write as a decimal
/// number.
pub(crate) fn read_decimal(s: &[u8], lo: usize, hi: usize) -> (r: Option<i64>)
    requires
        lo <= hi <= s@.len(),
    ensures
        r == decimal(s@.subrange(lo as int, hi as int)),
{
    let text = part(s, lo, hi);
    let signed = text.len() > 0 && (text[0] == 43 || text[0] == 45);
    let negative = text.len() > 0 && text[0] == 45;
    let body = if signed {
        part(text, 1, text.len())
    } else {
        text
    };
    let short: [u8; 3] = [105, 110, 102];
    let long: [u8; 8] = [105, 110, 102, 105, 110, 105, 116, 121];
    proof {
        assert(short@ =~= seq![105u8, 110u8, 102u8]);
        assert(long@ =~= seq![105u8, 110u8, 102u8, 105u8, 110u8, 105u8, 116u8, 121u8]);
    }
    if is_word(body, short.as_slice()) || is_word(body, long.as_slice()) {
        return Some(
            if negative {
                NEG_INFINITY
            } else {
                INFINITY
            },
        );
    }
    let mark = find_either(body, 101, 69, 0);
    let mantissa = part(body, 0, mark);
    let exponent: i128 = if mark < body.len() {
        match read_exponent(part(body, mark + 1, body.len())) {
            Some(e) => e,
            None => {
                return None;
            },
        }
    } else {
        0
    };
    let ghost power: int = if mark < body.len() {
        signed_whole(body@.subrange(mark + 1, body@.len() as int))->0
    } else {
        0
    };
    let dot = find_byte(mantissa, 46, 0);
    let whole = part(mantissa, 0, dot);
    let frac = if dot < mantissa.len() {
        part(mantissa, dot + 1, mantissa.len())
    } else {
        part(mantissa, 0, 0)
    };
    proof {
        if dot >= mantissa.len() {
            assert(frac@ =~= Seq::<u8>::empty());
        }
    }
    if (whole.len() == 0 && frac.len() == 0) || !are_digits(whole) || !are_digits(frac) {
        return None;
    }
    proof {
        assert(bounded(power) == exponent);
    }
    let size = read_size(whole, frac, exponent, Ghost(power));
    Some(with_sign(size, negative, Ghost(scaled(whole@ + frac@, whole@.len() + 6 + power))))
}

/// The quantity of size `size`, which stands for `v`, with its sign.
fn with_sign(size: u128, negative: bool, Ghost(v): Ghost<int>) -> (r: i64)
    requires
        v >= 0,
        size == capped(v, SIZE_CAP as int),
    ensures
        r == clamp(
            if negative {
                -v
            } else {
                v
            },
        ),
{
    if size > 0x7fff_ffff_ffff_ffff {
        if negative {
            if size > 0x8000_0000_0000_0000 {
                i64::MIN
            } else {
                (-(size as i128)) as i64
            }
        } else {
            i64::MAX
        }
    } else if negative {
        -(size as i64)
    } else {
        size as i64
    }
}

/// Reads the size that the digits `whole` before the point and `frac` after
/// it write in millionths, with `exponent`, which stands for `power`, as the
/// power of ten to multiply by.
fn read_size(whole: &[u8], frac: &[u8], exponent: i128, Ghost(power): Ghost<int>) -> (size: u128)
    requires
        all_digits(whole@),
        all_digits(frac@),
        exponent == bounded(power),
    ensures
        size == capped(scaled(whole@ + frac@, whole@.len() + 6 + power), SIZE_CAP as int),
        scaled(whole@ + frac@, whole@.len() + 6 + power) >= 0,
{
    let ghost d = whole@ + frac@;
    let ghost places: int = whole@.len() + 6 + power;
    let given: i128 = whole.len() as i128 + frac.len() as i128;
    let wanted: i128 = whole.len() as i128 + 6 + exponent;
    proof {
        lemma_appended(Seq::<u8>::empty(), whole@);
        assert(Seq::<u8>::empty() + whole@ =~= whole@);
        assert(whole@.take(whole@.len() as int) =~= whole@);
        assert(frac@.take(frac@.len() as int) =~= frac@);
    }
    if wanted <= 0 {
        0
    } else if wanted <= whole.len() as i128 {
        proof {
            assert(d.take(places) =~= whole@.take(places));
            lemma_appended(Seq::<u8>::empty(), whole@.take(places));
            assert(Seq::<u8>::empty() + whole@.take(places) =~= whole@.take(places));
        }
        feed(0, Ghost(0), whole, wanted as usize, SIZE_CAP)
    } else {
        let first = feed(0, Ghost(0), whole, whole.len(), SIZE_CAP);
        if wanted <= given {
            proof {
                let rest = frac@.take(places - whole@.len());
                assert(d.take(places) =~= whole@ + rest);
                lemma_appended(whole@, rest);
            }
            feed(
                first,
                Ghost(digits_value(whole@)),
                frac,
                (wanted - whole.len() as i128) as usize,
                SIZE_CAP,
            )
        } else {
            proof {
                lemma_appended(whole@, frac@);
                lemma_appended_grows(digits_value(whole@), frac@);
                lemma_digits_nonneg(whole@);
                lemma_tens_positive((places - d.len()) as nat);
                assert(digits_value(d) * tens((places - d.len()) as nat) >= 0) by (nonlinear_arith)
                    requires
                        digits_value(d) >= 0,
                        tens((places - d.len()) as nat) >= 1,
                ;
            }
            let all = feed(first, Ghost(digits_value(whole@)), frac, frac.len(), SIZE_CAP);
            let more: i128 = wanted - given;
            pad(
                all,
                Ghost(digits_value(d)),
                if more > 20 {
                    20
                } else {
                    more as u128
                },
                Ghost((places - d.len()) as nat),
            )
        }
    }
}

/// `first_index` finds an index between `from` and the end.
pub proof fn lemma_first_index_bounds(s: Seq<u8>, c: u8, from: int)
    requires
        0 <= from <= s.len(),
    ensures
        from <= first_index(s, c, from) <= s.len(),
        first_index(s, c, from) < s.len() ==> s[first_index(s, c, from)] == c,
        forall|k: int| from <= k < first_index(s, c, from) ==> s[k] != c,
    decreases s.len() - from,
{
    if from < s.len() && s[from] != c {
        lemma_first_index_bounds(s, c, from + 1);
    }
}

/// The code of a frame message.
pub const FRAME_CODE: u32 = 1;

/// What ends a frame.
pub const FRAME_END: u32 = 0xffff_ffff;

/// What a frame tells of one vehicle. The four quantities are carried as the
/// bit patterns of single-precision floating-point numbers.
#[derive(Clone, Copy, Debug, PartialEq, Eq, Structural)]
pub struct FrameRecord {
    pub user_id: u32,
    pub link: u32,
    pub pos: u32,
    pub vel: u32,
    pub lat: u32,
    pub dlat: u32,
}

/// The four bytes of `n`, the most significant first.
pub open spec fn be_bytes(n: u32) -> Seq<u8> {
    seq![
        (n / 0x100_0000) as u8,
        (n / 0x1_0000 % 0x100) as u8,
        (n / 0x100 % 0x100) as u8,
        (n % 0x100) as u8,
    ]
}

/// The bytes of one vehicle's record.
pub open spec fn record_bytes(r: FrameRecord) -> Seq<u8> {
    be_bytes(r.user_id) + be_bytes(r.link) + be_bytes(r.pos) + be_bytes(r.vel) + be_bytes(r.lat)
        + be_bytes(r.dlat)
}

/// The bytes of the first `n` records, one after the other.
pub open spec fn records_bytes(records: Seq<FrameRecord>, n: int) -> Seq<u8>
    decreases n,
{
    if n <= 0 {
        Seq::empty()
    } else {
        records_bytes(records, n - 1) + record_bytes(records[n - 1])
    }
}

/// The bytes of a frame: the frame code, the number of the tick, the
/// vehicles' records and the end mark.
pub open spec fn frame_bytes(step: u32, records: Seq<FrameRecord>) -> Seq<u8> {
    be_bytes(FRAME_CODE) + be_bytes(step) + records_bytes(records, records.len() as int) + be_bytes(
        FRAME_END,
    )
}

/// `byteorder::ByteOrder::write_u32` of `byteorder::NetworkEndian`, on a
/// buffer of four bytes: the buffer then holds `n` with the most significant
/// byte first.
#[verifier::external_body]
fn to_network_order(n: u32) -> (b: [u8; 4])
    ensures
        b@ == be_bytes(n),
{
    let mut b = [0u8; 4];
    NetworkEndian::write_u32(&mut b, n);
    b
}

/// Appends the four bytes of `n` to `out`.
fn put_u32(out: &mut Vec<u8>, n: u32)
    ensures
        final(out)@ == old(out)@ + be_bytes(n),
{
    let b = to_network_order(n);
    out.push(b[0]);
    out.push(b[1]);
    out.push(b[2]);
    out.push(b[3]);
    proof {
        assert(out@ =~= old(out)@ + be_bytes(n));
    }
}

/// Appends to `out` the frame of tick `step` with the vehicles' `records`.
pub fn encode_frame(out: &mut Vec<u8>, step: u32, records: &Vec<FrameRecord>)
    ensures
        final(out)@ == old(out)@ + frame_bytes(step, records@),
{
    put_u32(out, FRAME_CODE);
    put_u32(out, step);
    let mut i: usize = 0;
    while i < records.len()
        invariant
            0 <= i <= records@.len(),
            out@ == old(out)@ + be_bytes(FRAME_CODE) + be_bytes(step) + records_bytes(
                records@,
                i as int,
            ),
        decreases records@.len() - i,
    {
        let r = records[i];
        let ghost before = out@;
        put_u32(out, r.user_id);
        put_u32(out, r.link);
        put_u32(out, r.pos);
        put_u32(out, r.vel);
        put_u32(out, r.lat);
        put_u32(out, r.dlat);
        i += 1;
        proof {
            assert(out@ =~= before + record_bytes(r));
            assert(out@ =~= old(out)@ + be_bytes(FRAME_CODE) + be_bytes(step) + records_bytes(
                records@,
                i as int,
            ));
        }
    }
    put_u32(out, FRAME_END);
    proof {
        assert(out@ =~= old(out)@ + frame_bytes(step, records@));
    }
}

} // verus!
