//! Reading a distance from its decimal text.
//!
//! A distance is written in metres as a decimal number: digits with an
//! optional sign in front, an optional point with digits before it, after it
//! or on both sides, and an optional exponent of ten: `4851`, `+12`,
//! `12345.6`, `7.`, `.5`, `1e3`, `2.5E-1`. It is read exactly or not at all:
//! a text is refused where it is no such number, where the number is below
//! zero, where it is not a whole number of micrometres, and where it is
//! above the longest distance that can be held.

use vstd::prelude::*;
use crate::activity::{Distance, MAX_MICROMETRES};

verus! {

/// The power of ten by which a number of metres is a number of micrometres.
pub const MICROMETRE_DIGITS: u64 = 6;

/// An exponent of this size or more, on either side, is beyond every
/// distance that can be held: two to the power of one hundred.
pub const EXPONENT_LIMIT: i128 = 0x10_0000_0000_0000_0000_0000_0000;

/// Whether `c` is one of the digits `0` to `9`.
pub open spec fn is_digit(c: char) -> bool {
    '0' <= c <= '9'
}

/// The number that the digit `c` stands for.
pub open spec fn digit_value(c: char) -> nat
    recommends
        is_digit(c),
{
    (c as nat - '0' as nat) as nat
}

/// Whether `s` holds digits only.
pub open spec fn all_digits(s: Seq<char>) -> bool {
    forall|i: int| 0 <= i < s.len() ==> is_digit(#[trigger] s[i])
}

/// Whether `s` holds the digit `0` only.
pub open spec fn all_zeros(s: Seq<char>) -> bool {
    forall|i: int| 0 <= i < s.len() ==> #[trigger] s[i] == '0'
}

/// The number that the digits `s` write in base ten; zero for no digits.
pub open spec fn digits_value(s: Seq<char>) -> nat
    decreases s.len(),
{
    if s.len() == 0 {
        0
    } else {
        digits_value(s.drop_last()) * 10 + digit_value(s.last())
    }
}

/// Ten to the power of `n`.
pub open spec fn pow10(n: nat) -> nat
    decreases n,
{
    if n == 0 {
        1
    } else {
        10 * pow10((n - 1) as nat)
    }
}

/// How many digits `s` begins with.
pub open spec fn leading_digits(s: Seq<char>) -> nat
    decreases s.len(),
{
    if s.len() > 0 && is_digit(s[0]) {
        1 + leading_digits(s.drop_first())
    } else {
        0
    }
}

/// How many characters of sign `s` begins with: one for `+` or `-`, else
/// none.
pub open spec fn sign_length(s: Seq<char>) -> int {
    if s.len() > 0 && (s[0] == '+' || s[0] == '-') {
        1
    } else {
        0
    }
}

/// Whether `s` begins with the sign `-`.
pub open spec fn begins_negative(s: Seq<char>) -> bool {
    s.len() > 0 && s[0] == '-'
}

/// A decimal number taken apart: its sign, the digits before and after the
/// point, and its exponent of ten. It stands for the number that the digits
/// `whole + fraction` write, times ten to the power of
/// `exponent - fraction.len()`.
pub struct Parts {
    /// Whether the sign is `-`.
    pub negative: bool,
    /// The digits before the point.
    pub whole: Seq<char>,
    /// The digits after the point.
    pub fraction: Seq<char>,
    /// The exponent of ten; zero where none is written.
    pub exponent: int,
}

/// The exponent that `rest` writes: nothing for zero, or `e` or `E`, an
/// optional sign and at least one digit. `None` for anything else.
pub open spec fn exponent_of(rest: Seq<char>) -> Option<int> {
    if rest.len() == 0 {
        Some(0)
    } else if rest[0] == 'e' || rest[0] == 'E' {
        let signed = rest.drop_first();
        let digits = signed.skip(sign_length(signed));
        if digits.len() >= 1 && all_digits(digits) {
            if begins_negative(signed) {
                Some(-(digits_value(digits) as int))
            } else {
                Some(digits_value(digits) as int)
            }
        } else {
            None
        }
    } else {
        None
    }
}

/// The parts of the decimal number that `text` writes, or `None` where
/// `text` is no decimal number. At least one digit stands before or after
/// the point; the point itself is not needed.
pub open spec fn parts_of(text: Seq<char>) -> Option<Parts> {
    let body = text.skip(sign_length(text));
    let whole = leading_digits(body) as int;
    let after_whole = body.skip(whole);
    let pointed = after_whole.len() > 0 && after_whole[0] == '.';
    let after_point = if pointed {
        after_whole.drop_first()
    } else {
        after_whole
    };
    let fraction = if pointed {
        leading_digits(after_point) as int
    } else {
        0
    };
    if whole + fraction == 0 {
        None
    } else {
        match exponent_of(after_point.skip(fraction)) {
            Some(exponent) => Some(
                Parts {
                    negative: begins_negative(text),
                    whole: body.take(whole),
                    fraction: after_point.take(fraction),
                    exponent,
                },
            ),
            None => None,
        }
    }
}

/// The power of ten by which the digits of `parts`, read as one number,
/// are micrometres.
pub open spec fn micrometre_shift(parts: Parts) -> int {
    parts.exponent - parts.fraction.len() + MICROMETRE_DIGITS
}

/// The micrometres that `parts` stands for, where that is a whole number
/// not below zero: the digits with zeros added behind them, or with zeros
/// taken away from behind them. Digits other than zero below the
/// micrometre, and a number below zero, give `None`.
pub open spec fn micrometres_of(parts: Parts) -> Option<nat> {
    let digits = parts.whole + parts.fraction;
    let shift = micrometre_shift(parts);
    if all_zeros(digits) {
        Some(0)
    } else if parts.negative {
        None
    } else if shift >= 0 {
        Some(digits_value(digits) * pow10(shift as nat))
    } else if -shift <= digits.len() && all_zeros(digits.skip(digits.len() + shift)) {
        Some(digits_value(digits.take(digits.len() + shift)))
    } else {
        None
    }
}

/// The micrometres that `text` writes: exactly the number written, or
/// `None` where `text` is no decimal number or its number cannot be held.
pub open spec fn micrometres_reading(text: Seq<char>) -> Option<nat> {
    match parts_of(text) {
        Some(parts) => match micrometres_of(parts) {
            Some(micrometres) => if micrometres <= MAX_MICROMETRES {
                Some(micrometres)
            } else {
                None
            },
            None => None,
        },
        None => None,
    }
}

/// The distance that `text` writes.
pub open spec fn distance_reading(text: Seq<char>) -> Option<Distance> {
    match micrometres_reading(text) {
        Some(micrometres) => Some(Distance::of_micrometres(micrometres)),
        None => None,
    }
}

/// The exponent `e`, held within the limit on either side.
pub open spec fn within_limit(e: int) -> int {
    if e > EXPONENT_LIMIT {
        EXPONENT_LIMIT as int
    } else if e < -EXPONENT_LIMIT {
        -EXPONENT_LIMIT
    } else {
        e
    }
}

/// `s` begins with exactly `k` digits.
proof fn lemma_leading_digits(s: Seq<char>, k: int)
    requires
        0 <= k <= s.len(),
        forall|j: int| 0 <= j < k ==> is_digit(#[trigger] s[j]),
        k == s.len() || !is_digit(s[k]),
    ensures
        leading_digits(s) == k,
    decreases k,
{
    if k > 0 {
        let t = s.drop_first();
        assert forall|j: int| 0 <= j < k - 1 implies is_digit(#[trigger] t[j]) by {
            assert(t[j] == s[j + 1]);
        }
        lemma_leading_digits(t, k - 1);
    }
}

/// A higher power of ten is not less, and none is below one.
pub proof fn lemma_pow10_grows(a: nat, b: nat)
    requires
        a <= b,
    ensures
        1 <= pow10(a) <= pow10(b),
    decreases b,
{
    if b > 0 {
        if a < b {
            lemma_pow10_grows(a, (b - 1) as nat);
        } else {
            lemma_pow10_grows((a - 1) as nat, (b - 1) as nat);
        }
    }
}

/// Ten to the power of nineteen is above the longest distance.
proof fn lemma_pow10_beyond_reach()
    ensures
        pow10(19) > MAX_MICROMETRES,
{
    reveal_with_fuel(pow10, 20);
}

/// Digits that are not all zero write a number that is not zero.
proof fn lemma_digits_positive(s: Seq<char>)
    requires
        all_digits(s),
        !all_zeros(s),
    ensures
        digits_value(s) >= 1,
    decreases s.len(),
{
    if s.len() > 0 {
        let shorter = s.drop_last();
        if s.last() == '0' {
            let i = choose|i: int| 0 <= i < s.len() && #[trigger] s[i] != '0';
            assert(shorter[i] == s[i]);
            assert forall|j: int| 0 <= j < shorter.len() implies is_digit(#[trigger] shorter[j]) by {
                assert(shorter[j] == s[j]);
            }
            lemma_digits_positive(shorter);
        } else {
            assert(is_digit(s[s.len() - 1]));
        }
    }
}

/// The digits that `s` begins with are digits.
proof fn lemma_leading_are_digits(s: Seq<char>)
    ensures
        leading_digits(s) <= s.len(),
        all_digits(s.take(leading_digits(s) as int)),
    decreases s.len(),
{
    if s.len() > 0 && is_digit(s[0]) {
        let t = s.drop_first();
        lemma_leading_are_digits(t);
        let k = leading_digits(s) as int;
        assert forall|j: int| 0 <= j < k implies is_digit(#[trigger] s.take(k)[j]) by {
            if j > 0 {
                assert(s.take(k)[j] == t.take(k - 1)[j - 1]);
            }
        }
    }
}

/// Digits that are all zero write zero.
proof fn lemma_zeros_value(s: Seq<char>)
    requires
        all_zeros(s),
    ensures
        digits_value(s) == 0,
    decreases s.len(),
{
    if s.len() > 0 {
        let shorter = s.drop_last();
        assert forall|j: int| 0 <= j < shorter.len() implies #[trigger] shorter[j] == '0' by {
            assert(shorter[j] == s[j]);
        }
        lemma_zeros_value(shorter);
        assert(s[s.len() - 1] == '0');
    }
}

/// Digits write a number below ten to the power of their count.
proof fn lemma_digits_bound(s: Seq<char>)
    requires
        all_digits(s),
    ensures
        digits_value(s) < pow10(s.len()),
    decreases s.len(),
{
    if s.len() > 0 {
        let shorter = s.drop_last();
        assert forall|j: int| 0 <= j < shorter.len() implies is_digit(#[trigger] shorter[j]) by {
            assert(shorter[j] == s[j]);
        }
        lemma_digits_bound(shorter);
        assert(is_digit(s[s.len() - 1]));
    }
}

/// The number that digits write is the number that the first `k` of them
/// write, times ten for each digit behind them, and the number that the
/// digits behind them write.
proof fn lemma_digits_split(s: Seq<char>, k: int)
    requires
        0 <= k <= s.len(),
    ensures
        digits_value(s) == digits_value(s.take(k)) * pow10((s.len() - k) as nat) + digits_value(
            s.skip(k),
        ),
    decreases s.len(),
{
    if k == s.len() {
        assert(s.take(k) == s);
        assert(digits_value(s) * pow10(0) == digits_value(s)) by (nonlinear_arith)
            requires
                pow10(0) == 1,
        ;
    } else {
        let t = s.drop_last();
        lemma_digits_split(t, k);
        assert(t.take(k) == s.take(k));
        assert(s.skip(k).drop_last() == t.skip(k));
        assert(s.skip(k).last() == s.last());
        let head = digits_value(s.take(k));
        let p = pow10((t.len() - k) as nat);
        assert(pow10((s.len() - k) as nat) == 10 * p);
        assert((head * p + digits_value(t.skip(k))) * 10 == head * (10 * p) + digits_value(
            t.skip(k),
        ) * 10) by (nonlinear_arith);
    }
}

/// The digits of a decimal number are digits.
proof fn lemma_parts_are_digits(text: Seq<char>)
    requires
        parts_of(text) is Some,
    ensures
        all_digits(parts_of(text)->0.whole + parts_of(text)->0.fraction),
{
    let parts = parts_of(text)->0;
    let body = text.skip(sign_length(text));
    lemma_leading_are_digits(body);
    let after_whole = body.skip(leading_digits(body) as int);
    if after_whole.len() > 0 && after_whole[0] == '.' {
        lemma_leading_are_digits(after_whole.drop_first());
    }
    let digits = parts.whole + parts.fraction;
    assert forall|j: int| 0 <= j < digits.len() implies is_digit(#[trigger] digits[j]) by {
        if j < parts.whole.len() {
            assert(digits[j] == parts.whole[j]);
        } else {
            assert(digits[j] == parts.fraction[j - parts.whole.len()]);
        }
    }
}

/// The micrometres of a decimal number are exactly the number written: the
/// digits, read as one number, times ten to the power of the shift. Where
/// the shift is below zero this is said without dividing: the micrometres
/// times that power of ten are the digits.
pub proof fn law_micrometres_are_exact(parts: Parts)
    requires
        micrometres_of(parts) is Some,
    ensures
        micrometre_shift(parts) >= 0 ==> micrometres_of(parts)->0 == digits_value(
            parts.whole + parts.fraction,
        ) * pow10(micrometre_shift(parts) as nat),
        micrometre_shift(parts) < 0 ==> micrometres_of(parts)->0 * pow10(
            (-micrometre_shift(parts)) as nat,
        ) == digits_value(parts.whole + parts.fraction),
{
    let digits = parts.whole + parts.fraction;
    let shift = micrometre_shift(parts);
    if all_zeros(digits) {
        lemma_zeros_value(digits);
        assert(0 * pow10(shift as nat) == 0) by (nonlinear_arith);
        assert(0 * pow10((-shift) as nat) == 0) by (nonlinear_arith);
    } else if shift < 0 {
        let keep = digits.len() + shift;
        lemma_digits_split(digits, keep);
        lemma_zeros_value(digits.skip(keep));
    }
}

/// A decimal number is refused only where no distance is that number. It is
/// refused where it is below zero, where it is above the longest distance,
/// and else only where no whole number of micrometres is the number written:
/// whatever number of micrometres is tried, times the power of ten it is not
/// the digits.
pub proof fn law_refused_cannot_be_held(text: Seq<char>, micrometres: nat)
    requires
        parts_of(text) is Some,
        micrometres_of(parts_of(text)->0) is None,
        !parts_of(text)->0.negative,
    ensures
        micrometre_shift(parts_of(text)->0) < 0,
        micrometres * pow10((-micrometre_shift(parts_of(text)->0)) as nat) != digits_value(
            parts_of(text)->0.whole + parts_of(text)->0.fraction,
        ),
{
    let parts = parts_of(text)->0;
    lemma_parts_are_digits(text);
    let digits = parts.whole + parts.fraction;
    let shift = micrometre_shift(parts);
    let q = (-shift) as nat;
    let p = pow10(q);
    lemma_digits_positive(digits);
    if q <= digits.len() {
        let keep = digits.len() + shift;
        let tail = digits.skip(keep);
        lemma_digits_split(digits, keep);
        assert forall|j: int| 0 <= j < tail.len() implies is_digit(#[trigger] tail[j]) by {
            assert(tail[j] == digits[keep + j]);
        }
        lemma_digits_positive(tail);
        lemma_digits_bound(tail);
        let head = digits_value(digits.take(keep));
        let rest = digits_value(tail);
        assert(micrometres * p != head * p + rest) by (nonlinear_arith)
            requires
                0 < rest < p,
        ;
    } else {
        lemma_digits_bound(digits);
        lemma_pow10_grows(digits.len(), q);
        let value = digits_value(digits);
        assert(micrometres * p != value) by (nonlinear_arith)
            requires
                0 < value < p,
        ;
    }
}

/// The characters of `text`, in order.
pub fn characters(text: &str) -> (v: Vec<char>)
    ensures
        v@ == text@,
{
    let mut v: Vec<char> = Vec::new();
    for c in it: text.chars()
        invariant
            it.seq() == text@,
            v@ == text@.take(it.index() as int),
    {
        v.push(c);
    }
    v
}

fn is_digit_char(c: char) -> (r: bool)
    ensures
        r == is_digit(c),
{
    c >= '0' && c <= '9'
}

/// The index behind the digits that begin at `from`.
fn digits_end(cs: &Vec<char>, from: usize) -> (end: usize)
    requires
        from <= cs.len(),
    ensures
        from <= end <= cs.len(),
        end - from == leading_digits(cs@.skip(from as int)),
        all_digits(cs@.subrange(from as int, end as int)),
{
    let mut i: usize = from;
    while i < cs.len() && is_digit_char(cs[i])
        invariant
            from <= i <= cs.len(),
            forall|j: int| from <= j < i ==> is_digit(#[trigger] cs@[j]),
        decreases cs.len() - i,
    {
        i += 1;
    }
    proof {
        let s = cs@.skip(from as int);
        assert forall|j: int| 0 <= j < i - from implies is_digit(#[trigger] s[j]) by {
            assert(s[j] == cs@[from + j]);
        }
        lemma_leading_digits(s, i - from);
    }
    i
}

/// The characters from `from` up to `to`.
fn copy_range(cs: &Vec<char>, from: usize, to: usize) -> (r: Vec<char>)
    requires
        from <= to <= cs.len(),
    ensures
        r@ == cs@.subrange(from as int, to as int),
{
    let mut r: Vec<char> = Vec::new();
    let mut i: usize = from;
    while i < to
        invariant
            from <= i <= to <= cs.len(),
            r@ == cs@.subrange(from as int, i as int),
        decreases to - i,
    {
        r.push(cs[i]);
        i += 1;
    }
    r
}

/// Whether the digits from `from` on are all zero.
fn zeros_from(digits: &Vec<char>, from: usize) -> (r: bool)
    requires
        from <= digits.len(),
    ensures
        r == all_zeros(digits@.skip(from as int)),
{
    let mut i: usize = from;
    while i < digits.len()
        invariant
            from <= i <= digits.len(),
            forall|j: int| from <= j < i ==> #[trigger] digits@[j] == '0',
        decreases digits.len() - i,
    {
        if digits[i] != '0' {
            assert(digits@.skip(from as int)[i - from] == digits@[i as int]);
            return false;
        }
        i += 1;
    }
    assert forall|j: int| 0 <= j < digits@.skip(from as int).len() implies #[trigger] digits@.skip(
        from as int,
    )[j] == '0' by {
        assert(digits@.skip(from as int)[j] == digits@[from + j]);
    }
    true
}

/// The number that the first `count` digits write, or `None` where it is
/// above the longest distance.
fn value_of(digits: &Vec<char>, count: usize) -> (r: Option<u64>)
    requires
        count <= digits.len(),
        all_digits(digits@),
    ensures
        match r {
            Some(v) => v == digits_value(digits@.take(count as int)) && v <= MAX_MICROMETRES,
            None => digits_value(digits@.take(count as int)) > MAX_MICROMETRES,
        },
{
    let mut value: u64 = 0;
    let mut too_large = false;
    let mut i: usize = 0;
    while i < count
        invariant
            i <= count <= digits.len(),
            all_digits(digits@),
            value <= MAX_MICROMETRES,
            !too_large ==> value == digits_value(digits@.take(i as int)),
            too_large ==> digits_value(digits@.take(i as int)) > MAX_MICROMETRES,
        decreases count - i,
    {
        assert(is_digit(digits@[i as int]));
        let d: u64 = (digits[i] as u32 - '0' as u32) as u64;
        proof {
            let next = digits@.take(i + 1);
            assert(next.drop_last() == digits@.take(i as int));
            assert(next.last() == digits@[i as int]);
            assert(digit_value(digits@[i as int]) == d);
        }
        if !too_large {
            if value > (MAX_MICROMETRES - d) / 10 {
                too_large = true;
            } else {
                value = value * 10 + d;
            }
        }
        i += 1;
    }
    if too_large {
        None
    } else {
        Some(value)
    }
}

/// Reads the exponent that stands at `from`, held within the limit.
fn read_exponent(cs: &Vec<char>, from: usize) -> (r: Option<i128>)
    requires
        from <= cs.len(),
    ensures
        match exponent_of(cs@.skip(from as int)) {
            Some(e) => r == Some(within_limit(e) as i128),
            None => r is None,
        },
{
    let n = cs.len();
    if from == n {
        return Some(0);
    }
    let ghost rest = cs@.skip(from as int);
    assert(rest[0] == cs@[from as int]);
    if cs[from] != 'e' && cs[from] != 'E' {
        return None;
    }
    let ghost signed = rest.drop_first();
    assert(signed == cs@.skip(from + 1));
    let mut i: usize = from + 1;
    let mut negative = false;
    if i < n && (cs[i] == '+' || cs[i] == '-') {
        negative = cs[i] == '-';
        i += 1;
    }
    let start = i;
    let ghost digits = signed.skip(sign_length(signed));
    assert(digits == cs@.skip(start as int));
    assert(negative == begins_negative(signed));
    let mut magnitude: i128 = 0;
    while i < n && is_digit_char(cs[i])
        invariant
            start <= i <= n,
            n == cs.len(),
            forall|j: int| start <= j < i ==> is_digit(#[trigger] cs@[j]),
            0 <= magnitude <= EXPONENT_LIMIT,
            magnitude == within_limit(digits_value(cs@.subrange(start as int, i as int)) as int),
        decreases n - i,
    {
        let d: i128 = (cs[i] as u32 - '0' as u32) as i128;
        proof {
            let next = cs@.subrange(start as int, i + 1);
            assert(next.drop_last() == cs@.subrange(start as int, i as int));
            assert(next.last() == cs@[i as int]);
            assert(digit_value(cs@[i as int]) == d);
        }
        if magnitude > (EXPONENT_LIMIT - d) / 10 {
            magnitude = EXPONENT_LIMIT;
        } else {
            magnitude = magnitude * 10 + d;
        }
        i += 1;
    }
    if i == start || i < n {
        proof {
            if digits.len() >= 1 {
                if i < n {
                    assert(digits[i - start] == cs@[i as int]);
                } else {
                    assert(digits[0] == cs@[start as int]);
                }
            }
        }
        return None;
    }
    proof {
        assert(cs@.subrange(start as int, n as int) == digits);
        assert forall|j: int| 0 <= j < digits.len() implies is_digit(#[trigger] digits[j]) by {
            assert(digits[j] == cs@[start + j]);
        }
    }
    if negative {
        Some(-magnitude)
    } else {
        Some(magnitude)
    }
}

/// A decimal number taken apart for reckoning: the digits before and after
/// the point in one row, and the exponent held within the limit.
struct Split {
    negative: bool,
    digits: Vec<char>,
    fraction_length: usize,
    exponent: i128,
}

/// Whether `split` holds `parts`.
spec fn holds(split: Split, parts: Parts) -> bool {
    &&& split.negative == parts.negative
    &&& split.digits@ == parts.whole + parts.fraction
    &&& all_digits(split.digits@)
    &&& split.fraction_length == parts.fraction.len()
    &&& split.exponent == within_limit(parts.exponent)
}

/// What `parts_of` comes to, said over places in the text: the sign ends at
/// `sign`, the digits before the point at `whole_end`, and the digits after
/// it run from `fraction_start` to `fraction_end`.
proof fn lemma_layout(
    cs: Seq<char>,
    sign: int,
    whole_end: int,
    fraction_start: int,
    fraction_end: int,
)
    requires
        sign == sign_length(cs),
        sign <= whole_end <= cs.len(),
        whole_end - sign == leading_digits(cs.skip(sign)),
        whole_end < cs.len() && cs[whole_end] == '.' ==> fraction_start == whole_end + 1
            && fraction_end - fraction_start == leading_digits(cs.skip(fraction_start)),
        !(whole_end < cs.len() && cs[whole_end] == '.') ==> fraction_start == whole_end
            && fraction_end == whole_end,
        fraction_start <= fraction_end <= cs.len(),
    ensures
        whole_end - sign + (fraction_end - fraction_start) == 0 ==> parts_of(cs) is None,
        whole_end - sign + (fraction_end - fraction_start) != 0 ==> parts_of(cs) == (match exponent_of(
            cs.skip(fraction_end),
        ) {
            Some(exponent) => Some(
                Parts {
                    negative: begins_negative(cs),
                    whole: cs.subrange(sign, whole_end),
                    fraction: cs.subrange(fraction_start, fraction_end),
                    exponent,
                },
            ),
            None => None,
        }),
{
    let body = cs.skip(sign);
    let whole = leading_digits(body) as int;
    let after_whole = body.skip(whole);
    assert(after_whole == cs.skip(whole_end));
    let pointed = after_whole.len() > 0 && after_whole[0] == '.';
    if whole_end < cs.len() {
        assert(after_whole[0] == cs[whole_end]);
    }
    let after_point = if pointed {
        after_whole.drop_first()
    } else {
        after_whole
    };
    assert(after_point == cs.skip(fraction_start));
    let fraction = fraction_end - fraction_start;
    assert(after_point.skip(fraction) == cs.skip(fraction_end));
    assert(body.take(whole) == cs.subrange(sign, whole_end));
    assert(after_point.take(fraction) == cs.subrange(fraction_start, fraction_end));
}

/// Takes the decimal number that `cs` writes apart.
fn split(cs: &Vec<char>) -> (r: Option<Split>)
    ensures
        match parts_of(cs@) {
            Some(parts) => r matches Some(split) && holds(split, parts),
            None => r is None,
        },
{
    let n = cs.len();
    let mut sign: usize = 0;
    let mut negative = false;
    if n > 0 && (cs[0] == '+' || cs[0] == '-') {
        negative = cs[0] == '-';
        sign = 1;
    }
    let whole_end = digits_end(cs, sign);
    let pointed = whole_end < n && cs[whole_end] == '.';
    let fraction_start = if pointed {
        whole_end + 1
    } else {
        whole_end
    };
    let fraction_end = if pointed {
        digits_end(cs, fraction_start)
    } else {
        fraction_start
    };
    proof {
        lemma_layout(
            cs@,
            sign as int,
            whole_end as int,
            fraction_start as int,
            fraction_end as int,
        );
    }
    if whole_end - sign + (fraction_end - fraction_start) == 0 {
        return None;
    }
    let exponent = match read_exponent(cs, fraction_end) {
        Some(e) => e,
        None => { return None; },
    };
    let mut digits = copy_range(cs, sign, whole_end);
    let mut fraction = copy_range(cs, fraction_start, fraction_end);
    let ghost whole_digits = digits@;
    let ghost fraction_digits = fraction@;
    digits.append(&mut fraction);
    proof {
        assert(all_digits(fraction_digits)) by {
            if !pointed {
                assert(fraction_digits.len() == 0);
            }
        }
        assert forall|j: int| 0 <= j < digits@.len() implies is_digit(#[trigger] digits@[j]) by {
            if j < whole_digits.len() {
                assert(digits@[j] == whole_digits[j]);
            } else {
                assert(digits@[j] == fraction_digits[j - whole_digits.len()]);
            }
        }
    }
    Some(Split { negative, digits, fraction_length: fraction_end - fraction_start, exponent })
}

/// `value` with `zeros` zeros written behind it, or `None` where that is
/// above the longest distance.
fn with_zeros(value: u64, zeros: i128) -> (r: Option<u64>)
    requires
        1 <= value <= MAX_MICROMETRES,
        0 <= zeros,
    ensures
        match r {
            Some(v) => v == value * pow10(zeros as nat) && v <= MAX_MICROMETRES,
            None => value * pow10(zeros as nat) > MAX_MICROMETRES,
        },
{
    let mut v: u64 = value;
    let mut k: i128 = 0;
    assert(value * pow10(0) == value) by (nonlinear_arith)
        requires
            pow10(0) == 1,
    ;
    while k < zeros
        invariant
            0 <= k <= zeros,
            1 <= value,
            1 <= v <= MAX_MICROMETRES,
            v == value * pow10(k as nat),
        decreases zeros - k,
    {
        proof {
            assert(value * pow10((k + 1) as nat) == v * 10) by (nonlinear_arith)
                requires
                    v == value * pow10(k as nat),
                    pow10((k + 1) as nat) == 10 * pow10(k as nat),
            ;
        }
        if v > MAX_MICROMETRES / 10 {
            proof {
                lemma_pow10_grows((k + 1) as nat, zeros as nat);
                assert(value * pow10(zeros as nat) > MAX_MICROMETRES) by (nonlinear_arith)
                    requires
                        value * pow10((k + 1) as nat) > MAX_MICROMETRES,
                        pow10((k + 1) as nat) <= pow10(zeros as nat),
                        value >= 1,
                ;
            }
            return None;
        }
        v = v * 10;
        k += 1;
    }
    Some(v)
}

/// The micrometres that `split` stands for, where a distance can hold them.
fn scaled(split: &Split, Ghost(parts): Ghost<Parts>) -> (r: Option<Distance>)
    requires
        holds(*split, parts),
    ensures
        match r {
            Some(distance) => micrometres_of(parts) == Some(distance@) && distance@
                <= MAX_MICROMETRES,
            None => match micrometres_of(parts) {
                Some(micrometres) => micrometres > MAX_MICROMETRES,
                None => true,
            },
        },
{
    let digits = &split.digits;
    assert(digits@.skip(0) == digits@);
    if zeros_from(digits, 0) {
        return Distance::from_micrometres(0);
    }
    if split.negative {
        return None;
    }
    let length = digits.len();
    proof {
        lemma_digits_positive(digits@);
        assert(digits@.take(length as int) == digits@);
    }
    if split.exponent >= EXPONENT_LIMIT {
        proof {
            let shift = micrometre_shift(parts);
            lemma_pow10_beyond_reach();
            lemma_pow10_grows(19, shift as nat);
            assert(digits_value(digits@) * pow10(shift as nat) > MAX_MICROMETRES) by (nonlinear_arith)
                requires
                    digits_value(digits@) >= 1,
                    pow10(shift as nat) > MAX_MICROMETRES,
            ;
        }
        return None;
    }
    if split.exponent <= -EXPONENT_LIMIT {
        return None;
    }
    let shift: i128 = split.exponent - split.fraction_length as i128 + 6;
    assert(shift == micrometre_shift(parts));
    if shift >= 0 {
        match value_of(digits, length) {
            Some(value) => match with_zeros(value, shift) {
                Some(micrometres) => Distance::from_micrometres(micrometres),
                None => None,
            },
            None => {
                proof {
                    lemma_pow10_grows(0, shift as nat);
                    assert(digits_value(digits@) * pow10(shift as nat) > MAX_MICROMETRES)
                        by (nonlinear_arith)
                        requires
                            digits_value(digits@) > MAX_MICROMETRES,
                            pow10(shift as nat) >= 1,
                    ;
                }
                None
            },
        }
    } else {
        if -shift > length as i128 {
            return None;
        }
        let keep: usize = (length as i128 + shift) as usize;
        if !zeros_from(digits, keep) {
            return None;
        }
        match value_of(digits, keep) {
            Some(micrometres) => Distance::from_micrometres(micrometres),
            None => None,
        }
    }
}

/// Reads a distance from its decimal text in metres. Returns the distance
/// that the text writes, exactly, or `None` where the text is no decimal
/// number, where its number is below zero or is not a whole number of
/// micrometres, and where it is above `MAX_MICROMETRES`.
pub fn read_distance(text: &str) -> (r: Option<Distance>)
    ensures
        r == distance_reading(text@),
        r matches Some(distance) ==> micrometres_reading(text@) == Some(distance@),
{
    let cs = characters(text);
    match split(&cs) {
        Some(split) => {
            let r = scaled(&split, Ghost(parts_of(text@)->0));
            proof {
                if let Some(distance) = r {
                    distance.lemma_of_micrometres();
                }
            }
            r
        },
        None => None,
    }
}

} // verus!
