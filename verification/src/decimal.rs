//! Fixed-point numbers as decimal text, as the exchange files hold them.

use vstd::arithmetic::div_mod::{lemma_fundamental_div_mod, lemma_fundamental_div_mod_converse};
use vstd::prelude::*;

verus! {

/// Whether the byte is a decimal digit.
pub open spec fn is_digit(b: u8) -> bool {
    48 <= b <= 57
}

/// The byte of a digit.
pub open spec fn digit_byte(d: int) -> u8 {
    (48 + d) as u8
}

/// Ten to the power of `k`.
pub open spec fn pow10(k: nat) -> nat
    decreases k,
{
    if k == 0 {
        1
    } else {
        10 * pow10((k - 1) as nat)
    }
}

/// The decimal digits of `n`, without leading zeros.
pub open spec fn digits(n: nat) -> Seq<u8>
    decreases n,
{
    if n < 10 {
        seq![digit_byte(n as int)]
    } else {
        digits(n / 10).push(digit_byte((n % 10) as int))
    }
}

/// The last `places` decimal digits of `n`, with leading zeros.
pub open spec fn fixed_digits(n: nat, places: nat) -> Seq<u8>
    decreases places,
{
    if places == 0 {
        Seq::empty()
    } else {
        fixed_digits(n / 10, (places - 1) as nat).push(digit_byte((n % 10) as int))
    }
}

/// Whether all bytes are decimal digits.
pub open spec fn all_digits(s: Seq<u8>) -> bool {
    forall|i: int| 0 <= i < s.len() ==> is_digit(#[trigger] s[i])
}

/// The number that a sequence of decimal digits stands for.
pub open spec fn digits_value(s: Seq<u8>) -> nat
    decreases s.len(),
{
    if s.len() == 0 {
        0
    } else {
        digits_value(s.drop_last()) * 10 + (s.last() - 48) as nat
    }
}

/// The number of decimal digits that `s` begins with.
pub open spec fn leading_digits(s: Seq<u8>) -> nat
    decreases s.len(),
{
    if s.len() == 0 || !is_digit(s[0]) {
        0
    } else {
        1 + leading_digits(s.skip(1))
    }
}

/// The text of the fixed-point number `m` with `places` decimals: the whole
/// part, a point, and all decimals.
pub open spec fn magnitude_text(m: nat, places: nat) -> Seq<u8> {
    digits(m / pow10(places)) + seq![46u8] + fixed_digits(m % pow10(places), places)
}

/// The fixed-point number with `places` decimals that `frac`, the digits
/// behind the point, add to the whole part: the first `places` of them,
/// and one more unit where the digit after those is 5 or more.
pub open spec fn fraction_value(frac: Seq<u8>, places: nat) -> nat {
    if frac.len() <= places {
        digits_value(frac) * pow10((places - frac.len()) as nat)
    } else if frac[places as int] >= 53 {
        digits_value(frac.take(places as int)) + 1
    } else {
        digits_value(frac.take(places as int))
    }
}

/// The fixed-point number with `places` decimals that a decimal text
/// without sign stands for, rounded to the nearest: digits, and then
/// possibly a point and more digits. `None` for any other text.
pub open spec fn magnitude_value(text: Seq<u8>, places: nat) -> Option<nat> {
    let k = leading_digits(text) as int;
    if k == 0 {
        None
    } else if k == text.len() {
        Some(digits_value(text) * pow10(places))
    } else if text[k] != 46 || !all_digits(text.skip(k + 1)) {
        None
    } else {
        Some(digits_value(text.take(k)) * pow10(places) + fraction_value(text.skip(k + 1), places))
    }
}

/// The digits of a number are digits.
pub proof fn lemma_digits(n: nat)
    ensures
        digits(n).len() >= 1,
        all_digits(digits(n)),
        digits_value(digits(n)) == n,
    decreases n,
{
    if n < 10 {
        assert(digits(n).drop_last() =~= Seq::<u8>::empty());
        assert(digits_value(digits(n).drop_last()) == 0);
    } else {
        lemma_digits(n / 10);
        assert(digits(n).drop_last() =~= digits(n / 10));
    }
}

/// The last digits of a number are digits, as many as were asked for.
pub proof fn lemma_fixed_digits(n: nat, places: nat)
    ensures
        fixed_digits(n, places).len() == places,
        all_digits(fixed_digits(n, places)),
        digits_value(fixed_digits(n, places)) == n % pow10(places),
    decreases places,
{
    if places > 0 {
        lemma_fixed_digits(n / 10, (places - 1) as nat);
        assert(fixed_digits(n, places).drop_last() =~= fixed_digits(n / 10, (places - 1) as nat));
        let p = pow10((places - 1) as nat);
        lemma_pow10_positive((places - 1) as nat);
        let tens = n / 10;
        let q = tens / p;
        let r = tens % p;
        lemma_fundamental_div_mod(tens as int, p as int);
        assert(n == q * (10 * p) + (10 * r + n % 10)) by (nonlinear_arith)
            requires
                tens == p * q + r,
                n == 10 * tens + n % 10,
        ;
        lemma_fundamental_div_mod_converse(n as int, (10 * p) as int, q as int, (10 * r + n % 10) as int);
    }
}

/// A power of ten is positive.
pub proof fn lemma_pow10_positive(k: nat)
    ensures
        pow10(k) > 0,
    decreases k,
{
    if k > 0 {
        lemma_pow10_positive((k - 1) as nat);
    }
}

/// A text that begins with `k` digits and goes on with none begins with
/// `k` digits.
pub proof fn lemma_leading_digits(s: Seq<u8>, k: int)
    requires
        0 <= k <= s.len(),
        all_digits(s.take(k)),
        k < s.len() ==> !is_digit(s[k]),
    ensures
        leading_digits(s) == k,
    decreases k,
{
    if k > 0 {
        assert(is_digit(s.take(k)[0]));
        assert(all_digits(s.skip(1).take(k - 1))) by {
            assert forall|i: int| 0 <= i < k - 1 implies is_digit(#[trigger] s.skip(1).take(k - 1)[i]) by {
                assert(s.skip(1).take(k - 1)[i] == s.take(k)[i + 1]);
            }
        }
        lemma_leading_digits(s.skip(1), k - 1);
    }
}

/// The text of a fixed-point number stands for that number.
pub proof fn lemma_magnitude_round_trip(m: nat, places: nat)
    ensures
        magnitude_value(magnitude_text(m, places), places) == Some(m),
        magnitude_text(m, places).len() >= 2,
        is_digit(magnitude_text(m, places)[0]),
{
    let scale = pow10(places);
    lemma_pow10_positive(places);
    let whole = digits(m / scale);
    let frac = fixed_digits(m % scale, places);
    let text = magnitude_text(m, places);
    lemma_digits(m / scale);
    lemma_fixed_digits(m % scale, places);
    let k = whole.len() as int;
    assert(text.take(k) =~= whole);
    assert(text[k] == 46);
    assert(text.skip(k + 1) =~= frac);
    lemma_leading_digits(text, k);
    assert(is_digit(whole[0]));
    assert(text[0] == whole[0]);
    assert(pow10(0) == 1);
    assert((m % scale) % scale == m % scale) by (nonlinear_arith)
        requires
            scale > 0,
    ;
    assert((m / scale) * scale + m % scale == m) by (nonlinear_arith)
        requires
            scale > 0,
    ;
    assert(digits_value(frac) * 1 == digits_value(frac));
}

/// A sequence of digits stands for a number below the power of ten of its
/// length.
pub proof fn lemma_digits_value_bound(s: Seq<u8>)
    requires
        all_digits(s),
    ensures
        digits_value(s) < pow10(s.len()),
    decreases s.len(),
{
    if s.len() > 0 {
        assert(all_digits(s.drop_last())) by {
            assert forall|i: int| 0 <= i < s.drop_last().len() implies is_digit(#[trigger] s.drop_last()[i]) by {
                assert(s.drop_last()[i] == s[i]);
            }
        }
        lemma_digits_value_bound(s.drop_last());
        assert(is_digit(s[s.len() - 1]));
    }
}

/// Powers of ten grow with the exponent.
pub proof fn lemma_pow10_grows(a: nat, b: nat)
    requires
        a <= b,
    ensures
        pow10(a) <= pow10(b),
    decreases b,
{
    if a < b {
        lemma_pow10_grows(a, (b - 1) as nat);
        lemma_pow10_positive((b - 1) as nat);
    }
}

/// The number in `u64` that a value stands for, if it is one.
pub open spec fn in_u64(v: Option<nat>) -> Option<u64> {
    match v {
        Some(m) => if m <= u64::MAX {
            Some(m as u64)
        } else {
            None
        },
        None => None,
    }
}

/// Appends the bytes of `rev` in reverse order.
fn push_reversed(out: &mut Vec<u8>, rev: &Vec<u8>)
    ensures
        final(out)@ == old(out)@ + rev@.reverse(),
{
    let mut i: usize = rev.len();
    while i > 0
        invariant
            i <= rev.len(),
            out@ == old(out)@ + rev@.reverse().take(rev.len() - i),
        decreases i,
    {
        i -= 1;
        out.push(rev[i]);
        assert(rev@.reverse().take(rev.len() - i) == rev@.reverse().take(rev.len() - i - 1).push(rev@[i as int]));
    }
    assert(rev@.reverse().take(rev.len() as int) == rev@.reverse());
}

/// Appends the decimal digits of `n`.
fn push_digits(out: &mut Vec<u8>, n: u64)
    ensures
        final(out)@ == old(out)@ + digits(n as nat),
{
    let mut rev: Vec<u8> = Vec::new();
    let mut rest: u64 = n;
    assert(digits(n as nat) == digits(rest as nat) + rev@.reverse());
    while rest >= 10
        invariant
            digits(n as nat) == digits(rest as nat) + rev@.reverse(),
        decreases rest,
    {
        let ghost before = rev@;
        let d: u8 = 48 + (rest % 10) as u8;
        rev.push(d);
        assert(rev@.reverse() == seq![d] + before.reverse());
        assert(digits(rest as nat) == digits((rest / 10) as nat).push(d));
        assert(digits((rest / 10) as nat).push(d) + before.reverse() == digits((rest / 10) as nat) + (seq![d]
            + before.reverse()));
        rest = rest / 10;
    }
    let ghost before = rev@;
    let d: u8 = 48 + rest as u8;
    rev.push(d);
    assert(rev@.reverse() == seq![d] + before.reverse());
    assert(digits(n as nat) == rev@.reverse());
    push_reversed(out, &rev);
}

/// Appends the last `places` decimal digits of `n`.
fn push_fixed_digits(out: &mut Vec<u8>, n: u64, places: usize)
    ensures
        final(out)@ == old(out)@ + fixed_digits(n as nat, places as nat),
{
    let mut rev: Vec<u8> = Vec::new();
    let mut rest: u64 = n;
    let mut count: usize = 0;
    assert(fixed_digits(n as nat, places as nat) == fixed_digits(rest as nat, places as nat) + rev@.reverse());
    while count < places
        invariant
            count <= places,
            fixed_digits(n as nat, places as nat) == fixed_digits(rest as nat, (places - count) as nat)
                + rev@.reverse(),
        decreases places - count,
    {
        let ghost before = rev@;
        let d: u8 = 48 + (rest % 10) as u8;
        rev.push(d);
        assert(rev@.reverse() == seq![d] + before.reverse());
        let ghost shorter = fixed_digits((rest / 10) as nat, (places - count - 1) as nat);
        assert(fixed_digits(rest as nat, (places - count) as nat) == shorter.push(d));
        assert(shorter.push(d) + before.reverse() == shorter + (seq![d] + before.reverse()));
        rest = rest / 10;
        count += 1;
    }
    assert(fixed_digits(rest as nat, 0) + rev@.reverse() == rev@.reverse());
    push_reversed(out, &rev);
}

/// Appends the text of the fixed-point number `m` with `places` decimals.
fn push_magnitude(out: &mut Vec<u8>, m: u64, places: usize, scale: u64)
    requires
        scale == pow10(places as nat),
    ensures
        final(out)@ == old(out)@ + magnitude_text(m as nat, places as nat),
{
    proof {
        lemma_pow10_positive(places as nat);
    }
    push_digits(out, m / scale);
    out.push(46);
    push_fixed_digits(out, m % scale, places);
    assert(out@ == old(out)@ + magnitude_text(m as nat, places as nat));
}

/// The fixed-point number with `places` decimals that the text from
/// position `from` on stands for, if it is a decimal text without sign and
/// the number fits.
fn parse_magnitude(text: &Vec<u8>, from: usize, places: usize, scale: u64) -> (r: Option<u64>)
    requires
        from <= text@.len(),
        scale == pow10(places as nat),
        scale <= 1_000_000_000,
    ensures
        r == in_u64(magnitude_value(text@.skip(from as int), places as nat)),
{
    let ghost body = text@.skip(from as int);
    let cap: u128 = 0x1_0000_0000_0000_0000;
    let mut whole: u128 = 0;
    let mut i: usize = from;
    assert(body.take(0) =~= Seq::<u8>::empty());
    while i < text.len() && 48 <= text[i] && text[i] <= 57
        invariant
            from <= i <= text@.len(),
            body == text@.skip(from as int),
            cap == 0x1_0000_0000_0000_0000,
            all_digits(body.take(i - from)),
            whole == if digits_value(body.take(i - from)) < cap {
                digits_value(body.take(i - from))
            } else {
                cap as nat
            },
        decreases text@.len() - i,
    {
        let d: u128 = (text[i] - 48) as u128;
        proof {
            let now = body.take(i - from + 1);
            assert(now.drop_last() == body.take(i - from));
            assert(now.last() == text@[i as int]);
            assert forall|j: int| 0 <= j < now.len() implies is_digit(#[trigger] now[j]) by {
                if j < now.len() - 1 {
                    assert(now[j] == body.take(i - from)[j]);
                }
            }
        }
        whole = whole * 10 + d;
        if whole > cap {
            whole = cap;
        }
        i += 1;
    }
    let k: usize = i - from;
    proof {
        if i < text@.len() {
            assert(body[k as int] == text@[i as int]);
        }
        lemma_leading_digits(body, k as int);
        lemma_pow10_positive(places as nat);
    }
    if k == 0 {
        return None;
    }
    let ghost whole_value = digits_value(body.take(k as int));
    let mut fraction: u64 = 0;
    if i < text.len() {
        if text[i] != 46 {
            return None;
        }
        let first: usize = i + 1;
        let ghost frac = body.skip(k as int + 1);
        let mut j: usize = first;
        let mut bump: u64 = 0;
        assert(frac.take(0) =~= Seq::<u8>::empty());
        while j < text.len()
            invariant
                first <= j <= text@.len(),
                first == from + k + 1,
                body == text@.skip(from as int),
                frac == body.skip(k as int + 1),
                leading_digits(body) == k,
                k >= 1,
                body[k as int] == 46,
                scale == pow10(places as nat),
                scale <= 1_000_000_000,
                all_digits(frac.take(j - first)),
                bump <= 1,
                j - first <= places ==> fraction == digits_value(frac.take(j - first)) && bump == 0,
                j - first > places ==> fraction == digits_value(frac.take(places as int)) && bump == (if frac[places as int]
                    >= 53 {
                    1u64
                } else {
                    0u64
                }),
                fraction < scale,
            decreases text@.len() - j,
        {
            let b: u8 = text[j];
            assert(frac[j - first] == b);
            if b < 48 || b > 57 {
                assert(!is_digit(frac[j - first]));
                assert(!all_digits(frac));
                return None;
            }
            proof {
                let now = frac.take(j - first + 1);
                assert(now.drop_last() == frac.take(j - first));
                assert(now.last() == b);
                assert forall|q: int| 0 <= q < now.len() implies is_digit(#[trigger] now[q]) by {
                    if q < now.len() - 1 {
                        assert(now[q] == frac.take(j - first)[q]);
                    }
                }
                if j - first < places {
                    lemma_digits_value_bound(now);
                    lemma_pow10_grows(now.len(), places as nat);
                }
            }
            if j - first < places {
                fraction = fraction * 10 + (b - 48) as u64;
            } else if j - first == places {
                if b >= 53 {
                    bump = 1;
                }
            }
            j += 1;
        }
        let seen: usize = j - first;
        assert(frac.take(seen as int) == frac);
        if seen <= places {
            let mut padded: usize = seen;
            proof {
                assert(pow10(0) == 1);
                assert(digits_value(frac) * 1 == digits_value(frac));
                lemma_digits_value_bound(frac);
            }
            while padded < places
                invariant
                    seen <= padded <= places,
                    scale == pow10(places as nat),
                    scale <= 1_000_000_000,
                    all_digits(frac),
                    frac.len() == seen,
                    fraction == digits_value(frac) * pow10((padded - seen) as nat),
                    fraction < pow10(padded as nat),
                decreases places - padded,
            {
                proof {
                    lemma_pow10_grows((padded + 1) as nat, places as nat);
                    assert(digits_value(frac) * pow10((padded + 1 - seen) as nat) == digits_value(frac) * pow10(
                        (padded - seen) as nat,
                    ) * 10) by (nonlinear_arith)
                        requires
                            pow10((padded + 1 - seen) as nat) == 10 * pow10((padded - seen) as nat),
                    ;
                }
                fraction = fraction * 10;
                padded += 1;
            }
        } else {
            fraction = fraction + bump;
        }
        assert(fraction == fraction_value(frac, places as nat));
    } else {
        assert(body.take(k as int) == body);
    }
    assert(whole * scale <= 0x1_0000_0000_0000_0000 * 1_000_000_000) by (nonlinear_arith)
        requires
            whole <= 0x1_0000_0000_0000_0000,
            scale <= 1_000_000_000,
    ;
    let total: u128 = whole * scale as u128 + fraction as u128;
    proof {
        if whole_value >= cap {
            assert(whole_value * scale >= cap) by (nonlinear_arith)
                requires
                    whole_value >= cap,
                    scale >= 1,
            ;
        }
    }
    if total <= u64::MAX as u128 {
        Some(total as u64)
    } else {
        None
    }
}

/// Decimals of a coordinate in an exchange file.
pub const COORDINATE_PLACES: usize = 2;

/// Decimals of a weight in an exchange file.
pub const WEIGHT_PLACES: usize = 4;

/// The text of a coordinate: in pixels, with two decimals, and a minus sign
/// before a negative one.
pub open spec fn coordinate_text(c: i32) -> Seq<u8> {
    if c < 0 {
        seq![45u8] + magnitude_text((-c) as nat, COORDINATE_PLACES as nat)
    } else {
        magnitude_text(c as nat, COORDINATE_PLACES as nat)
    }
}

/// The text of a weight: in pixels, with four decimals.
pub open spec fn weight_text(w: u64) -> Seq<u8> {
    magnitude_text(w as nat, WEIGHT_PLACES as nat)
}

/// The coordinate that a decimal text stands for, rounded to the nearest
/// hundredth of a pixel. `None` where the text is no decimal number.
pub open spec fn coordinate_value(text: Seq<u8>) -> Option<int> {
    if text.len() > 0 && text[0] == 45 {
        match magnitude_value(text.skip(1), COORDINATE_PLACES as nat) {
            Some(m) => Some(-(m as int)),
            None => None,
        }
    } else {
        match magnitude_value(text, COORDINATE_PLACES as nat) {
            Some(m) => Some(m as int),
            None => None,
        }
    }
}

/// The coordinate in `i32` that a value stands for, if it is one.
pub open spec fn in_i32(v: Option<int>) -> Option<i32> {
    match v {
        Some(c) => if i32::MIN <= c <= i32::MAX {
            Some(c as i32)
        } else {
            None
        },
        None => None,
    }
}

/// The text of a coordinate stands for that coordinate.
pub proof fn lemma_coordinate_round_trip(c: i32)
    ensures
        in_i32(coordinate_value(coordinate_text(c))) == Some(c),
{
    let text = coordinate_text(c);
    if c < 0 {
        let rest = magnitude_text((-c) as nat, COORDINATE_PLACES as nat);
        lemma_magnitude_round_trip((-c) as nat, COORDINATE_PLACES as nat);
        assert(text[0] == 45);
        assert(text.skip(1) =~= rest);
    } else {
        lemma_magnitude_round_trip(c as nat, COORDINATE_PLACES as nat);
    }
}

/// The text of a weight stands for that weight.
pub proof fn lemma_weight_round_trip(w: u64)
    ensures
        in_u64(magnitude_value(weight_text(w), WEIGHT_PLACES as nat)) == Some(w),
{
    lemma_magnitude_round_trip(w as nat, WEIGHT_PLACES as nat);
}

/// The text of a coordinate for an exchange file.
pub fn format_coordinate(c: i32) -> (text: Vec<u8>)
    ensures
        text@ == coordinate_text(c),
{
    let mut text: Vec<u8> = Vec::new();
    proof {
        reveal_with_fuel(pow10, 3);
    }
    if c < 0 {
        text.push(45);
        let magnitude: u64 = (-(c as i64)) as u64;
        push_magnitude(&mut text, magnitude, COORDINATE_PLACES, 100);
    } else {
        push_magnitude(&mut text, c as u64, COORDINATE_PLACES, 100);
    }
    text
}

/// The coordinate that a decimal text stands for, rounded to the nearest
/// hundredth of a pixel: an optional minus sign, digits, and then possibly
/// a point and more digits. `None` for any other text, and for a number
/// outside the coordinate range.
pub fn parse_coordinate(text: &Vec<u8>) -> (r: Option<i32>)
    ensures
        r == in_i32(coordinate_value(text@)),
{
    proof {
        reveal_with_fuel(pow10, 3);
    }
    if text.len() > 0 && text[0] == 45 {
        match parse_magnitude(text, 1, COORDINATE_PLACES, 100) {
            Some(m) => if m <= 0x8000_0000 {
                Some((-(m as i64)) as i32)
            } else {
                None
            },
            None => None,
        }
    } else {
        assert(text@.skip(0) == text@);
        match parse_magnitude(text, 0, COORDINATE_PLACES, 100) {
            Some(m) => if m <= 0x7fff_ffff {
                Some(m as i32)
            } else {
                None
            },
            None => None,
        }
    }
}

/// The text of a weight for an exchange file.
pub fn format_weight(w: u64) -> (text: Vec<u8>)
    ensures
        text@ == weight_text(w),
{
    let mut text: Vec<u8> = Vec::new();
    proof {
        reveal_with_fuel(pow10, 5);
    }
    push_magnitude(&mut text, w, WEIGHT_PLACES, 10_000);
    text
}

/// The weight that a decimal text without sign stands for, rounded to the
/// nearest ten-thousandth of a pixel. `None` for any other text, and for a
/// number too large for a weight.
pub fn parse_weight(text: &Vec<u8>) -> (r: Option<u64>)
    ensures
        r == in_u64(magnitude_value(text@, WEIGHT_PLACES as nat)),
{
    proof {
        reveal_with_fuel(pow10, 5);
    }
    assert(text@.skip(0) == text@);
    parse_magnitude(text, 0, WEIGHT_PLACES, 10_000)
}

} // verus!
