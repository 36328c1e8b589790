//! The place of the 95th percentile among a number of sorted values.
//!
//! The place is the count of values, as a double-precision number, times the
//! double nearest to 0.95, cut off to a whole number. It is computed here on
//! integers, as the arithmetic of doubles defines it: a double holds 53
//! significant bits, and a value that needs more is rounded to the nearest
//! number that needs no more, and to the one with an even last bit where two
//! are equally near.

use vstd::arithmetic::div_mod::{lemma_div_denominator, lemma_fundamental_div_mod};
use vstd::arithmetic::power2::{
    lemma2_to64, lemma2_to64_rest, lemma_pow2_pos, lemma_pow2_unfold, pow2,
};
use vstd::prelude::*;

verus! {

/// Two to the power 53: below it every whole number is a double.
pub const DOUBLE_RANGE: u128 = 0x20_0000_0000_0000;

/// The double nearest to 0.95, in units of one part in `DOUBLE_RANGE`.
pub const NEAR_95_PERCENT: u128 = 0x1e_6666_6666_6666;

/// The distance between neighbouring doubles at `value`: the power of two by
/// which `value` has to be divided to need no more than 53 bits.
pub open spec fn spacing(value: nat) -> nat
    decreases value,
{
    if value < DOUBLE_RANGE {
        1
    } else {
        2 * spacing(value / 2)
    }
}

/// The double nearest to a whole number: the nearest multiple of the spacing
/// there, and of two that are equally near the one that is an even multiple.
pub open spec fn nearest_double(value: nat) -> nat {
    let unit = spacing(value);
    let below = (value / unit) * unit;
    let rest = value - below;
    if 2 * rest > unit || (2 * rest == unit && (value / unit) % 2 == 1) {
        below + unit
    } else {
        below
    }
}

/// The place of the 95th percentile among `count` sorted values: the product
/// of the doubles nearest to `count` and to 0.95, rounded to a double and
/// then cut off to a whole number.
pub open spec fn rank_95(count: nat) -> nat {
    nearest_double((nearest_double(count) * NEAR_95_PERCENT) as nat) / (DOUBLE_RANGE as nat)
}

/// The spacing is at least one, and at a value of two to the power 53 or more
/// it is at most one part in two to the power 52 of the value.
proof fn lemma_spacing_small(value: nat)
    ensures
        spacing(value) >= 1,
        value >= DOUBLE_RANGE ==> spacing(value) * 0x10_0000_0000_0000 <= value,
    decreases value,
{
    if value >= DOUBLE_RANGE {
        lemma_spacing_small(value / 2);
    }
}

/// Rounding to the nearest double moves a value up by at most one part in
/// two to the power 53.
pub proof fn lemma_nearest_double_bound(value: nat)
    ensures
        nearest_double(value) * 0x20_0000_0000_0000 <= value * 0x20_0000_0000_0001,
{
    let unit = spacing(value);
    let lead = value / unit;
    lemma_spacing_small(value);
    lemma_fundamental_div_mod(value as int, unit as int);
    assert(lead * unit == unit * lead) by (nonlinear_arith);
    if value < DOUBLE_RANGE {
        assert(lead * unit == value) by (nonlinear_arith)
            requires
                value == unit * lead + value % unit,
                unit == 1,
        ;
    }
}

/// The place of the 95th percentile is the place of one of the values.
pub proof fn lemma_rank_95_in_range(count: nat)
    requires
        count > 0,
    ensures
        rank_95(count) < count,
{
    let rounded_count = nearest_double(count);
    let product = (rounded_count * NEAR_95_PERCENT) as nat;
    let rounded = nearest_double(product);
    lemma_nearest_double_bound(count);
    lemma_nearest_double_bound(product);
    assert(product == rounded_count * 0x1e_6666_6666_6666);
    assert(rounded < count * 0x20_0000_0000_0000);
}

/// A value divided by the spacing there needs no more than 53 bits.
proof fn lemma_spacing_lead(value: nat)
    ensures
        value / spacing(value) < DOUBLE_RANGE,
    decreases value,
{
    if value >= DOUBLE_RANGE {
        lemma_spacing_lead(value / 2);
        lemma_spacing_small(value / 2);
        lemma_div_denominator(value as int, 2, spacing(value / 2) as int);
    }
}

/// The spacing at a value below two to the power 53 + `exponent` divides two
/// to the power `exponent`; the quotient is handed back.
proof fn lemma_spacing_divides(value: nat, exponent: nat) -> (factor: nat)
    requires
        value < DOUBLE_RANGE * pow2(exponent),
    ensures
        factor * spacing(value) == pow2(exponent),
    decreases value,
{
    lemma_pow2_pos(exponent);
    if value < DOUBLE_RANGE {
        assert(pow2(exponent) * 1 == pow2(exponent));
        pow2(exponent)
    } else {
        if exponent == 0 {
            lemma2_to64();
        }
        lemma_pow2_unfold(exponent);
        let factor = lemma_spacing_divides(value / 2, (exponent - 1) as nat);
        assert(factor * (2 * spacing(value / 2)) == 2 * (factor * spacing(value / 2)))
            by (nonlinear_arith);
        factor
    }
}

/// A multiple of `unit` that is not above `value` is not above the greatest
/// such multiple, and one that is above `value` is above that by at least
/// one `unit`.
proof fn lemma_multiples(times: int, unit: int, value: int)
    requires
        unit > 0,
        value >= 0,
    ensures
        times * unit <= value ==> times * unit <= (value / unit) * unit,
        times * unit > value ==> times * unit >= (value / unit) * unit + unit,
{
    lemma_fundamental_div_mod(value, unit);
    let lead = value / unit;
    assert(lead * unit == unit * lead) by (nonlinear_arith);
    if times * unit <= value {
        assert(times <= lead) by (nonlinear_arith)
            requires
                times * unit <= value,
                value < lead * unit + unit,
                unit > 0,
        ;
        assert(times * unit <= lead * unit) by (nonlinear_arith)
            requires
                times <= lead,
                unit > 0,
        ;
    } else {
        assert(times >= lead + 1) by (nonlinear_arith)
            requires
                times * unit > value,
                value >= lead * unit,
                unit > 0,
        ;
        assert(times * unit >= lead * unit + unit) by (nonlinear_arith)
            requires
                times >= lead + 1,
                unit > 0,
        ;
    }
}

/// Among up to two to the power 48 values the place of the 95th percentile
/// is nineteen twentieths of their number, rounded down.
pub proof fn lemma_rank_95_is_nineteen_twentieths(count: nat)
    requires
        count <= 0x1_0000_0000_0000,
    ensures
        rank_95(count) == (count * 19) / 20,
{
    let range: int = 0x20_0000_0000_0000;
    let place: int = ((count * 19) / 20) as int;
    let over: int = count * 19 - 20 * place;
    let product: nat = (count * NEAR_95_PERCENT) as nat;
    assert(spacing(count) == 1);
    assert(nearest_double(count) == count) by {
        assert((count / 1) * 1 == count);
    }
    let unit: int = spacing(product) as int;
    let lead: int = (product / spacing(product)) as int;
    let rounded: int = nearest_double(product) as int;
    lemma_spacing_small(product);
    lemma_spacing_lead(product);
    lemma_fundamental_div_mod(product as int, unit);
    assert(lead * unit == unit * lead) by (nonlinear_arith);
    lemma2_to64_rest();
    let factor: int = lemma_spacing_divides(product, 48) as int;
    assert(range == (32 * factor) * unit) by (nonlinear_arith)
        requires
            factor * unit == 0x1_0000_0000_0000,
            range == 32 * 0x1_0000_0000_0000,
    ;
    assert(count > 0 ==> unit <= 2 * count) by {
        if product >= DOUBLE_RANGE {
            assert(unit * 0x10_0000_0000_0000 <= count * 0x1e_6666_6666_6666);
        }
    }
    assert(20 * product == place * 20 * range + over * range - 8 * count) by (nonlinear_arith)
        requires
            product == count * 0x1e_6666_6666_6666,
            range == 0x20_0000_0000_0000,
            over == count * 19 - 20 * place,
    ;
    let low: int = place * (32 * factor);
    let high: int = (place + 1) * (32 * factor);
    assert(low * unit == place * range) by (nonlinear_arith)
        requires
            low == place * (32 * factor),
            range == (32 * factor) * unit,
    ;
    assert(high * unit == place * range + range) by (nonlinear_arith)
        requires
            high == (place + 1) * (32 * factor),
            range == (32 * factor) * unit,
    ;
    lemma_multiples(low, unit, product as int);
    lemma_multiples(high, unit, product as int);
    if over >= 1 {
        assert(place * range <= rounded < place * range + range);
    } else if count > 0 {
        assert(lead * unit < range * unit) by (nonlinear_arith)
            requires
                lead < range,
                unit > 0,
        ;
        assert(place * range < range * unit + range);
        assert(place < unit + 1) by (nonlinear_arith)
            requires
                place * range < range * unit + range,
                range > 0,
        ;
        lemma_multiples(low - 1, unit, product as int);
        assert((low - 1) * unit == low * unit - unit) by (nonlinear_arith);
        assert(rounded == place * range);
    }
    assert(rounded / range == place) by (nonlinear_arith)
        requires
            place * range <= rounded < place * range + range,
            range > 0,
    ;
}

/// Rounds a whole number to the nearest double.
pub fn round_to_double(value: u128) -> (rounded: u128)
    requires
        value < 0x4000_0000_0000_0000_0000_0000_0000_0000,
    ensures
        rounded == nearest_double(value as nat),
{
    let mut unit: u128 = 1;
    let mut lead: u128 = value;
    while lead >= DOUBLE_RANGE
        invariant
            unit >= 1,
            unit == 1 || lead >= 1,
            lead == value / unit,
            unit * lead <= value,
            spacing(value as nat) == unit * spacing(lead as nat),
        decreases lead,
    {
        proof {
            lemma_div_denominator(value as int, unit as int, 2);
            assert(unit * 2 * (lead / 2) <= unit * lead) by (nonlinear_arith)
                requires
                    unit >= 1,
                    lead >= 0,
            ;
            assert(unit * 2 <= unit * lead) by (nonlinear_arith)
                requires
                    unit >= 1,
                    lead >= 2,
            ;
            assert(unit * (2 * spacing((lead / 2) as nat)) == (unit * 2) * spacing(
                (lead / 2) as nat,
            )) by (nonlinear_arith);
        }
        lead = lead / 2;
        unit = unit * 2;
    }
    assert(spacing(value as nat) == unit) by (nonlinear_arith)
        requires
            spacing(value as nat) == unit * spacing(lead as nat),
            spacing(lead as nat) == 1,
    ;
    let below: u128 = unit * lead;
    let rest: u128 = value - below;
    proof {
        lemma_fundamental_div_mod(value as int, unit as int);
        assert(unit * lead == lead * unit) by (nonlinear_arith);
        assert(unit == 1 || unit <= value) by (nonlinear_arith)
            requires
                unit * lead <= value,
                unit == 1 || lead >= 1,
                unit >= 1,
        ;
    }
    if rest > unit - rest || (rest == unit - rest && lead % 2 == 1) {
        below + unit
    } else {
        below
    }
}

/// The place of the 95th percentile among `count` sorted values. It is the
/// place of one of them, and for up to two to the power 48 values it is
/// nineteen twentieths of their number, rounded down.
pub fn p95_index(count: usize) -> (index: usize)
    ensures
        index == rank_95(count as nat),
        count > 0 ==> index < count,
        count <= 0x1_0000_0000_0000 ==> index == (count * 19) / 20,
{
    let rounded_count: u128 = round_to_double(count as u128);
    proof {
        lemma_nearest_double_bound(count as nat);
        if count > 0 {
            lemma_rank_95_in_range(count as nat);
        }
        if count <= 0x1_0000_0000_0000 {
            lemma_rank_95_is_nineteen_twentieths(count as nat);
        }
    }
    let product: u128 = rounded_count * NEAR_95_PERCENT;
    let rounded: u128 = round_to_double(product);
    (rounded / DOUBLE_RANGE) as usize
}

} // verus!
