//! Shares of an amount, in parts of a billion.
use crate::types::Balance;
use sp_runtime::Perbill;
use vstd::prelude::*;

verus! {

/// The parts that make up a whole.
pub const BILLION: u32 = 1_000_000_000;

/// How many billionths of `whole` the amount `part` is, rounded down.
///
/// Nothing counts as one, and what exceeds the whole counts as the whole. Where the whole is more
/// than a billion, both are first divided by the least number that brings it to a billion or less.
pub open spec fn billionths(part: nat, whole: nat) -> nat {
    let q = if whole == 0 { 1 } else { whole };
    let p = if part <= q { part } else { q };
    let factor = (q + BILLION - 1) as nat / BILLION as nat;
    (p / factor) * (BILLION as nat) / (q / factor)
}

/// `parts` billionths of `amount`, rounded to the nearest whole number; an exact half is rounded
/// down.
pub open spec fn scaled(parts: nat, amount: nat) -> nat {
    let product = parts * amount;
    let half_passed = product % (BILLION as nat) > (BILLION / 2) as nat;
    product / (BILLION as nat) + if half_passed { 1nat } else { 0nat }
}

/// The share of `amount` that belongs to `part` of `whole`.
pub open spec fn share(part: nat, whole: nat, amount: nat) -> nat {
    scaled(billionths(part, whole), amount)
}

/// `Perbill::from_rational_approximation` of `sp_runtime`, with the number of its parts taken out.
///
/// It is trusted to give the billionths of `whole` that `part` is, as `billionths` says.
#[verifier::external_body]
fn perbill_from_rational(part: Balance, whole: Balance) -> (parts: u32)
    ensures
        parts == billionths(part as nat, whole as nat),
{
    Perbill::from_rational_approximation(part, whole).deconstruct()
}

/// Multiplication of an amount by a `Perbill` of `sp_runtime`, which is given by its parts.
///
/// It is trusted to give that many billionths of the amount, rounded as `scaled` says.
#[verifier::external_body]
fn perbill_mul(parts: u32, amount: Balance) -> (product: Balance)
    requires
        parts <= BILLION,
    ensures
        product == scaled(parts as nat, amount as nat),
{
    Perbill::from_parts(parts) * amount
}

/// A share is no more than a billion billionths.
pub proof fn lemma_billionths_bound(part: nat, whole: nat)
    ensures
        billionths(part, whole) <= BILLION,
{
    let b = BILLION as int;
    let q = if whole == 0 { 1 } else { whole };
    let p = if part <= q { part } else { q };
    let factor = (q + BILLION - 1) as nat / BILLION as nat;
    lemma_factor(q);
    let pr = (p / factor) as int;
    let qr = (q / factor) as int;
    assert(pr <= qr) by {
        vstd::arithmetic::div_mod::lemma_div_is_ordered(p as int, q as int, factor as int);
    }
    assert(qr > 0);
    assert(pr * b / qr <= b) by (nonlinear_arith)
        requires
            0 <= pr <= qr,
            qr > 0,
            b > 0,
    ;
}

/// The factor that brings a whole to a billion or less leaves something of it.
proof fn lemma_factor(q: nat)
    requires
        q >= 1,
    ensures
        ({
            let factor = (q + BILLION - 1) as nat / BILLION as nat;
            factor >= 1 && q / factor >= 1
        }),
{
    let factor = (q + BILLION - 1) as nat / BILLION as nat;
    assert(1 <= factor <= q) by (nonlinear_arith)
        requires
            q >= 1,
            factor == (q + BILLION - 1) as nat / BILLION as nat,
            BILLION == 1_000_000_000,
    ;
    assert(q / factor >= 1) by (nonlinear_arith)
        requires
            1 <= factor <= q,
    ;
}

/// The share of `amount` that belongs to `part` of `whole`.
pub fn share_of(part: Balance, whole: Balance, amount: Balance) -> (r: Balance)
    ensures
        r == share(part as nat, whole as nat, amount as nat),
{
    proof {
        lemma_billionths_bound(part as nat, whole as nat);
    }
    let parts = perbill_from_rational(part, whole);
    perbill_mul(parts, amount)
}

/// No share is more than the amount that it is a share of.
pub proof fn law_share_at_most_amount(part: nat, whole: nat, amount: nat)
    ensures
        share(part, whole, amount) <= amount,
{
    lemma_billionths_bound(part, whole);
    lemma_scaled_bound(billionths(part, whole), amount);
}

proof fn lemma_scaled_bound(parts: nat, amount: nat)
    requires
        parts <= BILLION,
    ensures
        scaled(parts, amount) <= amount,
{
    let b = BILLION as int;
    let product = (parts * amount) as int;
    assert(product <= b * amount) by (nonlinear_arith)
        requires
            product == parts * amount,
            0 <= parts <= b,
            0 <= amount,
    ;
    let quotient = product / b;
    let rest = product % b;
    vstd::arithmetic::div_mod::lemma_fundamental_div_mod(product, b);
    assert(quotient < amount || (quotient == amount && rest == 0)) by (nonlinear_arith)
        requires
            product == b * quotient + rest,
            0 <= rest < b,
            product <= b * amount,
            b == 1_000_000_000,
    ;
}

/// Whoever holds the whole gets the whole amount.
pub proof fn law_whole_share_is_amount(part: nat, whole: nat, amount: nat)
    requires
        part >= whole > 0,
    ensures
        share(part, whole, amount) == amount,
{
    lemma_factor(whole);
    let b = BILLION as int;
    let factor = (whole + BILLION - 1) as nat / BILLION as nat;
    let reduced = (whole / factor) as int;
    assert(reduced * b / reduced == b) by (nonlinear_arith)
        requires
            reduced >= 1,
            b > 0,
    ;
    assert(billionths(part, whole) == b);
    let product = b * amount;
    assert(product / b == amount && product % b == 0) by (nonlinear_arith)
        requires
            product == b * amount,
            b == 1_000_000_000,
    ;
}

/// A share is the nearest amount to the billionths that the part makes up of the whole, an exact half
/// being rounded down. The billionths are rounded down. A whole of nothing counts as one, a part that
/// exceeds the whole counts as the whole, and where the whole is over a billion, part and whole are
/// counted in units of `unit`, the least number of which a billion make up the whole.
pub proof fn law_share_is_nearest(
    part: nat,
    whole: nat,
    amount: nat,
    unit: nat,
    units_in_part: nat,
    units_in_whole: nat,
    parts: nat,
)
    requires
        ({
            let q = if whole == 0 { 1 } else { whole as int };
            let p = if part <= q { part as int } else { q };
            &&& 1_000_000_000 * (unit - 1) < q <= 1_000_000_000 * unit
            &&& units_in_part * unit <= p < (units_in_part + 1) * unit
            &&& units_in_whole * unit <= q < (units_in_whole + 1) * unit
            &&& parts * units_in_whole <= 1_000_000_000 * units_in_part < (parts + 1) * units_in_whole
        }),
    ensures
        parts * amount - 500_000_000 <= 1_000_000_000 * share(part, whole, amount),
        1_000_000_000 * share(part, whole, amount) < parts * amount + 500_000_000,
{
    let b = BILLION as int;
    let q = if whole == 0 { 1nat } else { whole };
    let p = if part <= q { part } else { q };
    let factor = (q + BILLION - 1) as nat / BILLION as nat;
    assert(factor == unit);
    assert(p / unit == units_in_part && q / unit == units_in_whole) by (nonlinear_arith)
        requires
            unit >= 1,
            units_in_part * unit <= p < (units_in_part + 1) * unit,
            units_in_whole * unit <= q < (units_in_whole + 1) * unit,
    ;
    assert(units_in_whole >= 1) by (nonlinear_arith)
        requires
            units_in_whole >= 0,
            0 <= 1_000_000_000 * units_in_part < (parts + 1) * units_in_whole,
    ;
    assert((units_in_part * b) / units_in_whole as int == parts) by (nonlinear_arith)
        requires
            units_in_whole >= 1,
            b == 1_000_000_000,
            parts * units_in_whole <= 1_000_000_000 * units_in_part < (parts + 1) * units_in_whole,
    ;
    assert(billionths(part, whole) == parts);
    let product = parts * amount;
    vstd::arithmetic::div_mod::lemma_fundamental_div_mod(product as int, b);
}

/// A larger part has no smaller share.
pub proof fn law_larger_part_has_no_smaller_share(less: nat, more: nat, whole: nat, amount: nat)
    requires
        less <= more,
    ensures
        share(less, whole, amount) <= share(more, whole, amount),
        share(0, whole, amount) == 0,
{
    let b = BILLION as int;
    let q = if whole == 0 { 1nat } else { whole };
    let factor = (q + BILLION - 1) as nat / BILLION as nat;
    let reduced = q / factor;
    lemma_factor(q);
    let p1 = if less <= q { less } else { q };
    let p2 = if more <= q { more } else { q };
    let u1 = p1 / factor;
    let u2 = p2 / factor;
    vstd::arithmetic::div_mod::lemma_div_is_ordered(p1 as int, p2 as int, factor as int);
    assert(u1 * b <= u2 * b) by (nonlinear_arith)
        requires
            u1 <= u2,
            b > 0,
    ;
    vstd::arithmetic::div_mod::lemma_div_is_ordered(u1 * b, u2 * b, reduced as int);
    let x = billionths(less, whole);
    let y = billionths(more, whole);
    assert(x <= y);
    assert(x * amount <= y * amount) by (nonlinear_arith)
        requires
            x <= y,
            amount >= 0,
    ;
    vstd::arithmetic::div_mod::lemma_fundamental_div_mod((x * amount) as int, b);
    vstd::arithmetic::div_mod::lemma_fundamental_div_mod((y * amount) as int, b);
    assert(0nat / factor == 0) by (nonlinear_arith)
        requires
            factor >= 1,
    ;
    assert((0 * b) / reduced as int == 0) by (nonlinear_arith)
        requires
            reduced >= 1,
    ;
    assert(billionths(0, whole) == 0);
    assert(0 * amount == 0) by (nonlinear_arith);
}

/// The parts, added up.
pub open spec fn parts_sum(parts: Seq<nat>) -> nat
    decreases parts.len(),
{
    if parts.len() == 0 {
        0
    } else {
        parts_sum(parts.drop_last()) + parts.last()
    }
}

/// The shares that belong to the parts, added up.
pub open spec fn shares_sum(parts: Seq<nat>, whole: nat, amount: nat) -> nat
    decreases parts.len(),
{
    if parts.len() == 0 {
        0
    } else {
        shares_sum(parts.drop_last(), whole, amount) + share(parts.last(), whole, amount)
    }
}

/// The billionths of the parts, added up.
spec fn billionths_sum(parts: Seq<nat>, whole: nat) -> nat
    decreases parts.len(),
{
    if parts.len() == 0 {
        0
    } else {
        billionths_sum(parts.drop_last(), whole) + billionths(parts.last(), whole)
    }
}

/// Parts of one whole get shares that make up no more than the amount, but for the rounding, which
/// adds at most a half to each.
pub proof fn law_shares_make_up_no_more_than_amount(parts: Seq<nat>, whole: nat, amount: nat)
    requires
        parts_sum(parts) <= whole,
    ensures
        2 * shares_sum(parts, whole, amount) <= 2 * amount + parts.len(),
{
    let b = BILLION as int;
    let q = if whole == 0 { 1nat } else { whole };
    let factor = (q + BILLION - 1) as nat / BILLION as nat;
    let reduced = (q / factor) as int;
    lemma_factor(q);
    let all = lemma_reduced_parts(parts, whole);
    let total = billionths_sum(parts, whole) as int;
    assert(all <= reduced) by (nonlinear_arith)
        requires
            factor * all <= q,
            factor >= 1,
            reduced == q as int / factor as int,
    ;
    assert(total <= b) by (nonlinear_arith)
        requires
            reduced * total <= b * all,
            0 <= all <= reduced,
            reduced >= 1,
            b > 0,
    ;
    lemma_shares_by_billionths(parts, whole, amount);
    let shares = shares_sum(parts, whole, amount) as int;
    let n = parts.len() as int;
    assert(2 * shares <= 2 * amount + n) by (nonlinear_arith)
        requires
            2 * b * shares <= 2 * amount * total + n * b,
            0 <= total <= b,
            amount >= 0,
            b > 0,
    ;
}

/// The parts after the reduction that `billionths` makes, added up, with what is known of the sum.
proof fn lemma_reduced_parts(parts: Seq<nat>, whole: nat) -> (all: int)
    requires
        parts_sum(parts) <= whole,
    ensures
        all >= 0,
        ({
            let q = if whole == 0 { 1nat } else { whole };
            let factor = (q + BILLION - 1) as nat / BILLION as nat;
            &&& factor * all <= parts_sum(parts)
            &&& (q / factor) * billionths_sum(parts, whole) <= BILLION * all
        }),
    decreases parts.len(),
{
    let b = BILLION as int;
    let q = if whole == 0 { 1nat } else { whole };
    let factor = (q + BILLION - 1) as nat / BILLION as nat;
    let reduced = (q / factor) as int;
    lemma_factor(q);
    if parts.len() == 0 {
        assert(reduced * 0 == 0) by (nonlinear_arith);
        assert(factor * 0 == 0) by (nonlinear_arith);
        0
    } else {
        let before = lemma_reduced_parts(parts.drop_last(), whole);
        let part = parts.last();
        assert(part <= q);
        let less = (part / factor) as int;
        let now = billionths(part, whole) as int;
        assert(now == less * b / reduced);
        assert(factor * less <= part) by (nonlinear_arith)
            requires
                less == part as int / factor as int,
                factor >= 1,
        ;
        assert(reduced * now <= b * less) by (nonlinear_arith)
            requires
                now == less * b / reduced,
                reduced >= 1,
        ;
        let earlier = billionths_sum(parts.drop_last(), whole) as int;
        assert(factor * (before + less) == factor * before + factor * less) by (nonlinear_arith);
        assert(reduced * (earlier + now) == reduced * earlier + reduced * now) by (nonlinear_arith);
        assert(b * (before + less) == b * before + b * less) by (nonlinear_arith);
        before + less
    }
}

/// Each share is off its billionths of the amount by a half at most.
proof fn lemma_shares_by_billionths(parts: Seq<nat>, whole: nat, amount: nat)
    ensures
        2 * BILLION * shares_sum(parts, whole, amount) <= 2 * amount * billionths_sum(parts, whole)
            + parts.len() * BILLION,
    decreases parts.len(),
{
    let b = BILLION as int;
    if parts.len() == 0 {
        assert(2 * amount * 0 == 0) by (nonlinear_arith);
    } else {
        let rest = parts.drop_last();
        lemma_shares_by_billionths(rest, whole, amount);
        let now = billionths(parts.last(), whole) as int;
        let product = now * amount;
        vstd::arithmetic::div_mod::lemma_fundamental_div_mod(product, b);
        let got = share(parts.last(), whole, amount) as int;
        assert(2 * b * got <= 2 * product + b);
        let earlier = billionths_sum(rest, whole) as int;
        let before = shares_sum(rest, whole, amount) as int;
        assert(2 * b * (before + got) == 2 * b * before + 2 * b * got) by (nonlinear_arith);
        assert(2 * amount * (earlier + now) == 2 * amount * earlier + 2 * (now * amount))
            by (nonlinear_arith);
        assert((rest.len() + 1) * b == rest.len() * b + b) by (nonlinear_arith);
    }
}

} // verus!
