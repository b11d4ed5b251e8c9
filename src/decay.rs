use vstd::prelude::*;
use vstd::arithmetic::div_mod::{lemma_basic_div, lemma_div_by_multiple, lemma_fundamental_div_mod, lemma_mod_pos_bound};

verus! {

/// Fixed-point unit of a vote weight: a fresh vote weighs exactly `WEIGHT_UNIT`.
pub const WEIGHT_UNIT: u128 = 1_000_000_000_000;

/// Time (ms) after which a vote of the given difficulty class drops one step.
pub open spec fn melting_rate_of(dr_class: u64) -> u64 {
    if dr_class == 1 {
        2_400_000
    } else if dr_class == 2 {
        7_200_000
    } else if dr_class == 3 {
        21_600_000
    } else if dr_class == 4 {
        64_800_000
    } else {
        194_400_000
    }
}

/// Spacing (ms) between two samples of a result series of the given class.
pub open spec fn result_interval_of(dr_class: u64) -> u64 {
    if dr_class == 1 {
        400_000
    } else if dr_class == 2 {
        1_200_000
    } else if dr_class == 3 {
        3_600_000
    } else if dr_class == 4 {
        10_800_000
    } else {
        32_400_000
    }
}

/// Weight of a vote that is `k` whole melting periods old, in units of
/// `1 / WEIGHT_UNIT`: the fraction `(4k + 5) / (k^2 + 4k + 5)`, rounded down.
pub open spec fn weight_units(k: nat) -> nat {
    let k = k as int;
    (((4 * k + 5) * WEIGHT_UNIT) / (k * k + 4 * k + 5)) as nat
}

pub fn get_melting_rate(dr_class: u64) -> (r: u64)
    ensures
        r == melting_rate_of(dr_class),
        2_400_000 <= r <= 194_400_000,
{
    match dr_class {
        1 => 2400 * 1000,
        2 => 7200 * 1000,
        3 => 21600 * 1000,
        4 => 64800 * 1000,
        _ => 194400 * 1000,
    }
}

pub fn get_result_interval(dr_class: u64) -> (r: u64)
    ensures
        r == result_interval_of(dr_class),
        400_000 <= r <= 32_400_000,
{
    match dr_class {
        1 => 400 * 1000,
        2 => 20 * 60 * 1000,
        3 => 60 * 60 * 1000,
        4 => 3 * 60 * 60 * 1000,
        _ => 9 * 60 * 60 * 1000,
    }
}

/// `a / b <= c / d` (rounded down) whenever the fractions compare that way.
proof fn lemma_floor_le(a: int, b: int, c: int, d: int)
    requires
        0 <= a,
        0 <= c,
        0 < b,
        0 < d,
        a * d <= c * b,
    ensures
        a / b <= c / d,
{
    let q = a / b;
    let p = c / d;
    lemma_fundamental_div_mod(a, b);
    lemma_fundamental_div_mod(c, d);
    lemma_mod_pos_bound(a, b);
    lemma_mod_pos_bound(c, d);
    assert(q * b <= a);
    assert(c < d * (p + 1)) by (nonlinear_arith)
        requires
            c == d * p + c % d,
            c % d < d,
    ;
    assert(q * b * d <= a * d) by (nonlinear_arith)
        requires
            q * b <= a,
            0 < d,
    ;
    assert(q * d * b < (p + 1) * d * b) by (nonlinear_arith)
        requires
            q * b * d <= a * d,
            a * d <= c * b,
            c < d * (p + 1),
            0 < b,
    ;
    assert(q < p + 1) by (nonlinear_arith)
        requires
            q * d * b < (p + 1) * d * b,
            0 < b,
            0 < d,
    ;
}

/// The exact weight fraction shrinks as the vote ages.
proof fn lemma_fraction_non_increasing(k1: int, k2: int)
    requires
        0 <= k1 <= k2,
    ensures
        (4 * k2 + 5) * (k1 * k1 + 4 * k1 + 5) <= (4 * k1 + 5) * (k2 * k2 + 4 * k2 + 5),
{
    assert((4 * k1 + 5) * (k2 * k2 + 4 * k2 + 5) - (4 * k2 + 5) * (k1 * k1 + 4 * k1 + 5)
        == (k2 - k1) * (4 * k1 * k2 + 5 * k1 + 5 * k2)) by (nonlinear_arith);
    assert((k2 - k1) * (4 * k1 * k2 + 5 * k1 + 5 * k2) >= 0) by (nonlinear_arith)
        requires
            0 <= k1 <= k2,
    ;
}

/// A vote's weight never grows with its age, and a fresh vote weighs one
/// full unit.
pub proof fn lemma_weight_non_increasing(k1: nat, k2: nat)
    requires
        k1 <= k2,
    ensures
        weight_units(k2) <= weight_units(k1),
        weight_units(0) == WEIGHT_UNIT,
        weight_units(k1) <= WEIGHT_UNIT,
{
    let (n1, n2) = (k1, k2);
    let k1: int = n1 as int;
    let k2: int = n2 as int;
    let d1: int = k1 * k1 + 4 * k1 + 5;
    let d2: int = k2 * k2 + 4 * k2 + 5;
    assert(d1 > 0 && d2 > 0) by (nonlinear_arith)
        requires
            0 <= k1 <= k2,
            d1 == k1 * k1 + 4 * k1 + 5,
            d2 == k2 * k2 + 4 * k2 + 5,
    ;
    lemma_fraction_non_increasing(k1, k2);
    assert(((4 * k2 + 5) * WEIGHT_UNIT) * d1 <= ((4 * k1 + 5) * WEIGHT_UNIT) * d2)
        by (nonlinear_arith)
        requires
            (4 * k2 + 5) * d1 <= (4 * k1 + 5) * d2,
    ;
    assert((4 * k2 + 5) * WEIGHT_UNIT >= 0) by (nonlinear_arith)
        requires
            k2 >= 0,
    ;
    assert((4 * k1 + 5) * WEIGHT_UNIT >= 0) by (nonlinear_arith)
        requires
            k1 >= 0,
    ;
    lemma_floor_le((4 * k2 + 5) * WEIGHT_UNIT, d2, (4 * k1 + 5) * WEIGHT_UNIT, d1);
    lemma_div_by_multiple(WEIGHT_UNIT as int, 5);
    assert(weight_units(0) == WEIGHT_UNIT);
    lemma_fraction_non_increasing(0, k1);
    assert(((4 * k1 + 5) * WEIGHT_UNIT) * 5 <= (5 * WEIGHT_UNIT) * d1) by (nonlinear_arith)
        requires
            (4 * k1 + 5) * 5 <= 5 * d1,
    ;
    lemma_floor_le((4 * k1 + 5) * WEIGHT_UNIT, d1, 5 * WEIGHT_UNIT, 5);
}

/// A vote's weight tends to zero: from `4m` melting periods on it is at
/// most `1/m` of a unit, and from `5 * WEIGHT_UNIT` periods on it is zero.
pub proof fn lemma_weight_tends_to_zero(k: nat, m: nat)
    requires
        m >= 1,
    ensures
        k >= 4 * m ==> m * weight_units(k) <= WEIGHT_UNIT,
        k >= 5 * WEIGHT_UNIT ==> weight_units(k) == 0,
{
    let (nk, nm) = (k, m);
    let k: int = nk as int;
    let m: int = nm as int;
    let d: int = k * k + 4 * k + 5;
    let num: int = (4 * k + 5) * WEIGHT_UNIT;
    assert(d > 0 && num >= 0) by (nonlinear_arith)
        requires
            k >= 0,
            d == k * k + 4 * k + 5,
            num == (4 * k + 5) * WEIGHT_UNIT,
    ;
    if k >= 4 * m {
        assert(m * (4 * k + 5) <= d) by (nonlinear_arith)
            requires
                k >= 4 * m,
                m >= 1,
                d == k * k + 4 * k + 5,
        ;
        let q = num / d;
        lemma_fundamental_div_mod(num, d);
        lemma_mod_pos_bound(num, d);
        assert(q * d <= num);
        assert(m * q <= WEIGHT_UNIT) by (nonlinear_arith)
            requires
                q * d <= num,
                num == (4 * k + 5) * WEIGHT_UNIT,
                m * (4 * k + 5) <= d,
                d > 0,
                m >= 1,
        ;
    }
    if k >= 5 * WEIGHT_UNIT {
        assert(num < d) by (nonlinear_arith)
            requires
                k >= 5 * WEIGHT_UNIT,
                num == (4 * k + 5) * WEIGHT_UNIT,
                d == k * k + 4 * k + 5,
        ;
        lemma_basic_div(num, d);
    }
}

/// Weight of a vote `elapsed` ms old under the given melting rate.
pub fn eval_formula(elapsed: u64, melting_rate: u64) -> (r: u128)
    requires
        melting_rate > 0,
    ensures
        r == weight_units((elapsed / melting_rate) as nat),
        r <= WEIGHT_UNIT,
{
    let k: u64 = elapsed / melting_rate;
    proof {
        lemma_weight_non_increasing(k as nat, k as nat);
        lemma_weight_tends_to_zero(k as nat, 1);
    }
    if k as u128 >= 5 * WEIGHT_UNIT {
        0
    } else {
        let kk: u128 = k as u128;
        assert(kk * kk < 25_000_000_000_000_000_000_000_000) by (nonlinear_arith)
            requires
                kk < 5_000_000_000_000,
        ;
        (4 * kk + 5) * WEIGHT_UNIT / (kk * kk + 4 * kk + 5)
    }
}

} // verus!
