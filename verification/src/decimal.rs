//! Base-ten digit strings and the facts about their values that the decoders rely on.
use vstd::prelude::*;

verus! {

/// The value of a most-significant-first digit string in base ten. A "digit" is taken at face
/// value, so an entry above nine (such as a corrupt nibble) still contributes `entry * 10^k`.
pub open spec fn decimal_value(d: Seq<int>) -> int
    decreases d.len(),
{
    if d.len() == 0 {
        0
    } else {
        decimal_value(d.drop_last()) * 10 + d.last()
    }
}

/// Every entry is a decimal digit `0..=9`.
pub open spec fn all_decimal(d: Seq<int>) -> bool {
    forall|j: int| 0 <= j < d.len() ==> 0 <= #[trigger] d[j] <= 9
}

/// The largest value an `i128` holds.
pub open spec fn i128_max() -> int {
    0x7fff_ffff_ffff_ffff_ffff_ffff_ffff_ffff
}

/// An optional `i128` read as an optional mathematical integer.
pub open spec fn widen(o: Option<i128>) -> Option<int> {
    match o {
        Some(v) => Some(v as int),
        None => None,
    }
}

/// An optional integer negated.
pub open spec fn negated(o: Option<int>) -> Option<int> {
    match o {
        Some(v) => Some(-v),
        None => None,
    }
}

/// A lane's `(mantissa, ok)` as the optional result that the batch reports.
pub open spec fn lane_option(lane: (int, bool)) -> Option<int> {
    if lane.1 {
        Some(lane.0)
    } else {
        None
    }
}

/// Appending one digit multiplies the value by ten and adds the digit (Horner's rule).
pub proof fn lemma_decimal_value_take_step(d: Seq<int>, k: int)
    requires
        0 <= k < d.len(),
    ensures
        decimal_value(d.take(k + 1)) == decimal_value(d.take(k)) * 10 + d[k],
{
    assert(d.take(k + 1).drop_last() =~= d.take(k));
}

/// Ten to the power `n`.
pub open spec fn pow10(n: nat) -> int
    decreases n,
{
    if n == 0 {
        1
    } else {
        10 * pow10((n - 1) as nat)
    }
}

/// A string of `n` decimal digits has a value below `10^n`.
pub proof fn lemma_decimal_value_below_pow10(d: Seq<int>)
    requires
        all_decimal(d),
    ensures
        0 <= decimal_value(d) < pow10(d.len()),
    decreases d.len(),
{
    if d.len() > 0 {
        assert(all_decimal(d.drop_last()));
        lemma_decimal_value_below_pow10(d.drop_last());
    }
}

/// Powers of ten grow with the exponent.
pub proof fn lemma_pow10_monotone(m: nat, n: nat)
    requires
        m <= n,
    ensures
        1 <= pow10(m) <= pow10(n),
    decreases n,
{
    if m < n {
        lemma_pow10_monotone(m, (n - 1) as nat);
    } else if n > 0 {
        lemma_pow10_monotone((n - 1) as nat, (n - 1) as nat);
    }
}

/// A string of at most 38 decimal digits has a value that fits in an `i128`.
pub proof fn lemma_short_decimal_fits(d: Seq<int>)
    requires
        all_decimal(d),
        d.len() <= 38,
    ensures
        0 <= decimal_value(d) <= i128_max(),
{
    lemma_decimal_value_below_pow10(d);
    lemma_pow10_monotone(d.len(), 38);
    assert(pow10(38) == 100_000_000_000_000_000_000_000_000_000_000_000_000) by {
        reveal_with_fuel(pow10, 39);
    }
}

/// Changing the digit at position `j` changes the value by the difference of the two digits
/// times that position's place value `10^(len - 1 - j)`.
pub proof fn lemma_decimal_value_update(d: Seq<int>, j: int, x: int)
    requires
        0 <= j < d.len(),
    ensures
        decimal_value(d.update(j, x)) == decimal_value(d) + (x - d[j]) * pow10(
            (d.len() - 1 - j) as nat,
        ),
    decreases d.len(),
{
    let e = d.update(j, x);
    if j == d.len() - 1 {
        assert(e.drop_last() =~= d.drop_last());
    } else {
        assert(e.drop_last() =~= d.drop_last().update(j, x));
        lemma_decimal_value_update(d.drop_last(), j, x);
        let p = pow10((d.len() - 2 - j) as nat);
        assert(pow10((d.len() - 1 - j) as nat) == 10 * p);
        assert((x - d[j]) * p * 10 == (x - d[j]) * (10 * p)) by (nonlinear_arith);
    }
}

/// A string of zeros has value zero.
pub proof fn lemma_decimal_value_zeros(d: Seq<int>)
    requires
        forall|j: int| 0 <= j < d.len() ==> d[j] == 0,
    ensures
        decimal_value(d) == 0,
    decreases d.len(),
{
    if d.len() > 0 {
        lemma_decimal_value_zeros(d.drop_last());
    }
}

} // verus!
