//! How far a double is off another.

use vstd::prelude::*;

use crate::decimal;
use crate::double;
use crate::double::{difference, product, quotient, size_of};
use crate::number;

verus! {

/// Whether a double is farther from a base than a share of the base.
pub open spec fn is_beyond(x: int, base: int, share: int) -> bool {
    double::times(share, base) < double::size(double::minus(x, base))
}

/// Whether a double is farther from a base than a share of the base.
pub fn beyond(x: i128, base: i128, share: i128) -> (r: bool)
    requires
        double::is_rank(x as int),
        double::is_rank(base as int),
        double::is_rank(share as int),
    ensures
        r == is_beyond(x as int, base as int, share as int),
{
    product(share, base) < size_of(difference(x, base))
}

/// The distance of a double from a base, relative to the base.
pub open spec fn deviation(x: int, base: int) -> int {
    double::over(double::size(double::minus(x, base)), base)
}

/// Whether the relative distance of a double from a base is greater than a tolerance; never where the
/// tolerance is not a number.
pub open spec fn is_off(x: int, base: int, tolerance: u64) -> bool {
    !number::is_nan(tolerance) && number::rank(tolerance) < deviation(x, base)
}

/// Whether the relative distance of a double from a base is greater than a tolerance.
pub fn off(x: i128, base: i128, tolerance: u64) -> (r: bool)
    requires
        double::is_rank(x as int),
        double::is_rank(base as int),
        base != 0,
    ensures
        r == is_off(x as int, base as int, tolerance),
{
    number::le(tolerance, tolerance) && number::order(tolerance) < quotient(size_of(difference(x, base)), base)
}

/// The relative distance of a double from a base in percent, with one digit after the point.
pub open spec fn percent_text(x: int, base: int) -> Seq<char> {
    decimal::fixed_text(decimal::bits_of(double::times(deviation(x, base), double::HUNDRED as int)), 1)
}

/// The relative distance of a double from a base in percent, with one digit after the point.
pub fn percent(x: i128, base: i128) -> (r: String)
    requires
        double::is_rank(x as int),
        double::is_rank(base as int),
        base != 0,
    ensures
        r@ == percent_text(x as int, base as int),
{
    let d: i128 = quotient(size_of(difference(x, base)), base);
    decimal::fixed_rank(product(d, double::HUNDRED), 1)
}

} // verus!
