//! Reading Standard MIDI Files into tracks of notes spread over lanes and
//! laid out on a grid of equal steps.
use vstd::prelude::*;

pub mod stream;
pub mod chunks;
pub mod vlq;
pub mod track;
pub mod notes;
pub mod lanes;
pub mod quantize;
pub mod midi;
pub mod codegen;
pub mod warnings;

verus! {

/// The quotient `a / b` rounded up.
pub open spec fn ceil_div(a: int, b: int) -> int {
    if a % b == 0 { a / b } else { a / b + 1 }
}

/// Rounds the quotient `a / b` up.
pub fn div_ceil(a: u32, b: u32) -> (r: u32)
    requires
        b > 0,
    ensures
        r as int == ceil_div(a as int, b as int),
{
    let q = a / b;
    if a % b != 0 {
        assert(q < u32::MAX) by (nonlinear_arith)
            requires q == a / b, b >= 2, a <= u32::MAX;
        q + 1
    } else {
        q
    }
}

/// Rounding up: `ceil_div(a, b)` steps of `b` reach `a`, one fewer do not.
pub proof fn law_ceil_div(a: int, b: int)
    requires
        a >= 0,
        b > 0,
    ensures
        ceil_div(a, b) * b >= a,
        (ceil_div(a, b) - 1) * b < a || ceil_div(a, b) == 0,
        ceil_div(a, b) >= 0,
{
    let q = a / b;
    let r = a % b;
    assert(a == b * q + r && 0 <= r < b) by (nonlinear_arith)
        requires b > 0, q == a / b, r == a % b;
    assert(q >= 0) by (nonlinear_arith) requires a >= 0, b > 0, q == a / b;
    if r == 0 {
        assert(ceil_div(a, b) * b == a) by (nonlinear_arith) requires ceil_div(a, b) == q, a == b * q;
        assert((ceil_div(a, b) - 1) * b < a || ceil_div(a, b) == 0) by (nonlinear_arith)
            requires ceil_div(a, b) == q, a == b * q, b > 0, q >= 0;
    } else {
        assert(ceil_div(a, b) * b >= a) by (nonlinear_arith)
            requires ceil_div(a, b) == q + 1, a == b * q + r, r < b;
        assert((ceil_div(a, b) - 1) * b < a) by (nonlinear_arith)
            requires ceil_div(a, b) == q + 1, a == b * q + r, r > 0;
    }
}

} // verus!
