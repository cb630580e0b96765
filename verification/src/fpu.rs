//! The arithmetic unit: the operations on numbers that the library asks for, and what is
//! stated of the answers.

use vstd::prelude::*;

verus! {

/// One floating-point operation on numbers. The library decides which operations are asked for
/// and in what order; whoever calls it computes them, on the numbers taken as 64-bit floats.
#[derive(Debug, PartialEq)]
pub enum Calc {
    /// The number itself, as a float.
    Float(serde_json::Number),
    /// The sum of the two.
    Add(serde_json::Number, serde_json::Number),
    /// The first less the second.
    Sub(serde_json::Number, serde_json::Number),
    /// The product of the two.
    Mul(serde_json::Number, serde_json::Number),
    /// The first divided by the second.
    Div(serde_json::Number, serde_json::Number),
    /// The second if it is greater than the first, else the first.
    Max(serde_json::Number, serde_json::Number),
    /// The second if it is less than the first, else the first.
    Min(serde_json::Number, serde_json::Number),
    /// The square root.
    Sqrt(serde_json::Number),
}

/// What an arithmetic unit answers to each operation: the result, or `None` where the result is
/// no finite number.
pub type Unit = spec_fn(Calc) -> Option<serde_json::Number>;

/// The unit can be asked for every operation.
pub open spec fn total<F: Fn(Calc) -> Option<serde_json::Number>>(fpu: &F) -> bool {
    forall|c: Calc| call_requires(fpu, (c,))
}

/// The unit computes `unit`: whatever it answers to an operation is what `unit` gives for it.
pub open spec fn computes<F: Fn(Calc) -> Option<serde_json::Number>>(fpu: &F, unit: Unit) -> bool {
    forall|c: Calc, x: Option<serde_json::Number>| call_ensures(fpu, (c,), x) ==> x == unit(c)
}

/// Asks the unit for one operation.
pub fn ask<F: Fn(Calc) -> Option<serde_json::Number>>(fpu: &F, c: Calc) -> (r: Option<
    serde_json::Number,
>)
    requires
        total(fpu),
    ensures
        forall|unit: Unit| #[trigger] computes(fpu, unit) ==> r == unit(c),
{
    fpu(c)
}

} // verus!
