use vstd::prelude::*;

use crate::regex::Pattern;

verus! {

/// Numbers without a sign.
pub fn float_re() -> (r: Pattern)
    ensures
        r == Pattern::UnsignedNumber,
{
    Pattern::UnsignedNumber
}

/// Operator symbols.
pub fn operation_re() -> (r: Pattern)
    ensures
        r == Pattern::Operator,
{
    Pattern::Operator
}

/// Texts made of the allowed characters.
pub fn validation_re() -> (r: Pattern)
    ensures
        r == Pattern::Expression,
{
    Pattern::Expression
}

} // verus!
