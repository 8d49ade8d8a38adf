//! The element-type dispatch decision: which documented coercion, if
//! any, reconciles two operand element types before an operator runs.
use vstd::prelude::*;
use crate::ArrayError;

verus! {

/// The closed set of element types an operand can carry.
#[derive(Clone, Copy, Debug, PartialEq, Eq, Structural)]
pub enum ElemType {
    Num,
    Byte,
    Complex,
    Char,
    Boxed,
}

/// The one-directional, lossless coercions an operator may apply
/// before delegating.
#[derive(Clone, Copy, Debug, PartialEq, Eq, Structural)]
pub enum Coercion {
    /// The operands already agree: delegate directly.
    Direct,
    /// Wrap the left operand's elements to match a boxed right side.
    LeftToBoxed,
    /// Wrap the right operand's elements to match a boxed left side.
    RightToBoxed,
    /// Promote the left byte operand to numbers (exact).
    LeftByteToNum,
    /// Promote the right byte operand to numbers (exact).
    RightByteToNum,
}

/// The dispatch table: equal types delegate; a boxed side wraps the
/// other; bytes promote to numbers beside numbers; everything else is
/// irreconcilable.
pub open spec fn spec_coerce(a: ElemType, b: ElemType) -> Result<Coercion, ArrayError> {
    if a == b {
        Result::Ok(Coercion::Direct)
    } else if b == ElemType::Boxed {
        Result::Ok(Coercion::LeftToBoxed)
    } else if a == ElemType::Boxed {
        Result::Ok(Coercion::RightToBoxed)
    } else if a == ElemType::Byte && b == ElemType::Num {
        Result::Ok(Coercion::LeftByteToNum)
    } else if a == ElemType::Num && b == ElemType::Byte {
        Result::Ok(Coercion::RightByteToNum)
    } else {
        Result::Err(ArrayError::TypeMismatch)
    }
}

/// The box-coercion table: the combinator that lifts operands into
/// boxed form requires at least one side to already be boxed; the
/// other side is wrapped, and two boxed sides delegate directly.
pub open spec fn spec_coerce_to_boxes(a: ElemType, b: ElemType) -> Result<Coercion, ArrayError> {
    if a == ElemType::Boxed && b == ElemType::Boxed {
        Result::Ok(Coercion::Direct)
    } else if a == ElemType::Boxed {
        Result::Ok(Coercion::RightToBoxed)
    } else if b == ElemType::Boxed {
        Result::Ok(Coercion::LeftToBoxed)
    } else {
        Result::Err(ArrayError::TypeMismatch)
    }
}

/// Decides how a pair of operands is lifted into boxed form.
pub fn coerce_to_boxes_pair(a: ElemType, b: ElemType) -> (r: Result<Coercion, ArrayError>)
    ensures
        r == spec_coerce_to_boxes(a, b),
{
    if matches!(a, ElemType::Boxed) && matches!(b, ElemType::Boxed) {
        Ok(Coercion::Direct)
    } else if matches!(a, ElemType::Boxed) {
        Ok(Coercion::RightToBoxed)
    } else if matches!(b, ElemType::Boxed) {
        Ok(Coercion::LeftToBoxed)
    } else {
        Err(ArrayError::TypeMismatch)
    }
}

/// Decides how two operand element types are reconciled.
pub fn coerce_pair(a: ElemType, b: ElemType) -> (r: Result<Coercion, ArrayError>)
    ensures
        r == spec_coerce(a, b),
{
    if a == b {
        Ok(Coercion::Direct)
    } else if matches!(b, ElemType::Boxed) {
        Ok(Coercion::LeftToBoxed)
    } else if matches!(a, ElemType::Boxed) {
        Ok(Coercion::RightToBoxed)
    } else if matches!(a, ElemType::Byte) && matches!(b, ElemType::Num) {
        Ok(Coercion::LeftByteToNum)
    } else if matches!(a, ElemType::Num) && matches!(b, ElemType::Byte) {
        Ok(Coercion::RightByteToNum)
    } else {
        Err(ArrayError::TypeMismatch)
    }
}

} // verus!
