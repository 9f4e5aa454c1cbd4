//! Errors of the front end and the back end.
use vstd::prelude::*;

verus! {

/// Why a program could not be translated.
#[derive(PartialEq, Eq, Structural, Clone, Copy, Debug)]
pub enum CompileError {
    /// A constant expression names something that is not a constant, or its
    /// evaluation overflows or divides by zero.
    InvalidConstExp,
    /// A variable or constant is used but not declared.
    UndefinedVariable,
    /// A function is used but not defined.
    UndefinedFunction,
    /// A function is defined twice.
    DuplicateFunction,
    /// A name is declared twice in one scope.
    DuplicateSymbol,
    /// An array length is not positive.
    NonPositiveArrayLen,
    /// An array initializer has more elements than the array.
    TooManyInitializers,
    /// A braced initializer list initializes a scalar.
    BracesAroundScalar,
    /// A nested initializer list does not start on a sub-array boundary.
    UnalignedInitializer,
    /// An array is initialized by a single expression.
    ArrayNeedsList,
    /// A scalar is initialized by a list.
    ScalarNeedsExp,
    /// A global variable has the void type.
    VoidGlobal,
    /// A non-void function may reach its end without a return.
    MissingReturn,
    /// `break` outside of a loop.
    BreakOutsideLoop,
    /// `continue` outside of a loop.
    ContinueOutsideLoop,
    /// A construct that the translator does not handle.
    Unsupported,
    /// An instruction violates the IR's typing rules.
    IrTypeMismatch,
    /// A block or value handle does not exist.
    InvalidHandle,
    /// A block is placed twice in a layout.
    DuplicateBlock,
    /// The back end ran out of scratch registers.
    NoScratchRegister,
    /// The back end needs a value of the function itself but got a global one.
    NotLocal,
    /// A value has neither a register nor a stack slot.
    NoLocation,
    /// A value or block that the back end needs has no name.
    MissingName,
    /// A size or offset does not fit in the machine's integers.
    Overflow,
}

} // verus!
