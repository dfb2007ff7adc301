//! The one error type shared by every stage of the toolchain.
use vstd::prelude::*;

verus! {

/// Why building, compiling or running a program failed.
#[derive(Debug, Clone, PartialEq, Eq)]
pub enum Error {
    /// A call names a function that no definition provides.
    UnknownFunction(String),
    /// The program has no entry function.
    UnresolvedEntrypoint,
    /// An operator wanted `expected` operands and the stack held `actual`.
    ArityMismatch { expected: usize, actual: usize },
    /// An operator was asked to combine no operands at all.
    EmptyReduction,
    /// A value was needed from a stack that had run out.
    EmptyStack,
    /// A jump or call targets an address outside the code.
    OutOfBoundsJump(u64),
    /// `Ret` ran with no call pending.
    MissingReturnAddress,
    /// A division had a zero divisor.
    DivisionByZero,
    /// A name is read where nothing binds it.
    UnknownVariable(String),
    /// A binding was read or dropped that the machine does not hold.
    UnboundVariable(usize),
    /// The source does not have the shape of a program.
    SyntaxConstruction,
    /// The step budget ran out before the program stopped.
    StepLimit,
}

/// An [`Error`] with its names as character sequences.
pub enum ErrorView {
    UnknownFunction(Seq<char>),
    UnresolvedEntrypoint,
    ArityMismatch { expected: usize, actual: usize },
    EmptyReduction,
    EmptyStack,
    OutOfBoundsJump(u64),
    MissingReturnAddress,
    DivisionByZero,
    UnknownVariable(Seq<char>),
    UnboundVariable(usize),
    SyntaxConstruction,
    StepLimit,
}

impl View for Error {
    type V = ErrorView;

    open spec fn view(&self) -> ErrorView {
        match self {
            Error::UnknownFunction(name) => ErrorView::UnknownFunction(name@),
            Error::UnresolvedEntrypoint => ErrorView::UnresolvedEntrypoint,
            Error::ArityMismatch { expected, actual } => ErrorView::ArityMismatch {
                expected: *expected,
                actual: *actual,
            },
            Error::EmptyReduction => ErrorView::EmptyReduction,
            Error::EmptyStack => ErrorView::EmptyStack,
            Error::OutOfBoundsJump(target) => ErrorView::OutOfBoundsJump(*target),
            Error::MissingReturnAddress => ErrorView::MissingReturnAddress,
            Error::DivisionByZero => ErrorView::DivisionByZero,
            Error::UnknownVariable(name) => ErrorView::UnknownVariable(name@),
            Error::UnboundVariable(index) => ErrorView::UnboundVariable(*index),
            Error::SyntaxConstruction => ErrorView::SyntaxConstruction,
            Error::StepLimit => ErrorView::StepLimit,
        }
    }
}

} // verus!
