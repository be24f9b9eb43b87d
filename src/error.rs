//! The errors that a script or an expression can be rejected with.
use vstd::prelude::*;

verus! {

/// Why a piece of text does not parse.
#[derive(Clone, Copy, Debug, PartialEq, Eq, Structural)]
pub enum ParseError {
    /// The input ended where more was expected.
    UnexpectedEnd,
    /// The given character was expected.
    Expecting(char),
    /// A variable (one letter) was expected.
    ExpectingVariable,
    /// This character cannot start an expression.
    Unexpected(char),
    /// A field is not a decimal number that fits.
    BadNumber,
    /// An operand is missing.
    MissingOperand,
    /// The line goes on after its last operand.
    ExtraOperand,
    /// The text goes on after a complete expression.
    TrailingInput,
}

/// The premise of a rule that a step failed.
#[derive(Clone, Copy, Debug, PartialEq, Eq, Structural)]
pub enum Premise {
    /// The judgements have different definition lists.
    SameDefinitions,
    /// The judgements have different contexts.
    SameContext,
    /// A type that must be a sort is not one.
    SortType,
    /// A context is not the other one extended by one binding.
    ContextExtends,
    /// The type in the last binding is not the expected one.
    BindingType,
    /// A type that must be a Π-abstraction is not one.
    PiType,
    /// The argument's type is not the domain of the function's type.
    ArgumentType,
    /// The binder of the Π-abstraction is not the variable of the context.
    BinderName,
    /// The domain of the Π-abstraction is not the type in the context.
    DomainType,
    /// The body's type is not the body of the Π-abstraction.
    BodyType,
    /// The number of arguments is not the number of parameters.
    ArgumentCount,
    /// The judgement to instantiate in is not `* : @`.
    KindJudgement,
}

/// Why a step of a script is rejected.
#[derive(Clone, Copy, Debug, PartialEq, Eq, Structural)]
pub enum Error {
    /// The line or an expression in it is malformed.
    Parse(ParseError),
    /// The line declares another number than the next judgement's index.
    LineNumberMismatch { expected: usize, found: usize },
    /// The instruction is not known.
    UnknownInstruction,
    /// A premise of the rule does not hold.
    PremiseMismatch(Premise),
    /// A judgement index or a definition is out of range or unknown.
    UndefinedReference,
    /// The definition list already holds a definition of the name.
    DuplicateDefinition,
}

} // verus!
