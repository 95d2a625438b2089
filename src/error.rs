use vstd::prelude::*;
use crate::token::string_views;

verus! {

/// Why a declaration or a template was rejected. Positions are indices of
/// tokens in the declaration.
#[derive(Debug, PartialEq, Eq)]
pub enum DupError {
    /// The declaration is neither form; `token` is the offending top-level token.
    InvalidSyntax { token: usize },
    /// A verbose group holds no pair.
    EmptyGroup { group: usize },
    /// In verbose group `group`, token `token` is not where an identifier or a
    /// delimited substitute belongs.
    MalformedPair { group: usize, token: usize },
    /// A verbose group names an identifier that the first group does not.
    UnknownIdentifier { group: usize, name: String },
    /// A verbose group names an identifier twice.
    DuplicateIdentifier { group: usize, name: String },
    /// A verbose group lacks these identifiers of the first group.
    MissingIdentifiers { group: usize, names: Vec<String> },
    /// A short-form identifier (at top-level token `token`) has no substitute.
    MissingSubstitutes { token: usize },
    /// A short-form identifier has another number of substitutes than the first.
    SubstitutionCountMismatch { token: usize, expected: usize, actual: usize },
    /// A call site gives another number of arguments than the substitution takes.
    ArgumentCountMismatch { name: String, expected: usize, actual: usize },
    /// A parameterized identifier is not followed by an argument list.
    MissingArgumentList { name: String },
}

/// The model of a `DupError`.
pub enum Fault {
    InvalidSyntax { token: nat },
    EmptyGroup { group: nat },
    MalformedPair { group: nat, token: nat },
    UnknownIdentifier { group: nat, name: Seq<char> },
    DuplicateIdentifier { group: nat, name: Seq<char> },
    MissingIdentifiers { group: nat, names: Seq<Seq<char>> },
    MissingSubstitutes { token: nat },
    SubstitutionCountMismatch { token: nat, expected: nat, actual: nat },
    ArgumentCountMismatch { name: Seq<char>, expected: nat, actual: nat },
    MissingArgumentList { name: Seq<char> },
}

impl View for DupError {
    type V = Fault;

    open spec fn view(&self) -> Fault {
        match self {
            DupError::InvalidSyntax { token } => Fault::InvalidSyntax { token: *token as nat },
            DupError::EmptyGroup { group } => Fault::EmptyGroup { group: *group as nat },
            DupError::MalformedPair { group, token } => Fault::MalformedPair {
                group: *group as nat,
                token: *token as nat,
            },
            DupError::UnknownIdentifier { group, name } => Fault::UnknownIdentifier {
                group: *group as nat,
                name: name@,
            },
            DupError::DuplicateIdentifier { group, name } => Fault::DuplicateIdentifier {
                group: *group as nat,
                name: name@,
            },
            DupError::MissingIdentifiers { group, names } => Fault::MissingIdentifiers {
                group: *group as nat,
                names: string_views(names@),
            },
            DupError::MissingSubstitutes { token } => Fault::MissingSubstitutes {
                token: *token as nat,
            },
            DupError::SubstitutionCountMismatch { token, expected, actual } =>
                Fault::SubstitutionCountMismatch {
                token: *token as nat,
                expected: *expected as nat,
                actual: *actual as nat,
            },
            DupError::ArgumentCountMismatch { name, expected, actual } =>
                Fault::ArgumentCountMismatch {
                name: name@,
                expected: *expected as nat,
                actual: *actual as nat,
            },
            DupError::MissingArgumentList { name } => Fault::MissingArgumentList { name: name@ },
        }
    }
}

} // verus!
