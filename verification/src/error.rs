//! What the library reports when an input cannot be used.
use vstd::prelude::*;

verus! {

/// An input that cannot be used, with what the report names.
#[derive(Debug, PartialEq, Eq)]
pub enum FinderError {
    /// The level name matches two levels of the rush (indices into the level list).
    AmbiguousLevel { name: String, first: usize, second: usize },
    /// The level name matches no level of the rush by its name, but the
    /// alternate names of two of its levels.
    AmbiguousAlternate { name: String, first: usize, second: usize },
    /// The level name matches no level of the rush.
    UnknownLevel { name: String },
    /// The rush abbreviation matches two rushes (indices into the rush list).
    AmbiguousRush { abbreviation: String, first: usize, second: usize },
    /// The rush abbreviation matches no rush.
    UnknownRush { abbreviation: String },
    /// The rule description has no `:`.
    MissingColon { description: String },
    /// The rule description has neither `=` nor `>` after its `:`.
    MissingRelation { description: String },
    /// An index lies outside the rush.
    IndexOutOfRange { value: i32 },
    /// The rule lists no level.
    EmptyLevelList { description: String },
    /// A range bound is not a number.
    UnparsableIndex { text: String },
    /// The range is too small for the levels of the rule.
    RangeTooSmall { start: String, end: String },
    /// The range of a sequence rule, given at both ends, is longer than the sequence.
    RangeTooLarge { start: String, end: String },
    /// Two rules constrain the same position of the order.
    DomainOverlap { first: usize, second: usize, position: usize },
    /// Two rules name the same level (its position in the rush, and its index in the level list).
    CodomainOverlap { first: usize, second: usize, index: usize, level: usize },
    /// The seed is not a number.
    UnparsableSeed { text: String },
    /// The result count is not a number (of `usize`).
    UnparsableCount { text: String },
    /// The seed is negative.
    NegativeSeed,
    /// The result count is below 1.
    CountTooSmall { count: i32 },
    /// The arguments look like one subcommand but name another.
    WrongSubcommand { expected: String, found: String },
    /// Finding the best seeds is not implemented.
    BestNotImplemented,
}

/// The same reports, with texts as character sequences.
pub ghost enum Failure {
    AmbiguousLevel { name: Seq<char>, first: int, second: int },
    AmbiguousAlternate { name: Seq<char>, first: int, second: int },
    UnknownLevel { name: Seq<char> },
    AmbiguousRush { abbreviation: Seq<char>, first: int, second: int },
    UnknownRush { abbreviation: Seq<char> },
    MissingColon { description: Seq<char> },
    MissingRelation { description: Seq<char> },
    IndexOutOfRange { value: int },
    EmptyLevelList { description: Seq<char> },
    UnparsableIndex { text: Seq<char> },
    RangeTooSmall { start: Seq<char>, end: Seq<char> },
    RangeTooLarge { start: Seq<char>, end: Seq<char> },
    DomainOverlap { first: int, second: int, position: int },
    CodomainOverlap { first: int, second: int, index: int, level: int },
    UnparsableSeed { text: Seq<char> },
    UnparsableCount { text: Seq<char> },
    NegativeSeed,
    CountTooSmall { count: int },
    WrongSubcommand { expected: Seq<char>, found: Seq<char> },
    BestNotImplemented,
}

impl FinderError {
    /// This report is the failure `f`.
    pub open spec fn describes(self, f: Failure) -> bool {
        match (self, f) {
            (FinderError::AmbiguousLevel { name, first, second }, Failure::AmbiguousLevel { name: n, first: a, second: b }) =>
                name@ == n && first == a && second == b,
            (FinderError::AmbiguousAlternate { name, first, second }, Failure::AmbiguousAlternate { name: n, first: a, second: b }) =>
                name@ == n && first == a && second == b,
            (FinderError::UnknownLevel { name }, Failure::UnknownLevel { name: n }) => name@ == n,
            (FinderError::AmbiguousRush { abbreviation, first, second }, Failure::AmbiguousRush { abbreviation: n, first: a, second: b }) =>
                abbreviation@ == n && first == a && second == b,
            (FinderError::UnknownRush { abbreviation }, Failure::UnknownRush { abbreviation: n }) => abbreviation@ == n,
            (FinderError::MissingColon { description }, Failure::MissingColon { description: d }) => description@ == d,
            (FinderError::MissingRelation { description }, Failure::MissingRelation { description: d }) => description@ == d,
            (FinderError::IndexOutOfRange { value }, Failure::IndexOutOfRange { value: i }) => value == i,
            (FinderError::EmptyLevelList { description }, Failure::EmptyLevelList { description: d }) => description@ == d,
            (FinderError::UnparsableIndex { text }, Failure::UnparsableIndex { text: t }) => text@ == t,
            (FinderError::RangeTooSmall { start, end }, Failure::RangeTooSmall { start: a, end: b }) => start@ == a && end@ == b,
            (FinderError::RangeTooLarge { start, end }, Failure::RangeTooLarge { start: a, end: b }) => start@ == a && end@ == b,
            (FinderError::DomainOverlap { first, second, position }, Failure::DomainOverlap { first: a, second: b, position: p }) =>
                first == a && second == b && position == p,
            (FinderError::CodomainOverlap { first, second, index, level }, Failure::CodomainOverlap { first: a, second: b, index: i, level: l }) =>
                first == a && second == b && index == i && level == l,
            (FinderError::UnparsableSeed { text }, Failure::UnparsableSeed { text: t }) => text@ == t,
            (FinderError::UnparsableCount { text }, Failure::UnparsableCount { text: t }) => text@ == t,
            (FinderError::NegativeSeed, Failure::NegativeSeed) => true,
            (FinderError::CountTooSmall { count }, Failure::CountTooSmall { count: c }) => count == c,
            (FinderError::WrongSubcommand { expected, found }, Failure::WrongSubcommand { expected: e, found: f }) =>
                expected@ == e && found@ == f,
            (FinderError::BestNotImplemented, Failure::BestNotImplemented) => true,
            _ => false,
        }
    }
}

/// `r` reports the outcome `o`: the same value, or the same failure.
pub open spec fn reports<T>(r: Result<T, FinderError>, o: Result<T, Failure>) -> bool {
    match (r, o) {
        (Ok(v), Ok(w)) => v == w,
        (Err(e), Err(f)) => e.describes(f),
        _ => false,
    }
}

} // verus!
