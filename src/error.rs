//! Errors of the parser and of sort checks.

use vstd::prelude::*;
use crate::term::TermRef;

verus! {

#[verifier::external_type_specification]
#[verifier::external_body]
pub struct ExIoErrorKind(std::io::ErrorKind);

#[verifier::external_type_specification]
#[verifier::reject_recursive_types(Idx)]
pub struct ExRangeFrom<Idx>(std::ops::RangeFrom<Idx>);

/// A line and a column of the input.
pub type Position = (usize, usize);

/// An I/O failure met while reading, kept by its kind so that errors can be compared.
#[derive(Debug, PartialEq)]
pub struct ParserIoError(pub std::io::ErrorKind);

/// What went wrong in a sort check.
#[derive(Debug, PartialEq)]
pub enum SortError {
    /// A term had sort `got` where `expected` was required.
    Expected { expected: TermRef, got: TermRef },
    /// A term had sort `got` where one of `possibilities` was required.
    ExpectedOneOf { possibilities: Vec<TermRef>, got: TermRef },
}

/// The error kinds of the parser and lexer.
#[derive(Debug, PartialEq)]
pub enum ErrorKind {
    Io(ParserIoError),
    UnexpectedChar(Option<char>),
    LeadingZero(String),
    BackslashInQuotedSymbol,
    EofInQuotedSymbol,
    EofInString,
    /// An unexpected token, by its text.
    UnexpectedToken(String),
    EmptySequence,
    SortError(SortError),
    /// An identifier that was never declared.
    UndefinedIden(String),
    UndefinedStepIndex(String),
    /// Expected and actual number of arguments.
    WrongNumberOfArgs(usize, usize),
    RepeatedStepIndex,
    NotYetImplemented,
}

/// A parser error and where it happened.
#[derive(Debug, PartialEq)]
pub struct ParserError(pub ErrorKind, pub Position);

impl From<SortError> for ErrorKind {
    fn from(err: SortError) -> (r: ErrorKind) {
        ErrorKind::SortError(err)
    }
}

impl vstd::std_specs::convert::FromSpecImpl<SortError> for ErrorKind {
    open spec fn obeys_from_spec() -> bool {
        true
    }

    open spec fn from_spec(err: SortError) -> ErrorKind {
        ErrorKind::SortError(err)
    }
}

impl ErrorKind {
    /// Fails with `WrongNumberOfArgs(expected, got)` unless `sequence` has `expected` elements.
    pub fn assert_num_of_args<T>(sequence: &[T], expected: usize) -> (r: Result<(), ErrorKind>)
        ensures
            sequence@.len() == expected ==> r is Ok,
            sequence@.len() != expected ==> r == Err::<(), ErrorKind>(
                ErrorKind::WrongNumberOfArgs(expected, sequence@.len() as usize),
            ),
    {
        let got = sequence.len();
        if got == expected {
            Ok(())
        } else {
            Err(ErrorKind::WrongNumberOfArgs(expected, got))
        }
    }

    /// Fails with `WrongNumberOfArgs(expected.start, got)` unless `sequence` has at least
    /// `expected.start` elements.
    pub fn assert_num_of_args_range<T>(sequence: &[T], expected: std::ops::RangeFrom<usize>) -> (r:
        Result<(), ErrorKind>)
        ensures
            sequence@.len() >= expected.start ==> r is Ok,
            sequence@.len() < expected.start ==> r == Err::<(), ErrorKind>(
                ErrorKind::WrongNumberOfArgs(expected.start, sequence@.len() as usize),
            ),
    {
        let got = sequence.len();
        if got >= expected.start {
            Ok(())
        } else {
            Err(ErrorKind::WrongNumberOfArgs(expected.start, got))
        }
    }
}

impl SortError {
    /// Fails with `Expected` unless `got` is `expected`.
    pub fn assert_eq(expected: &TermRef, got: &TermRef) -> (r: Result<(), SortError>)
        ensures
            *expected == *got ==> r is Ok,
            *expected != *got ==> r == Err::<(), SortError>(
                SortError::Expected { expected: *expected, got: *got },
            ),
    {
        if *expected == *got {
            Ok(())
        } else {
            Err(SortError::Expected { expected: *expected, got: *got })
        }
    }

    /// Fails with `Expected` on the first neighbours of `sequence` that differ: all its terms
    /// must be the same.
    pub fn assert_all_eq(sequence: &[TermRef]) -> (r: Result<(), SortError>)
        ensures
            (forall|i: int| 0 <= i < sequence@.len() ==> #[trigger] sequence@[i] == sequence@[0]) ==> r is Ok,
            r is Err ==> exists|i: int|
                #![trigger sequence@[i]]
                1 <= i < sequence@.len() && sequence@[i - 1] != sequence@[i] && (forall|j: int|
                    0 <= j < i ==> #[trigger] sequence@[j] == sequence@[0]) && r == Err::<(), SortError>(
                    SortError::Expected { expected: sequence@[i - 1], got: sequence@[i] },
                ),
            r is Ok ==> forall|i: int| 0 <= i < sequence@.len() ==> #[trigger] sequence@[i] == sequence@[0],
    {
        let mut i: usize = 1;
        while i < sequence.len()
            invariant
                1 <= i,
                forall|j: int| 0 <= j < i && j < sequence@.len() ==> #[trigger] sequence@[j] == sequence@[0],
            decreases sequence@.len() - i,
        {
            let res = SortError::assert_eq(&sequence[i - 1], &sequence[i]);
            if res.is_err() {
                return res;
            }
            i = i + 1;
        }
        Ok(())
    }

    /// Fails with `ExpectedOneOf` unless `got` is one of `possibilities`.
    pub fn assert_one_of(possibilities: &[TermRef], got: &TermRef) -> (r: Result<(), SortError>)
        ensures
            possibilities@.contains(*got) ==> r is Ok,
            !possibilities@.contains(*got) ==> match r {
                Err(SortError::ExpectedOneOf { possibilities: p, got: g }) => p@ == possibilities@
                    && g == *got,
                _ => false,
            },
    {
        let mut i: usize = 0;
        while i < possibilities.len()
            invariant
                0 <= i <= possibilities@.len(),
                forall|j: int| 0 <= j < i ==> possibilities@[j] != *got,
            decreases possibilities@.len() - i,
        {
            if possibilities[i] == *got {
                assert(possibilities@[i as int] == *got);
                return Ok(());
            }
            i = i + 1;
        }
        let mut all: Vec<TermRef> = Vec::new();
        let mut k: usize = 0;
        while k < possibilities.len()
            invariant
                0 <= k <= possibilities@.len(),
                all@ == possibilities@.subrange(0, k as int),
            decreases possibilities@.len() - k,
        {
            all.push(possibilities[k]);
            k = k + 1;
            assert(all@ =~= possibilities@.subrange(0, k as int));
        }
        assert(all@ =~= possibilities@);
        Err(SortError::ExpectedOneOf { possibilities: all, got: *got })
    }
}

} // verus!
