//! Subproof context engine of a parallel checker for Alethe proof certificates.
//!
//! Terms live in an interning [`term::TermPool`]; a [`substitution::Substitution`] rewrites
//! them avoiding capture; [`context::ContextRegistry`] holds one build-once slot per anchor,
//! shared by every worker, and each worker walks its subproofs with a
//! [`context::ContextStack`].

pub mod checker;
pub mod context;
pub mod error;
pub mod substitution;
pub mod term;

pub use checker::{CarcaraOptions, CheckerError, Config, Error, ParallelProofChecker};
pub use context::{Context, ContextRegistry, ContextStack};
pub use error::{ErrorKind, ParserError, ParserIoError, SortError};
pub use substitution::{Substitution, SubstitutionError};
pub use term::{Quantifier, Term, TermPool, TermRef};
