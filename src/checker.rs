//! Options, the checker's errors, and the per-worker state of the parallel checker.

use vstd::prelude::*;
use vstd::string::StrSliceExecFns;
use crate::context::{has_position, position_set, ContextRegistry, ContextStack, SlotView};
use crate::error::{ParserError, ParserIoError, Position};
use crate::substitution::SubstitutionError;
use crate::term::TermRef;

verus! {

/// The options that control how a proof is parsed, checked and elaborated.
pub struct CarcaraOptions {
    /// Expand the definitions of `define-fun` in the problem.
    pub apply_function_defs: bool,
    /// Eliminate `let` bindings from terms while parsing.
    pub expand_lets: bool,
    /// Accept `Int` terms where predefined arithmetic operators expect `Real`.
    pub allow_int_real_subtyping: bool,
    /// Check `lia_generic` steps with an external solver.
    pub lia_via_cvc5: bool,
    /// Check some rules strictly (no implicit reordering; pivots given as arguments).
    pub strict: bool,
    /// Count unknown rules as holes instead of failing on them.
    pub skip_unknown_rules: bool,
    /// Log statistics of each run.
    pub stats: bool,
}

impl CarcaraOptions {
    /// All options off.
    pub fn new() -> (r: CarcaraOptions)
        ensures
            !r.apply_function_defs,
            !r.expand_lets,
            !r.allow_int_real_subtyping,
            !r.lia_via_cvc5,
            !r.strict,
            !r.skip_unknown_rules,
            !r.stats,
    {
        CarcaraOptions {
            apply_function_defs: false,
            expand_lets: false,
            allow_int_real_subtyping: false,
            lia_via_cvc5: false,
            strict: false,
            skip_unknown_rules: false,
            stats: false,
        }
    }
}

impl Default for CarcaraOptions {
    fn default() -> (r: CarcaraOptions)
        ensures
            !r.apply_function_defs,
            !r.expand_lets,
            !r.allow_int_real_subtyping,
            !r.lia_via_cvc5,
            !r.strict,
            !r.skip_unknown_rules,
            !r.stats,
    {
        CarcaraOptions::new()
    }
}

/// The configuration of a checking run.
#[derive(Clone, Copy, Debug, PartialEq, Eq, Structural)]
pub struct Config {
    pub strict: bool,
    pub skip_unknown_rules: bool,
    pub lia_via_cvc5: bool,
    pub is_running_test: bool,
}

impl Config {
    /// Everything off.
    pub fn new() -> (r: Config)
        ensures
            r == (Config {
                strict: false,
                skip_unknown_rules: false,
                lia_via_cvc5: false,
                is_running_test: false,
            }),
    {
        Config { strict: false, skip_unknown_rules: false, lia_via_cvc5: false, is_running_test: false }
    }

    pub fn strict(self, value: bool) -> (r: Config)
        ensures
            r == (Config { strict: value, ..self }),
    {
        Config { strict: value, ..self }
    }

    pub fn skip_unknown_rules(self, value: bool) -> (r: Config)
        ensures
            r == (Config { skip_unknown_rules: value, ..self }),
    {
        Config { skip_unknown_rules: value, ..self }
    }

    pub fn lia_via_cvc5(self, value: bool) -> (r: Config)
        ensures
            r == (Config { lia_via_cvc5: value, ..self }),
    {
        Config { lia_via_cvc5: value, ..self }
    }
}

/// Why a step failed to check.
#[derive(Debug, PartialEq)]
pub enum CheckerError {
    /// An anchor's assignments could not be turned into a substitution.
    Substitution(SubstitutionError),
    /// The step names a rule that the checker does not know.
    UnknownRule,
    /// An `assume` command whose term is not a premise of the problem.
    Assume(TermRef),
}

/// The errors of a checking run.
#[derive(Debug, PartialEq)]
pub enum Error {
    Io(ParserIoError),
    Parser(ParserError, Position),
    /// A step failed: which step, by which rule, and why.
    Checker { inner: CheckerError, rule: String, step: String },
    /// No worker derived the empty clause.
    DoesNotReachEmptyClause,
}

/// What a worker does with a step, once its rule name is known.
#[derive(Clone, Copy, Debug, PartialEq, Eq, Structural)]
pub enum StepAction {
    /// Run the rule's check.
    CheckRule,
    /// Hand the step to the external arithmetic solver.
    CallSolver,
    /// Accept the step without checking it; the proof has a hole.
    Skip,
}

/// What a worker does with an `assume` command.
#[derive(Clone, Copy, Debug, PartialEq, Eq, Structural)]
pub enum AssumeCheck {
    /// The command is accepted.
    Accepted,
    /// The command fails.
    Rejected,
    /// The command is accepted only if a premise equal to its term up to reordering is found.
    SearchEquivalent,
}

/// Merges what the workers report, `(reached_empty_clause, is_holey)` each: the proof holds if a
/// worker reached the empty clause, and has holes if any worker met one.
pub fn merge_worker_results(results: &Vec<(bool, bool)>) -> (r: Result<bool, Error>)
    ensures
        (exists|i: int| 0 <= i < results@.len() && (#[trigger] results@[i]).0) ==> r == Ok::<bool, Error>(
            exists|i: int| 0 <= i < results@.len() && (#[trigger] results@[i]).1,
        ),
        !(exists|i: int| 0 <= i < results@.len() && (#[trigger] results@[i]).0) ==> r == Err::<bool, Error>(
            Error::DoesNotReachEmptyClause,
        ),
{
    let mut reached = false;
    let mut holey = false;
    let mut i: usize = 0;
    while i < results.len()
        invariant
            0 <= i <= results@.len(),
            reached == exists|j: int| 0 <= j < i && (#[trigger] results@[j]).0,
            holey == exists|j: int| 0 <= j < i && (#[trigger] results@[j]).1,
        decreases results@.len() - i,
    {
        let (rch, hly) = results[i];
        reached = reached || rch;
        holey = holey || hly;
        i = i + 1;
        assert(reached == exists|j: int| 0 <= j < i && (#[trigger] results@[j]).0) by {
            if results@[i - 1].0 {
                assert(results@[i - 1].0);
            }
        }
        assert(holey == exists|j: int| 0 <= j < i && (#[trigger] results@[j]).1) by {
            if results@[i - 1].1 {
                assert(results@[i - 1].1);
            }
        }
    }
    if reached {
        Ok(holey)
    } else {
        Err(Error::DoesNotReachEmptyClause)
    }
}

/// Whether `a` and `b` hold the same characters.
pub fn same_text(a: &str, b: &str) -> (r: bool)
    ensures
        r == (a@ == b@),
{
    let n = a.unicode_len();
    if n != b.unicode_len() {
        return false;
    }
    let mut i: usize = 0;
    while i < n
        invariant
            n == a@.len(),
            n == b@.len(),
            0 <= i <= n,
            forall|j: int| 0 <= j < i ==> a@[j] == b@[j],
        decreases n - i,
    {
        if a.get_char(i) != b.get_char(i) {
            return false;
        }
        i = i + 1;
    }
    assert(a@ =~= b@);
    true
}

/// The per-worker state of the parallel checker.
pub struct ParallelProofChecker {
    config: Config,
    context: ContextStack,
    reached_empty_clause: bool,
    is_holey: bool,
}

impl ParallelProofChecker {
    pub closed spec fn config(&self) -> Config {
        self.config
    }

    pub closed spec fn context_spec(&self) -> ContextStack {
        self.context
    }

    pub closed spec fn holey(&self) -> bool {
        self.is_holey
    }

    pub closed spec fn reached(&self) -> bool {
        self.reached_empty_clause
    }

    /// A checker with an empty context stack, and the registry of one empty slot per anchor
    /// that its workers share; slot `i` will be left by `context_usage[i]` workers.
    pub fn new(config: Config, context_usage: &Vec<usize>) -> (r: (
        ParallelProofChecker,
        ContextRegistry,
    ))
        ensures
            r.0.config() == config,
            r.0.context_spec().ids().len() == 0,
            r.0.context_spec().calculated() == 0,
            !r.0.holey(),
            !r.0.reached(),
            r.1.wf(),
            r.1@.len() == context_usage@.len(),
            forall|i: int|
                0 <= i < context_usage@.len() ==> #[trigger] r.1@[i] == (SlotView {
                    remaining: context_usage@[i] as nat,
                    payload: None,
                }),
    {
        let (context, registry) = ContextStack::from_usage(context_usage);
        (
            ParallelProofChecker {
                config,
                context,
                reached_empty_clause: false,
                is_holey: false,
            },
            registry,
        )
    }

    /// A checker for another worker: the same configuration, a new empty context stack over
    /// the same registry, and nothing reached yet.
    pub fn parallelize_self(&self) -> (r: ParallelProofChecker)
        ensures
            r.config() == self.config(),
            r.context_spec().ids().len() == 0,
            r.context_spec().calculated() == 0,
            !r.holey(),
            !r.reached(),
    {
        ParallelProofChecker {
            config: self.config,
            context: self.context.from_previous(),
            reached_empty_clause: false,
            is_holey: false,
        }
    }

    /// The configuration of the run.
    pub fn get_config(&self) -> (r: Config)
        ensures
            r == self.config(),
    {
        self.config
    }

    /// This worker's context stack.
    pub fn context(&mut self) -> (r: &mut ContextStack)
        ensures
            *r == old(self).context_spec(),
    {
        &mut self.context
    }

    /// Whether a step of this worker was accepted without a full check.
    pub fn is_holey(&self) -> (r: bool)
        ensures
            r == self.holey(),
    {
        self.is_holey
    }

    /// Whether this worker derived the empty clause, or the run is a test that needs none.
    pub fn reached_empty_clause(&self) -> (r: bool)
        ensures
            r == (self.reached() || self.config().is_running_test),
    {
        self.reached_empty_clause || self.config.is_running_test
    }

    /// Records that a step concluded the empty clause.
    pub fn mark_empty_clause(&mut self)
        ensures
            final(self).reached(),
            final(self).holey() == old(self).holey(),
            final(self).config() == old(self).config(),
            final(self).context_spec() == old(self).context_spec(),
    {
        self.reached_empty_clause = true;
    }

    /// Records the solver's verdict on a `lia_generic` step: a hole makes the proof holey.
    pub fn record_solver_result(&mut self, is_hole: bool)
        ensures
            final(self).holey() == (old(self).holey() || is_hole),
            final(self).reached() == old(self).reached(),
            final(self).config() == old(self).config(),
            final(self).context_spec() == old(self).context_spec(),
    {
        self.is_holey = self.is_holey || is_hole;
    }

    /// Decides an `assume` of `term`, given the positions of the problem's premises. Inside a
    /// subproof, or in a test run, it is accepted; so is a premise; otherwise strict checking
    /// rejects it, and lenient checking must look for an equivalent premise.
    pub fn check_assume(&self, term: TermRef, premises: &ahash::AHashSet<usize>, in_subproof: bool) -> (r:
        AssumeCheck)
        ensures
            r == if self.config().is_running_test || in_subproof {
                AssumeCheck::Accepted
            } else if position_set(*premises).contains(term.0) {
                AssumeCheck::Accepted
            } else if self.config().strict {
                AssumeCheck::Rejected
            } else {
                AssumeCheck::SearchEquivalent
            },
    {
        if self.config.is_running_test || in_subproof {
            return AssumeCheck::Accepted;
        }
        if has_position(premises, term.0) {
            return AssumeCheck::Accepted;
        }
        if self.config.strict {
            return AssumeCheck::Rejected;
        }
        AssumeCheck::SearchEquivalent
    }

    /// Decides what to do with a step of rule `rule_name`, `rule_known` telling whether the
    /// checker has that rule. `lia_generic` goes to the solver when it is enabled and is
    /// skipped as a hole otherwise; an unknown rule is skipped as a hole when unknown rules
    /// may be skipped and fails otherwise; `hole` is checked, and makes the proof holey.
    pub fn check_step(&mut self, rule_name: &str, rule_known: bool) -> (r: Result<
        StepAction,
        CheckerError,
    >)
        ensures
            final(self).config() == old(self).config(),
            final(self).reached() == old(self).reached(),
            final(self).context_spec() == old(self).context_spec(),
            rule_name@ == "lia_generic"@ ==> if old(self).config().lia_via_cvc5 {
                r == Ok::<StepAction, CheckerError>(StepAction::CallSolver) && final(self).holey()
                    == old(self).holey()
            } else {
                r == Ok::<StepAction, CheckerError>(StepAction::Skip) && final(self).holey()
            },
            rule_name@ != "lia_generic"@ && !rule_known ==> if old(self).config().skip_unknown_rules {
                r == Ok::<StepAction, CheckerError>(StepAction::Skip) && final(self).holey()
            } else {
                r == Err::<StepAction, CheckerError>(CheckerError::UnknownRule) && final(self).holey()
                    == old(self).holey()
            },
            rule_name@ != "lia_generic"@ && rule_known ==> r == Ok::<StepAction, CheckerError>(
                StepAction::CheckRule,
            ) && final(self).holey() == (old(self).holey() || rule_name@ == "hole"@),
    {
        if same_text(rule_name, "lia_generic") {
            if self.config.lia_via_cvc5 {
                Ok(StepAction::CallSolver)
            } else {
                self.is_holey = true;
                Ok(StepAction::Skip)
            }
        } else if !rule_known {
            if self.config.skip_unknown_rules {
                self.is_holey = true;
                Ok(StepAction::Skip)
            } else {
                Err(CheckerError::UnknownRule)
            }
        } else {
            if same_text(rule_name, "hole") {
                self.is_holey = true;
            }
            Ok(StepAction::CheckRule)
        }
    }
}

} // verus!
