use carcara::checker::{merge_worker_results, AssumeCheck, CarcaraOptions, CheckerError, Config, ParallelProofChecker, StepAction};
use carcara::error::{ErrorKind, SortError};
use carcara::term::{Term, TermPool};

#[test]
fn number_of_arguments() {
    assert_eq!(ErrorKind::assert_num_of_args(&[1, 2, 3], 3), Ok(()));
    assert_eq!(
        ErrorKind::assert_num_of_args(&[1, 2], 3),
        Err(ErrorKind::WrongNumberOfArgs(3, 2))
    );
    let empty: [u8; 0] = [];
    assert_eq!(
        ErrorKind::assert_num_of_args(&empty, 1),
        Err(ErrorKind::WrongNumberOfArgs(1, 0))
    );
}

#[test]
fn number_of_arguments_at_least() {
    assert_eq!(ErrorKind::assert_num_of_args_range(&[1, 2, 3], 2..), Ok(()));
    assert_eq!(ErrorKind::assert_num_of_args_range(&[1, 2], 2..), Ok(()));
    assert_eq!(
        ErrorKind::assert_num_of_args_range(&[1], 2..),
        Err(ErrorKind::WrongNumberOfArgs(2, 1))
    );
}

#[test]
fn sort_assertions() {
    let mut pool = TermPool::new();
    let int = pool.add(Term::Sort("Int".to_string()));
    let real = pool.add(Term::Sort("Real".to_string()));
    let b = pool.add(Term::Sort("Bool".to_string()));
    assert_eq!(SortError::assert_eq(&int, &int), Ok(()));
    assert_eq!(
        SortError::assert_eq(&int, &real),
        Err(SortError::Expected { expected: int, got: real })
    );
    assert_eq!(SortError::assert_all_eq(&[]), Ok(()));
    assert_eq!(SortError::assert_all_eq(&[int, int, int]), Ok(()));
    assert_eq!(
        SortError::assert_all_eq(&[int, int, real, b]),
        Err(SortError::Expected { expected: int, got: real })
    );
    assert_eq!(SortError::assert_one_of(&[int, real], &real), Ok(()));
    assert_eq!(
        SortError::assert_one_of(&[int, real], &b),
        Err(SortError::ExpectedOneOf { possibilities: vec![int, real], got: b })
    );
}

#[test]
fn options_start_off() {
    let o = CarcaraOptions::new();
    assert!(!o.apply_function_defs && !o.expand_lets && !o.allow_int_real_subtyping);
    assert!(!o.lia_via_cvc5 && !o.strict && !o.skip_unknown_rules && !o.stats);
    let d = CarcaraOptions::default();
    assert!(!d.strict && !d.stats);
}

#[test]
fn config_builders() {
    let c = Config::new().strict(true).lia_via_cvc5(true);
    assert!(c.strict && c.lia_via_cvc5 && !c.skip_unknown_rules && !c.is_running_test);
}

#[test]
fn checker_copies_for_workers() {
    let config = Config::new().skip_unknown_rules(true);
    let (checker, registry) = ParallelProofChecker::new(config, &vec![2, 1]);
    assert_eq!(registry.len(), 2);
    assert_eq!(registry.remaining(0), 2);
    let worker = checker.parallelize_self();
    assert_eq!(worker.get_config(), config);
    assert!(!worker.is_holey());
    assert!(!worker.reached_empty_clause());
}

#[test]
fn step_decisions() {
    let (mut checker, _) = ParallelProofChecker::new(Config::new(), &vec![]);
    assert_eq!(checker.check_step("resolution", true), Ok(StepAction::CheckRule));
    assert!(!checker.is_holey());
    assert_eq!(checker.check_step("no_such_rule", false), Err(CheckerError::UnknownRule));
    assert!(!checker.is_holey());
    assert_eq!(checker.check_step("hole", true), Ok(StepAction::CheckRule));
    assert!(checker.is_holey());
}

#[test]
fn lia_generic_decisions() {
    let (mut checker, _) = ParallelProofChecker::new(Config::new(), &vec![]);
    assert_eq!(checker.check_step("lia_generic", false), Ok(StepAction::Skip));
    assert!(checker.is_holey());
    let (mut solver, _) = ParallelProofChecker::new(Config::new().lia_via_cvc5(true), &vec![]);
    assert_eq!(solver.check_step("lia_generic", false), Ok(StepAction::CallSolver));
    assert!(!solver.is_holey());
    solver.record_solver_result(true);
    assert!(solver.is_holey());
}

#[test]
fn unknown_rules_skipped_when_allowed() {
    let (mut checker, _) = ParallelProofChecker::new(Config::new().skip_unknown_rules(true), &vec![]);
    assert_eq!(checker.check_step("mystery", false), Ok(StepAction::Skip));
    assert!(checker.is_holey());
    checker.mark_empty_clause();
    assert!(checker.reached_empty_clause());
}

#[test]
fn assume_decisions() {
    let mut pool = TermPool::new();
    let b = pool.add(Term::Sort("Bool".to_string()));
    let p = pool.add(Term::App("p".to_string(), b, vec![]));
    let q = pool.add(Term::App("q".to_string(), b, vec![]));
    let mut premises: ahash::AHashSet<usize> = ahash::AHashSet::new();
    premises.insert(p.index());
    let (lenient, _) = ParallelProofChecker::new(Config::new(), &vec![]);
    assert_eq!(lenient.check_assume(p, &premises, false), AssumeCheck::Accepted);
    assert_eq!(lenient.check_assume(q, &premises, false), AssumeCheck::SearchEquivalent);
    assert_eq!(lenient.check_assume(q, &premises, true), AssumeCheck::Accepted);
    let (strict, _) = ParallelProofChecker::new(Config::new().strict(true), &vec![]);
    assert_eq!(strict.check_assume(q, &premises, false), AssumeCheck::Rejected);
    assert_eq!(strict.check_assume(p, &premises, false), AssumeCheck::Accepted);
}

#[test]
fn sort_error_converts_to_error_kind() {
    let mut pool = TermPool::new();
    let int = pool.add(Term::Sort("Int".to_string()));
    let real = pool.add(Term::Sort("Real".to_string()));
    let e = SortError::assert_eq(&int, &real).unwrap_err();
    assert_eq!(
        ErrorKind::from(e),
        ErrorKind::SortError(SortError::Expected { expected: int, got: real })
    );
}

#[test]
fn merging_worker_results() {
    assert_eq!(merge_worker_results(&vec![]), Err(carcara::Error::DoesNotReachEmptyClause));
    assert_eq!(
        merge_worker_results(&vec![(false, true)]),
        Err(carcara::Error::DoesNotReachEmptyClause)
    );
    assert_eq!(merge_worker_results(&vec![(false, true), (true, false)]), Ok(true));
    assert_eq!(merge_worker_results(&vec![(true, false), (false, false)]), Ok(false));
}
