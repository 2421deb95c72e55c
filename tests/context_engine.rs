use carcara::context::{ContextRegistry, ContextStack};
use carcara::substitution::{Substitution, SubstitutionError};
use carcara::term::{Quantifier, Term, TermPool, TermRef};

struct Fixture {
    pool: TermPool,
    u: TermRef,
    x: TermRef,
    y: TermRef,
    z: TermRef,
    a: TermRef,
}

fn fixture() -> Fixture {
    let mut pool = TermPool::new();
    let u = pool.add(Term::Sort("U".to_string()));
    let x = pool.add(Term::Var("x".to_string(), u));
    let y = pool.add(Term::Var("y".to_string(), u));
    let z = pool.add(Term::Var("z".to_string(), u));
    let a = pool.add(Term::App("a".to_string(), u, vec![]));
    Fixture { pool, u, x, y, z, a }
}

fn app(pool: &mut TermPool, f: &str, sort: TermRef, args: Vec<TermRef>) -> TermRef {
    pool.add(Term::App(f.to_string(), sort, args))
}

fn assign(name: &str, value: TermRef) -> (String, TermRef) {
    (name.to_string(), value)
}

#[test]
fn interning_returns_the_same_handle() {
    let mut f = fixture();
    let x2 = f.pool.add(Term::Var("x".to_string(), f.u));
    assert_eq!(x2, f.x);
    let fx1 = app(&mut f.pool, "f", f.u, vec![f.x]);
    let fx2 = app(&mut f.pool, "f", f.u, vec![f.x]);
    assert_eq!(fx1, fx2);
    assert_ne!(fx1, f.x);
}

#[test]
fn sort_of_terms() {
    let mut f = fixture();
    let b = f.pool.add(Term::Sort("Bool".to_string()));
    let p = app(&mut f.pool, "p", b, vec![f.x]);
    let q = f.pool.add(Term::Binder(Quantifier::Forall, vec![f.x], p));
    assert_eq!(f.pool.sort(f.x), f.u);
    assert_eq!(f.pool.sort(f.a), f.u);
    assert_eq!(f.pool.sort(q), b);
    assert_eq!(f.pool.sort(f.u), f.u);
}

#[test]
fn insert_rejects_a_non_variable_key() {
    let f = fixture();
    let mut s = Substitution::empty();
    assert_eq!(s.insert(&f.pool, f.a, f.x), Err(SubstitutionError::NotAVariable(f.a)));
    assert_eq!(s.len(), 0);
}

#[test]
fn insert_rejects_a_value_of_another_sort() {
    let mut f = fixture();
    let v = f.pool.add(Term::Sort("V".to_string()));
    let w = f.pool.add(Term::Var("w".to_string(), v));
    let mut s = Substitution::empty();
    assert_eq!(
        s.insert(&f.pool, f.x, w),
        Err(SubstitutionError::SortMismatch { expected: f.u, got: v })
    );
    assert_eq!(s.get(f.x), None);
}

#[test]
fn insert_then_get_and_replace() {
    let f = fixture();
    let mut s = Substitution::empty();
    assert_eq!(s.insert(&f.pool, f.x, f.a), Ok(()));
    assert_eq!(s.get(f.x), Some(f.a));
    assert_eq!(s.insert(&f.pool, f.x, f.y), Ok(()));
    assert_eq!(s.get(f.x), Some(f.y));
    assert_eq!(s.len(), 1);
}

#[test]
fn apply_rewrites_free_variables_only() {
    let mut f = fixture();
    let mut s = Substitution::empty();
    s.insert(&f.pool, f.x, f.a).unwrap();
    let gxy = app(&mut f.pool, "g", f.u, vec![f.x, f.y]);
    let r = s.apply(&mut f.pool, gxy);
    let expected = app(&mut f.pool, "g", f.u, vec![f.a, f.y]);
    assert_eq!(r, expected);
    assert_eq!(s.apply(&mut f.pool, f.y), f.y);
    assert_eq!(s.apply(&mut f.pool, f.x), f.a);
    // a bound occurrence of x is left alone
    let b = f.pool.add(Term::Sort("Bool".to_string()));
    let px = app(&mut f.pool, "p", b, vec![f.x]);
    let all_x = f.pool.add(Term::Binder(Quantifier::Forall, vec![f.x], px));
    assert_eq!(s.apply(&mut f.pool, all_x), all_x);
}

#[test]
fn capture_avoidance_renames_the_binder() {
    let mut f = fixture();
    let b = f.pool.add(Term::Sort("Bool".to_string()));
    let fy = app(&mut f.pool, "f", f.u, vec![f.y]);
    let mut s = Substitution::empty();
    s.insert(&f.pool, f.x, fy).unwrap();
    // (forall ((y U)) (p x y)) with x := f(y)
    let pxy = app(&mut f.pool, "p", b, vec![f.x, f.y]);
    let q = f.pool.add(Term::Binder(Quantifier::Forall, vec![f.y], pxy));
    let r = s.apply(&mut f.pool, q);
    let Term::Binder(kind, vars, body) = f.pool.get(r).clone() else {
        panic!("a binder was expected");
    };
    assert_eq!(kind, Quantifier::Forall);
    assert_eq!(vars.len(), 1);
    let renamed = vars[0];
    assert_ne!(renamed, f.y);
    assert_eq!(f.pool.sort(renamed), f.u);
    let expected_body = app(&mut f.pool, "p", b, vec![fy, renamed]);
    assert_eq!(body, expected_body);
    assert!(!f.pool.occurs_free(renamed, fy));
}

#[test]
fn binder_not_renamed_without_capture() {
    let mut f = fixture();
    let b = f.pool.add(Term::Sort("Bool".to_string()));
    let mut s = Substitution::empty();
    s.insert(&f.pool, f.x, f.a).unwrap();
    let pxy = app(&mut f.pool, "p", b, vec![f.x, f.y]);
    let q = f.pool.add(Term::Binder(Quantifier::Exists, vec![f.y], pxy));
    let r = s.apply(&mut f.pool, q);
    let pay = app(&mut f.pool, "p", b, vec![f.a, f.y]);
    let expected = f.pool.add(Term::Binder(Quantifier::Exists, vec![f.y], pay));
    assert_eq!(r, expected);
}

#[test]
fn simultaneous_substitution_folds_earlier_mappings() {
    let mut f = fixture();
    let fy = app(&mut f.pool, "f", f.u, vec![f.y]);
    let fz = app(&mut f.pool, "f", f.u, vec![f.z]);
    let s = carcara::context::build_simultaneous_substitution(&mut f.pool, &vec![(f.y, f.z), (f.x, fy)]);
    assert_eq!(s.get(f.y), Some(f.z));
    assert_eq!(s.get(f.x), Some(fz));
    assert_eq!(s.len(), 2);
}

#[test]
fn simultaneous_substitution_depends_on_order() {
    let mut f = fixture();
    let fy = app(&mut f.pool, "f", f.u, vec![f.y]);
    let s = carcara::context::build_simultaneous_substitution(&mut f.pool, &vec![(f.x, fy), (f.y, f.z)]);
    assert_eq!(s.get(f.x), Some(fy));
    assert_eq!(s.get(f.y), Some(f.z));
}

#[test]
fn empty_stack_applies_nothing() {
    let mut f = fixture();
    let (mut stack, mut registry) = ContextStack::from_usage(&vec![1, 1]);
    let fx = app(&mut f.pool, "f", f.u, vec![f.x]);
    assert!(stack.is_empty());
    assert_eq!(stack.apply(&mut registry, &mut f.pool, f.x), f.x);
    assert_eq!(stack.apply(&mut registry, &mut f.pool, fx), fx);
    assert_eq!(stack.apply_previous(&mut registry, &mut f.pool, fx), fx);
    assert!(stack.last(&registry).is_none());
}

#[test]
fn single_anchor() {
    let mut f = fixture();
    let (mut stack, mut registry) = ContextStack::from_usage(&vec![2]);
    stack.push(&mut registry, &mut f.pool, &vec![assign("x", f.a)], &vec![], 0).unwrap();
    assert_eq!(stack.len(), 1);
    assert_eq!(stack.apply(&mut registry, &mut f.pool, f.x), f.a);
    assert_eq!(stack.apply(&mut registry, &mut f.pool, f.y), f.y);
    assert_eq!(stack.apply_previous(&mut registry, &mut f.pool, f.x), f.x);
    let ctx = stack.last(&registry).unwrap();
    assert_eq!(ctx.mappings, vec![(f.x, f.a)]);
    stack.pop(&mut registry);
    assert_eq!(stack.len(), 0);
    assert_eq!(registry.remaining(0), 1);
    assert!(registry.context(0).is_some());
}

#[test]
fn nested_anchors_chain_substitutions() {
    let mut f = fixture();
    let (mut stack, mut registry) = ContextStack::from_usage(&vec![1, 1]);
    let fy = app(&mut f.pool, "f", f.u, vec![f.y]);
    stack.push(&mut registry, &mut f.pool, &vec![assign("y", f.z)], &vec![], 0).unwrap();
    stack.push(&mut registry, &mut f.pool, &vec![assign("x", fy)], &vec![], 1).unwrap();
    // the inner frame's own mapping is taken as it is; keys of the outer frame keep their
    // place, their values rewritten by the inner frame
    assert_eq!(stack.apply(&mut registry, &mut f.pool, f.x), fy);
    let fx = app(&mut f.pool, "f", f.u, vec![f.x]);
    assert_eq!(stack.apply(&mut registry, &mut f.pool, fx), app(&mut f.pool, "f", f.u, vec![fy]));
    let gyz = app(&mut f.pool, "g", f.u, vec![f.y, f.z]);
    assert_eq!(stack.apply(&mut registry, &mut f.pool, gyz), app(&mut f.pool, "g", f.u, vec![f.z, f.z]));
    assert_eq!(stack.apply(&mut registry, &mut f.pool, f.y), f.z);
    assert_eq!(stack.apply_previous(&mut registry, &mut f.pool, f.x), f.x);
    assert_eq!(stack.apply_previous(&mut registry, &mut f.pool, f.y), f.z);
    stack.pop(&mut registry);
    stack.pop(&mut registry);
    assert_eq!(registry.remaining(0), 0);
    assert_eq!(registry.remaining(1), 0);
    assert!(registry.context(0).is_none());
    assert!(registry.context(1).is_none());
}

#[test]
fn cumulative_keeps_outer_keys_rewritten_by_inner_frame() {
    let mut f = fixture();
    let (mut stack, mut registry) = ContextStack::from_usage(&vec![1, 1]);
    stack.push(&mut registry, &mut f.pool, &vec![assign("x", f.y)], &vec![], 0).unwrap();
    stack.push(&mut registry, &mut f.pool, &vec![assign("y", f.a)], &vec![], 1).unwrap();
    // depth 0 maps x to y; depth 1 maps y to a, and x to y rewritten by depth 1: a
    assert_eq!(stack.apply(&mut registry, &mut f.pool, f.x), f.a);
    assert_eq!(stack.apply(&mut registry, &mut f.pool, f.y), f.a);
    assert_eq!(stack.apply_previous(&mut registry, &mut f.pool, f.x), f.y);
    // each variable: depth 1 equals depth 1's own mapping applied to depth 0's result
    for v in [f.x, f.y, f.z] {
        let below = stack.apply_previous(&mut registry, &mut f.pool, v);
        let own = carcara::context::build_simultaneous_substitution(&mut f.pool, &registry.context(1).unwrap().mappings);
        let expected = own.apply(&mut f.pool, below);
        assert_eq!(stack.apply(&mut registry, &mut f.pool, v), expected);
    }
}

#[test]
fn two_workers_share_one_build() {
    let mut f = fixture();
    let (mut first, mut registry) = ContextStack::from_usage(&vec![2]);
    let mut second = first.from_previous();
    first.push(&mut registry, &mut f.pool, &vec![assign("x", f.a)], &vec![], 0).unwrap();
    let built = registry.context(0).unwrap().mappings.clone();
    let pool_size = f.pool.len();
    // the second worker pushes other arguments: the slot is already built and stays as it is
    second.push(&mut registry, &mut f.pool, &vec![assign("q", f.a)], &vec![], 0).unwrap();
    assert_eq!(f.pool.len(), pool_size);
    assert_eq!(registry.context(0).unwrap().mappings, built);
    assert_eq!(second.apply(&mut registry, &mut f.pool, f.x), f.a);
    assert_eq!(first.apply(&mut registry, &mut f.pool, f.x), f.a);
    first.pop(&mut registry);
    assert!(registry.context(0).is_some());
    second.pop(&mut registry);
    assert_eq!(registry.remaining(0), 0);
    assert!(registry.context(0).is_none());
}

#[test]
fn bindings_record_declared_variables() {
    let mut f = fixture();
    let (mut stack, mut registry) = ContextStack::from_usage(&vec![1]);
    stack.push(&mut registry, &mut f.pool, &vec![], &vec![assign("y", f.u)], 0).unwrap();
    let ctx = stack.last(&registry).unwrap();
    assert!(ctx.binds(f.y));
    assert!(!ctx.binds(f.x));
}

#[test]
fn catch_up_twice_changes_nothing() {
    let mut f = fixture();
    let (mut stack, mut registry) = ContextStack::from_usage(&vec![1, 1]);
    stack.push(&mut registry, &mut f.pool, &vec![assign("y", f.z)], &vec![], 0).unwrap();
    stack.push(&mut registry, &mut f.pool, &vec![assign("x", f.y)], &vec![], 1).unwrap();
    stack.catch_up_cumulative(&mut registry, &mut f.pool, 1);
    let pool_size = f.pool.len();
    let first = registry.context(1).unwrap().cumulative_substitution.as_ref().unwrap().entries().clone();
    stack.catch_up_cumulative(&mut registry, &mut f.pool, 1);
    assert_eq!(f.pool.len(), pool_size);
    let second = registry.context(1).unwrap().cumulative_substitution.as_ref().unwrap().entries().clone();
    assert_eq!(first, second);
    let cum = registry.context(1).unwrap().cumulative_substitution.as_ref().unwrap();
    assert_eq!(cum.get(f.x), Some(f.y));
    assert_eq!(cum.get(f.y), Some(f.z));
}

#[test]
fn registry_from_usage() {
    let registry = ContextRegistry::from_usage(&vec![3, 0, 1]);
    assert_eq!(registry.len(), 3);
    assert_eq!(registry.remaining(0), 3);
    assert_eq!(registry.remaining(1), 0);
    assert_eq!(registry.remaining(2), 1);
    assert!(registry.context(0).is_none());
}

#[test]
fn pop_on_empty_stack_does_nothing() {
    let (mut stack, mut registry) = ContextStack::from_usage(&vec![1]);
    stack.pop(&mut registry);
    assert_eq!(registry.remaining(0), 1);
    assert_eq!(ContextStack::new().len(), 0);
}

#[test]
fn top_names_the_innermost_slot() {
    let mut f = fixture();
    let (mut stack, mut registry) = ContextStack::from_usage(&vec![1, 1]);
    assert_eq!(stack.top(), None);
    stack.push(&mut registry, &mut f.pool, &vec![], &vec![], 1).unwrap();
    stack.push(&mut registry, &mut f.pool, &vec![], &vec![], 0).unwrap();
    assert_eq!(stack.top(), Some(0));
    stack.pop(&mut registry);
    assert_eq!(stack.top(), Some(1));
}

#[test]
fn repeated_apply_gives_the_same_handle() {
    let mut f = fixture();
    let b = f.pool.add(Term::Sort("Bool".to_string()));
    let fy = app(&mut f.pool, "f", f.u, vec![f.y]);
    let (mut stack, mut registry) = ContextStack::from_usage(&vec![1]);
    stack.push(&mut registry, &mut f.pool, &vec![assign("x", fy)], &vec![], 0).unwrap();
    // (exists ((y U)) (p x y)): the binder must be renamed
    let pxy = app(&mut f.pool, "p", b, vec![f.x, f.y]);
    let q = f.pool.add(Term::Binder(Quantifier::Exists, vec![f.y], pxy));
    let first = stack.apply(&mut registry, &mut f.pool, q);
    let size = f.pool.len();
    let second = stack.apply(&mut registry, &mut f.pool, q);
    assert_eq!(first, second);
    assert_eq!(f.pool.len(), size);
    assert_ne!(first, q);
}

#[test]
fn renamed_binder_gets_primes() {
    let mut f = fixture();
    let b = f.pool.add(Term::Sort("Bool".to_string()));
    let fy = app(&mut f.pool, "f", f.u, vec![f.y]);
    let mut s = Substitution::empty();
    s.insert(&f.pool, f.x, fy).unwrap();
    let pxy = app(&mut f.pool, "p", b, vec![f.x, f.y]);
    let q = f.pool.add(Term::Binder(Quantifier::Forall, vec![f.y], pxy));
    let r = s.apply(&mut f.pool, q);
    let Term::Binder(_, vars, _) = f.pool.get(r).clone() else {
        panic!("a binder was expected");
    };
    let Term::Var(name, sort) = f.pool.get(vars[0]).clone() else {
        panic!("a variable was expected");
    };
    assert_eq!(name, "y'");
    assert_eq!(sort, f.u);
}

#[test]
fn catch_up_keeps_a_cumulative_installed_by_another_worker() {
    let mut f = fixture();
    let (mut first, mut registry) = ContextStack::from_usage(&vec![2]);
    let mut second = first.from_previous();
    first.push(&mut registry, &mut f.pool, &vec![assign("x", f.a)], &vec![], 0).unwrap();
    second.push(&mut registry, &mut f.pool, &vec![assign("x", f.a)], &vec![], 0).unwrap();
    first.catch_up_cumulative(&mut registry, &mut f.pool, 0);
    let installed = registry.context(0).unwrap().cumulative_substitution.as_ref().unwrap().entries().clone();
    let size = f.pool.len();
    second.catch_up_cumulative(&mut registry, &mut f.pool, 0);
    assert_eq!(f.pool.len(), size);
    let after = registry.context(0).unwrap().cumulative_substitution.as_ref().unwrap().entries().clone();
    assert_eq!(installed, after);
    assert_eq!(second.apply(&mut registry, &mut f.pool, f.x), f.a);
}
