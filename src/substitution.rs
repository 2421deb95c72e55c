//! Substitutions: finite maps from variables to terms, applied without capturing variables.

use vstd::prelude::*;
use crate::term::{
    in_pool, is_var, lemma_occurs_free_below, lemma_occurs_free_extends, lemma_sort_of_extends,
    node_wf, occurs_free, sort_of, extends, pool_wf, copy_node, copy_refs, same_node, Term,
    TermPool, TermRef, TermView,
};
use vstd::string::StringExecFns;

verus! {

/// Why a mapping was refused by [`Substitution::insert`].
#[derive(Clone, Copy, Debug, PartialEq, Eq, Structural)]
pub enum SubstitutionError {
    /// The key is not a variable.
    NotAVariable(TermRef),
    /// The value's sort is not the key's sort.
    SortMismatch { expected: TermRef, got: TermRef },
}

/// The map that a list of pairs denotes when it is read from the start: a later pair for a
/// key replaces an earlier one.
pub open spec fn pairs_map(s: Seq<(TermRef, TermRef)>) -> Map<TermRef, TermRef>
    decreases s.len(),
{
    if s.len() == 0 {
        Map::empty()
    } else {
        pairs_map(s.drop_last()).insert(s.last().0, s.last().1)
    }
}

pub open spec fn keys_unique(s: Seq<(TermRef, TermRef)>) -> bool {
    forall|i: int, j: int| 0 <= i < s.len() && 0 <= j < s.len() && i != j ==> s[i].0 != s[j].0
}

/// `s` applied to a variable `t`: its image if `t` is a key, else `t` itself.
pub open spec fn lookup_or(s: Map<TermRef, TermRef>, t: TermRef) -> TermRef {
    if s.contains_key(t) {
        s[t]
    } else {
        t
    }
}

/// Every key and every value of `s` is a node of `p`.
pub open spec fn map_in_pool(p: Seq<TermView>, s: Map<TermRef, TermRef>) -> bool {
    forall|k: TermRef| #[trigger] s.contains_key(k) ==> in_pool(p, k) && in_pool(p, s[k])
}

/// `s` is a valid substitution over `p`: keys are variables, and each value has its key's sort.
pub open spec fn subst_valid(p: Seq<TermView>, s: Map<TermRef, TermRef>) -> bool {
    forall|k: TermRef| #[trigger]
        s.contains_key(k) ==> is_var(p, k) && in_pool(p, s[k]) && sort_of(p, s[k]) == sort_of(p, k)
}

/// No value of `s` mentions `v` free: binding `v` over the image of `s` captures nothing.
pub open spec fn capture_free(p: Seq<TermView>, s: Map<TermRef, TermRef>, v: TermRef) -> bool {
    forall|k: TermRef| #[trigger] s.contains_key(k) ==> !occurs_free(p, v, s[k])
}

/// The renamings of binder variables `vars[i] ↦ vars2[i]`, for `i < n`, where the two differ.
pub open spec fn renamings(vars: Seq<TermRef>, vars2: Seq<TermRef>, n: int) -> Map<TermRef, TermRef>
    decreases n,
{
    if n <= 0 {
        Map::empty()
    } else if vars2[n - 1] != vars[n - 1] {
        renamings(vars, vars2, n - 1).insert(vars[n - 1], vars2[n - 1])
    } else {
        renamings(vars, vars2, n - 1)
    }
}

/// How a binder variable `v` over `body` becomes `v2` under the substitution `s_in` (the
/// substitution with the binder's variables removed): `v` is renamed exactly when a value of
/// `s_in` mentions it; the variable that stands in the result is captured by no value of
/// `s_in`, has the sort of `v`, and a new name never clashes with a free variable of `body`.
pub open spec fn binder_renamed(
    p: Seq<TermView>,
    s_in: Map<TermRef, TermRef>,
    body: TermRef,
    v: TermRef,
    v2: TermRef,
) -> bool {
    &&& (v2 == v <==> capture_free(p, s_in, v))
    &&& capture_free(p, s_in, v2)
    &&& is_var(p, v2)
    &&& sort_of(p, v2) == sort_of(p, v)
    &&& v2 != v ==> !occurs_free(p, v2, body)
}

/// `k` primes.
pub open spec fn primes(k: nat) -> Seq<char>
    decreases k,
{
    if k == 0 {
        Seq::empty()
    } else {
        primes((k - 1) as nat).push('\'')
    }
}

/// The `k`-th candidate to rename the variable node `vv`: its name followed by `k` primes, with
/// its sort.
pub open spec fn candidate(vv: TermView, k: nat) -> TermView {
    TermView::Var(vv->Var_0 + primes(k), vv->Var_1)
}

/// The variable `c` may rename a binder variable of `vars` over `body`, the earlier binder
/// variables having become `prefix`: it is none of them, and where it is a node of `p`, no value
/// of `s_in` mentions it and it is not free in `body`.
pub open spec fn view_ok(
    p: Seq<TermView>,
    s_in: Map<TermRef, TermRef>,
    body: TermRef,
    vars: Seq<TermRef>,
    prefix: Seq<TermRef>,
    c: TermView,
) -> bool {
    &&& forall|j: int| 0 <= j < vars.len() ==> p[(#[trigger] vars[j]).0 as int] != c
    &&& forall|j: int| 0 <= j < prefix.len() ==> p[(#[trigger] prefix[j]).0 as int] != c
    &&& forall|x: usize|
        x < p.len() && #[trigger] p[x as int] == c ==> capture_free(p, s_in, TermRef(x))
            && !occurs_free(p, TermRef(x), body)
}

/// The renamed binder variable `vars2[i]` is the first candidate, one prime or more, that may
/// rename `vars[i]`.
pub open spec fn chosen_renaming(
    p: Seq<TermView>,
    s_in: Map<TermRef, TermRef>,
    body: TermRef,
    vars: Seq<TermRef>,
    vars2: Seq<TermRef>,
    i: int,
) -> bool {
    exists|k: nat|
        #![trigger candidate(p[vars[i].0 as int], k)]
        k >= 1 && view_ok(p, s_in, body, vars, vars2.subrange(0, i), candidate(p[vars[i].0 as int], k))
            && (forall|j: nat|
            1 <= j < k ==> !view_ok(
                p,
                s_in,
                body,
                vars,
                vars2.subrange(0, i),
                #[trigger] candidate(p[vars[i].0 as int], j),
            )) && p[vars2[i].0 as int] == candidate(p[vars[i].0 as int], k)
}

/// `r` is the result of applying `s` to `t`, in pool `p`: free occurrences of keys are
/// replaced by their images; bound variables are not replaced, and are renamed where a value
/// would be captured.
pub open spec fn applied(p: Seq<TermView>, s: Map<TermRef, TermRef>, t: TermRef, r: TermRef) -> bool
    decreases t.0,
{
    &&& in_pool(p, t)
    &&& in_pool(p, r)
    &&& match p[t.0 as int] {
        TermView::Sort(_) => r == t,
        TermView::Var(_, _) => r == lookup_or(s, t),
        TermView::App(f, srt, args) => {
            &&& p[r.0 as int] is App
            &&& p[r.0 as int]->App_0 == f
            &&& p[r.0 as int]->App_1 == srt
            &&& p[r.0 as int]->App_2.len() == args.len()
            &&& forall|k: int|
                0 <= k < args.len() ==> (#[trigger] args[k]).0 < t.0 && applied(
                    p,
                    s,
                    args[k],
                    p[r.0 as int]->App_2[k],
                )
        },
        TermView::Binder(q, vars, body) => {
            let s_in = s.remove_keys(vars.to_set());
            let vars2 = p[r.0 as int]->Binder_1;
            &&& p[r.0 as int] is Binder
            &&& p[r.0 as int]->Binder_0 == q
            &&& vars2.len() == vars.len()
            &&& forall|i: int|
                0 <= i < vars.len() ==> binder_renamed(p, s_in, body, vars[i], #[trigger] vars2[i])
            &&& forall|i: int|
                0 <= i < vars.len() && #[trigger] vars2[i] != vars[i] ==> chosen_renaming(
                    p,
                    s_in,
                    body,
                    vars,
                    vars2,
                    i,
                )
            &&& body.0 < t.0
            &&& applied(
                p,
                s_in.union_prefer_right(renamings(vars, vars2, vars.len() as int)),
                body,
                p[r.0 as int]->Binder_2,
            )
        },
    }
}

pub proof fn lemma_map_in_pool_extends(p: Seq<TermView>, q: Seq<TermView>, s: Map<TermRef, TermRef>)
    requires
        extends(p, q),
        map_in_pool(p, s),
    ensures
        map_in_pool(q, s),
{
}

pub proof fn lemma_capture_free_extends(
    p: Seq<TermView>,
    q: Seq<TermView>,
    s: Map<TermRef, TermRef>,
    v: TermRef,
)
    requires
        pool_wf(p),
        extends(p, q),
        map_in_pool(p, s),
    ensures
        capture_free(q, s, v) == capture_free(p, s, v),
{
    assert forall|k: TermRef| #[trigger] s.contains_key(k) implies occurs_free(q, v, s[k])
        == occurs_free(p, v, s[k]) by {
        lemma_occurs_free_extends(p, q, v, s[k]);
    }
}

/// A variable that is a later node than every value of `s` is captured by none of them.
pub proof fn lemma_capture_free_new(p: Seq<TermView>, s: Map<TermRef, TermRef>, v: TermRef, n: int)
    requires
        pool_wf(p),
        forall|k: TermRef| #[trigger] s.contains_key(k) ==> s[k].0 < n,
        v.0 >= n,
    ensures
        capture_free(p, s, v),
{
    assert forall|k: TermRef| #[trigger] s.contains_key(k) implies !occurs_free(p, v, s[k]) by {
        if occurs_free(p, v, s[k]) {
            lemma_occurs_free_below(p, v, s[k]);
        }
    }
}

pub proof fn lemma_binder_renamed_extends(
    p: Seq<TermView>,
    q: Seq<TermView>,
    s_in: Map<TermRef, TermRef>,
    body: TermRef,
    v: TermRef,
    v2: TermRef,
)
    requires
        pool_wf(p),
        extends(p, q),
        map_in_pool(p, s_in),
        in_pool(p, body),
        in_pool(p, v),
        in_pool(p, v2),
    ensures
        binder_renamed(q, s_in, body, v, v2) == binder_renamed(p, s_in, body, v, v2),
{
    lemma_capture_free_extends(p, q, s_in, v);
    lemma_capture_free_extends(p, q, s_in, v2);
    lemma_sort_of_extends(p, q, v);
    lemma_sort_of_extends(p, q, v2);
    lemma_occurs_free_extends(p, q, v2, body);
}

pub proof fn lemma_view_ok_extends(
    p: Seq<TermView>,
    q: Seq<TermView>,
    s_in: Map<TermRef, TermRef>,
    body: TermRef,
    vars: Seq<TermRef>,
    prefix: Seq<TermRef>,
    c: TermView,
)
    requires
        pool_wf(p),
        pool_wf(q),
        extends(p, q),
        map_in_pool(p, s_in),
        in_pool(p, body),
        forall|j: int| 0 <= j < vars.len() ==> in_pool(p, #[trigger] vars[j]),
        forall|j: int| 0 <= j < prefix.len() ==> in_pool(p, #[trigger] prefix[j]),
    ensures
        view_ok(q, s_in, body, vars, prefix, c) == view_ok(p, s_in, body, vars, prefix, c),
{
    assert forall|j: int| 0 <= j < vars.len() implies q[(#[trigger] vars[j]).0 as int] == p[vars[j].0 as int] by {
        assert(in_pool(p, vars[j]));
    }
    assert forall|j: int| 0 <= j < prefix.len() implies q[(#[trigger] prefix[j]).0 as int] == p[prefix[j].0 as int] by {
        assert(in_pool(p, prefix[j]));
    }
    assert forall|x: usize| x < q.len() && p.len() <= x && #[trigger] q[x as int] == c implies capture_free(q, s_in, TermRef(x))
        && !occurs_free(q, TermRef(x), body) by {
        lemma_capture_free_new(q, s_in, TermRef(x), p.len() as int);
        if occurs_free(q, TermRef(x), body) {
            lemma_occurs_free_below(q, TermRef(x), body);
        }
    }
    assert forall|x: usize| x < p.len() && #[trigger] q[x as int] == c implies capture_free(q, s_in, TermRef(x))
        == capture_free(p, s_in, TermRef(x)) && occurs_free(q, TermRef(x), body)
        == occurs_free(p, TermRef(x), body) && q[x as int] == p[x as int] by {
        lemma_capture_free_extends(p, q, s_in, TermRef(x));
        lemma_occurs_free_extends(p, q, TermRef(x), body);
    }
    assert forall|x: usize| x < p.len() && #[trigger] p[x as int] == c implies q[x as int] == c by {
    }
}

pub proof fn lemma_chosen_renaming_extends(
    p: Seq<TermView>,
    q: Seq<TermView>,
    s_in: Map<TermRef, TermRef>,
    body: TermRef,
    vars: Seq<TermRef>,
    vars2: Seq<TermRef>,
    i: int,
)
    requires
        pool_wf(p),
        pool_wf(q),
        extends(p, q),
        map_in_pool(p, s_in),
        in_pool(p, body),
        0 <= i < vars.len(),
        i < vars2.len(),
        forall|j: int| 0 <= j < vars.len() ==> in_pool(p, #[trigger] vars[j]),
        forall|j: int| 0 <= j <= i ==> in_pool(p, #[trigger] vars2[j]),
        chosen_renaming(p, s_in, body, vars, vars2, i),
    ensures
        chosen_renaming(q, s_in, body, vars, vars2, i),
{
    let prefix = vars2.subrange(0, i);
    assert forall|j: int| 0 <= j < prefix.len() implies in_pool(p, #[trigger] prefix[j]) by {
        assert(prefix[j] == vars2[j]);
    }
    assert(in_pool(p, vars[i]));
    assert(in_pool(p, vars2[i]));
    let vv = p[vars[i].0 as int];
    assert(q[vars[i].0 as int] == vv);
    let k = choose|k: nat|
        #![trigger candidate(p[vars[i].0 as int], k)]
        k >= 1 && view_ok(p, s_in, body, vars, prefix, candidate(vv, k)) && (forall|j: nat|
            1 <= j < k ==> !view_ok(p, s_in, body, vars, prefix, #[trigger] candidate(vv, j)))
            && p[vars2[i].0 as int] == candidate(vv, k);
    lemma_view_ok_extends(p, q, s_in, body, vars, prefix, candidate(vv, k));
    assert forall|j: nat| 1 <= j < k implies !view_ok(q, s_in, body, vars, prefix, #[trigger] candidate(vv, j)) by {
        lemma_view_ok_extends(p, q, s_in, body, vars, prefix, candidate(vv, j));
    }
    assert(q[vars2[i].0 as int] == candidate(vv, k));
}

/// `renamings` reads only the first `n` entries of `vars2`.
pub proof fn lemma_renamings_prefix(vars: Seq<TermRef>, a: Seq<TermRef>, b: Seq<TermRef>, n: int)
    requires
        0 <= n <= a.len(),
        n <= b.len(),
        forall|i: int| 0 <= i < n ==> a[i] == b[i],
    ensures
        renamings(vars, a, n) == renamings(vars, b, n),
    decreases n,
{
    if n > 0 {
        lemma_renamings_prefix(vars, a, b, n - 1);
    }
}

pub proof fn lemma_renamings_in_pool(p: Seq<TermView>, vars: Seq<TermRef>, vars2: Seq<TermRef>, n: int)
    requires
        0 <= n <= vars.len(),
        n <= vars2.len(),
        forall|i: int| 0 <= i < n ==> in_pool(p, #[trigger] vars[i]) && in_pool(p, vars2[i]),
    ensures
        map_in_pool(p, renamings(vars, vars2, n)),
        forall|k: TermRef| #[trigger] renamings(vars, vars2, n).contains_key(k) ==> exists|i: int|
            0 <= i < n && vars[i] == k && renamings(vars, vars2, n)[k] == vars2[i],
    decreases n,
{
    if n > 0 {
        lemma_renamings_in_pool(p, vars, vars2, n - 1);
    }
}

/// Moving to a larger pool keeps what `applied` says of older nodes.
pub proof fn lemma_applied_extends(
    p: Seq<TermView>,
    q: Seq<TermView>,
    s: Map<TermRef, TermRef>,
    t: TermRef,
    r: TermRef,
)
    requires
        pool_wf(p),
        pool_wf(q),
        extends(p, q),
        map_in_pool(p, s),
        applied(p, s, t, r),
    ensures
        applied(q, s, t, r),
    decreases t.0,
{
    assert(node_wf(p, t.0 as int, p[t.0 as int]));
    assert(node_wf(p, r.0 as int, p[r.0 as int]));
    assert(q[t.0 as int] == p[t.0 as int]);
    assert(q[r.0 as int] == p[r.0 as int]);
    match p[t.0 as int] {
        TermView::App(f, srt, args) => {
            let args2 = p[r.0 as int]->App_2;
            assert forall|k: int| 0 <= k < args.len() implies (#[trigger] args[k]).0 < t.0
                && applied(q, s, args[k], q[r.0 as int]->App_2[k]) by {
                assert(args2[k].0 < r.0);
                lemma_applied_extends(p, q, s, args[k], args2[k]);
            }
        },
        TermView::Binder(qu, vars, body) => {
            let s_in = s.remove_keys(vars.to_set());
            let vars2 = p[r.0 as int]->Binder_1;
            let inner = s_in.union_prefer_right(renamings(vars, vars2, vars.len() as int));
            assert(map_in_pool(p, s_in));
            assert forall|i: int| 0 <= i < vars.len() implies binder_renamed(
                q,
                s_in,
                body,
                vars[i],
                #[trigger] vars2[i],
            ) by {
                assert(vars[i].0 < t.0);
                assert(vars2[i].0 < r.0);
                lemma_binder_renamed_extends(p, q, s_in, body, vars[i], vars2[i]);
            }
            assert forall|i: int| 0 <= i < vars.len() implies in_pool(p, #[trigger] vars[i])
                && in_pool(p, vars2[i]) by {
                assert(vars[i].0 < t.0);
                assert(vars2[i].0 < r.0);
            }
            assert forall|i: int| 0 <= i < vars.len() && #[trigger] vars2[i] != vars[i] implies chosen_renaming(
                q,
                s_in,
                body,
                vars,
                vars2,
                i,
            ) by {
                assert forall|j: int| 0 <= j < vars.len() implies in_pool(p, #[trigger] vars[j]) by {
                    assert(vars[j].0 < t.0);
                }
                assert forall|j: int| 0 <= j <= i implies in_pool(p, #[trigger] vars2[j]) by {
                    assert(vars2[j].0 < r.0);
                }
                lemma_chosen_renaming_extends(p, q, s_in, body, vars, vars2, i);
            }
            lemma_renamings_in_pool(p, vars, vars2, vars.len() as int);
            assert(map_in_pool(p, inner));
            lemma_applied_extends(p, q, inner, body, p[r.0 as int]->Binder_2);
        },
        _ => {},
    }
}

pub proof fn lemma_renamings_none(vars: Seq<TermRef>, n: int)
    requires
        n <= vars.len(),
    ensures
        renamings(vars, vars, n) == Map::<TermRef, TermRef>::empty(),
    decreases n,
{
    if n > 0 {
        lemma_renamings_none(vars, n - 1);
    }
}

/// Applying the empty substitution gives back the very same handle.
pub proof fn lemma_applied_empty(p: Seq<TermView>, t: TermRef, r: TermRef)
    requires
        pool_wf(p),
        applied(p, Map::empty(), t, r),
    ensures
        r == t,
    decreases t.0,
{
    let e = Map::<TermRef, TermRef>::empty();
    assert(node_wf(p, t.0 as int, p[t.0 as int]));
    assert(node_wf(p, r.0 as int, p[r.0 as int]));
    match p[t.0 as int] {
        TermView::App(f, srt, args) => {
            let args2 = p[r.0 as int]->App_2;
            assert forall|k: int| 0 <= k < args.len() implies args2[k] == args[k] by {
                assert(args[k].0 < t.0);
                lemma_applied_empty(p, args[k], args2[k]);
            }
            assert(args2 =~= args);
            assert(p[r.0 as int] == p[t.0 as int]);
            lemma_same_node(p, r, t);
        },
        TermView::Binder(q, vars, body) => {
            let vars2 = p[r.0 as int]->Binder_1;
            let s_in = e.remove_keys(vars.to_set());
            assert(s_in =~= e);
            assert forall|i: int| 0 <= i < vars.len() implies vars2[i] == vars[i] by {
                assert(binder_renamed(p, s_in, body, vars[i], vars2[i]));
                assert(capture_free(p, s_in, vars[i]));
            }
            assert(vars2 =~= vars);
            lemma_renamings_none(vars, vars.len() as int);
            assert(s_in.union_prefer_right(renamings(vars, vars2, vars.len() as int)) =~= e);
            lemma_applied_empty(p, body, p[r.0 as int]->Binder_2);
            assert(p[r.0 as int] == p[t.0 as int]);
            lemma_same_node(p, r, t);
        },
        _ => {},
    }
}

proof fn lemma_renamed_vars_agree(
    p: Seq<TermView>,
    q: Seq<TermView>,
    s_in: Map<TermRef, TermRef>,
    body: TermRef,
    vars: Seq<TermRef>,
    vars1: Seq<TermRef>,
    vars2: Seq<TermRef>,
    n: int,
)
    requires
        pool_wf(p),
        pool_wf(q),
        extends(p, q),
        map_in_pool(p, s_in),
        in_pool(p, body),
        0 <= n <= vars.len(),
        vars1.len() == vars.len(),
        vars2.len() == vars.len(),
        forall|j: int| 0 <= j < vars.len() ==> in_pool(p, #[trigger] vars[j]),
        forall|j: int| 0 <= j < vars.len() ==> in_pool(p, #[trigger] vars1[j]),
        forall|j: int| 0 <= j < vars.len() ==> binder_renamed(p, s_in, body, vars[j], #[trigger] vars1[j]),
        forall|j: int| 0 <= j < vars.len() ==> binder_renamed(q, s_in, body, vars[j], #[trigger] vars2[j]),
        forall|j: int|
            0 <= j < vars.len() && #[trigger] vars1[j] != vars[j] ==> chosen_renaming(p, s_in, body, vars, vars1, j),
        forall|j: int|
            0 <= j < vars.len() && #[trigger] vars2[j] != vars[j] ==> chosen_renaming(q, s_in, body, vars, vars2, j),
    ensures
        forall|j: int| 0 <= j < n ==> vars1[j] == vars2[j],
    decreases n,
{
    if n > 0 {
        let i = n - 1;
        lemma_renamed_vars_agree(p, q, s_in, body, vars, vars1, vars2, i);
        assert(binder_renamed(p, s_in, body, vars[i], vars1[i]));
        assert(binder_renamed(q, s_in, body, vars[i], vars2[i]));
        lemma_capture_free_extends(p, q, s_in, vars[i]);
        if vars1[i] != vars[i] {
            assert(vars2[i] != vars[i]);
            assert forall|j: int| 0 <= j <= i implies in_pool(p, #[trigger] vars1[j]) by {}
            assert(chosen_renaming(p, s_in, body, vars, vars1, i));
            lemma_chosen_renaming_extends(p, q, s_in, body, vars, vars1, i);
            let prefix = vars1.subrange(0, i);
            assert(prefix =~= vars2.subrange(0, i));
            let vv = q[vars[i].0 as int];
            assert(p[vars[i].0 as int] == vv);
            let k1 = choose|k: nat|
                #![trigger candidate(q[vars[i].0 as int], k)]
                k >= 1 && view_ok(q, s_in, body, vars, prefix, candidate(vv, k)) && (forall|j: nat|
                    1 <= j < k ==> !view_ok(q, s_in, body, vars, prefix, #[trigger] candidate(vv, j)))
                    && q[vars1[i].0 as int] == candidate(vv, k);
            let k2 = choose|k: nat|
                #![trigger candidate(q[vars[i].0 as int], k)]
                k >= 1 && view_ok(q, s_in, body, vars, vars2.subrange(0, i), candidate(vv, k)) && (forall|j: nat|
                    1 <= j < k ==> !view_ok(q, s_in, body, vars, vars2.subrange(0, i), #[trigger] candidate(vv, j)))
                    && q[vars2[i].0 as int] == candidate(vv, k);
            if k1 < k2 {
                assert(!view_ok(q, s_in, body, vars, prefix, candidate(vv, k1)));
            } else if k2 < k1 {
                assert(!view_ok(q, s_in, body, vars, prefix, candidate(vv, k2)));
            }
            assert(q[vars1[i].0 as int] == q[vars2[i].0 as int]);
            lemma_same_node(q, vars1[i], vars2[i]);
        }
    }
}

/// Applying a substitution is a function of the substitution and the term: in a pool and in any
/// larger one, applying `s` to `t` gives the same handle.
pub proof fn law_apply_deterministic(
    p: Seq<TermView>,
    q: Seq<TermView>,
    s: Map<TermRef, TermRef>,
    t: TermRef,
    r1: TermRef,
    r2: TermRef,
)
    requires
        pool_wf(p),
        pool_wf(q),
        extends(p, q),
        map_in_pool(p, s),
        applied(p, s, t, r1),
        applied(q, s, t, r2),
    ensures
        r1 == r2,
    decreases t.0,
{
    assert(node_wf(p, t.0 as int, p[t.0 as int]));
    assert(node_wf(p, r1.0 as int, p[r1.0 as int]));
    assert(q[t.0 as int] == p[t.0 as int]);
    assert(q[r1.0 as int] == p[r1.0 as int]);
    match p[t.0 as int] {
        TermView::App(f, srt, args) => {
            let a1 = p[r1.0 as int]->App_2;
            let a2 = q[r2.0 as int]->App_2;
            assert forall|k: int| 0 <= k < args.len() implies a1[k] == a2[k] by {
                assert(args[k].0 < t.0);
                assert(a1[k].0 < r1.0);
                law_apply_deterministic(p, q, s, args[k], a1[k], a2[k]);
            }
            assert(a1 =~= a2);
            lemma_same_node(q, r1, r2);
        },
        TermView::Binder(qu, vars, body) => {
            let s_in = s.remove_keys(vars.to_set());
            let vars1 = p[r1.0 as int]->Binder_1;
            let vars2 = q[r2.0 as int]->Binder_1;
            assert(map_in_pool(p, s_in));
            assert forall|j: int| 0 <= j < vars.len() implies in_pool(p, #[trigger] vars[j]) by {
                assert(vars[j].0 < t.0);
            }
            assert forall|j: int| 0 <= j < vars.len() implies in_pool(p, #[trigger] vars1[j]) by {
                assert(vars1[j].0 < r1.0);
            }
            lemma_renamed_vars_agree(p, q, s_in, body, vars, vars1, vars2, vars.len() as int);
            assert(vars1 =~= vars2);
            let inner = s_in.union_prefer_right(renamings(vars, vars1, vars.len() as int));
            lemma_renamings_in_pool(p, vars, vars1, vars.len() as int);
            assert(map_in_pool(p, inner));
            law_apply_deterministic(p, q, inner, body, p[r1.0 as int]->Binder_2, q[r2.0 as int]->Binder_2);
            lemma_same_node(q, r1, r2);
        },
        _ => {},
    }
}

/// `w` is free in the image of `t` under `s`: some free variable `v` of `t` is mapped by `s`
/// (or left as it is) to a term where `w` is free.
pub open spec fn free_in_image(p: Seq<TermView>, s: Map<TermRef, TermRef>, t: TermRef, w: TermRef) -> bool {
    exists|v: TermRef| #[trigger] occurs_free(p, v, t) && occurs_free(p, w, lookup_or(s, v))
}

pub proof fn lemma_renamings_keys(vars: Seq<TermRef>, vars2: Seq<TermRef>, n: int, k: TermRef)
    requires
        0 <= n <= vars.len(),
        n <= vars2.len(),
    ensures
        renamings(vars, vars2, n).contains_key(k) <==> exists|j: int|
            0 <= j < n && vars[j] == k && #[trigger] vars2[j] != vars[j],
    decreases n,
{
    if n > 0 {
        lemma_renamings_keys(vars, vars2, n - 1, k);
        if exists|j: int| 0 <= j < n && vars[j] == k && #[trigger] vars2[j] != vars[j] {
            let j = choose|j: int| 0 <= j < n && vars[j] == k && #[trigger] vars2[j] != vars[j];
            if j < n - 1 {
                assert(exists|j: int| 0 <= j < n - 1 && vars[j] == k && #[trigger] vars2[j] != vars[j]);
            }
        }
    }
}

proof fn lemma_occurs_free_var(p: Seq<TermView>, w: TermRef, v: TermRef)
    requires
        in_pool(p, v),
        p[v.0 as int] is Var,
        occurs_free(p, w, v),
    ensures
        w == v,
{
}

/// A free variable is a variable node.
pub proof fn lemma_free_is_var(p: Seq<TermView>, v: TermRef, t: TermRef)
    requires
        pool_wf(p),
        occurs_free(p, v, t),
    ensures
        in_pool(p, v),
        p[v.0 as int] is Var,
    decreases t.0,
{
    if p[t.0 as int] is App {
        let args = p[t.0 as int]->App_2;
        assert(exists|k: int| 0 <= k < args.len() && args[k].0 < t.0 && occurs_free(p, v, args[k]));
        let k = choose|k: int| 0 <= k < args.len() && args[k].0 < t.0 && occurs_free(p, v, args[k]);
        lemma_free_is_var(p, v, args[k]);
    } else if p[t.0 as int] is Binder {
        lemma_free_is_var(p, v, p[t.0 as int]->Binder_2);
    }
}

/// Free variables of a result: `w` is free in the result of applying `s` to `t` exactly when
/// it is free in the image under `s` of a free variable of `t`. So renamed binders capture
/// nothing, and no free variable is lost.
pub proof fn law_free_variables(p: Seq<TermView>, s: Map<TermRef, TermRef>, t: TermRef, r: TermRef, w: TermRef)
    requires
        pool_wf(p),
        map_in_pool(p, s),
        applied(p, s, t, r),
    ensures
        occurs_free(p, w, r) <==> free_in_image(p, s, t, w),
    decreases t.0,
{
    assert(node_wf(p, t.0 as int, p[t.0 as int]));
    assert(node_wf(p, r.0 as int, p[r.0 as int]));
    match p[t.0 as int] {
        TermView::Sort(_) => {
            if free_in_image(p, s, t, w) {
                let v = choose|v: TermRef| #[trigger] occurs_free(p, v, t) && occurs_free(p, w, lookup_or(s, v));
            }
        },
        TermView::Var(_, _) => {
            if occurs_free(p, w, r) {
                assert(occurs_free(p, t, t));
            }
            if free_in_image(p, s, t, w) {
                let v = choose|v: TermRef| #[trigger] occurs_free(p, v, t) && occurs_free(p, w, lookup_or(s, v));
                assert(v == t);
            }
        },
        TermView::App(f, srt, args) => {
            let args2 = p[r.0 as int]->App_2;
            assert forall|k: int| 0 <= k < args.len() implies (occurs_free(p, w, #[trigger] args2[k])
                <==> free_in_image(p, s, args[k], w)) by {
                assert(args[k].0 < t.0);
                law_free_variables(p, s, args[k], args2[k], w);
            }
            if occurs_free(p, w, r) {
                let k = choose|k: int| 0 <= k < args2.len() && (#[trigger] args2[k]).0 < r.0 && occurs_free(p, w, args2[k]);
                assert(free_in_image(p, s, args[k], w));
                let v = choose|v: TermRef| #[trigger] occurs_free(p, v, args[k]) && occurs_free(p, w, lookup_or(s, v));
                assert(args[k].0 < t.0);
                assert(occurs_free(p, v, t));
            }
            if free_in_image(p, s, t, w) {
                let v = choose|v: TermRef| #[trigger] occurs_free(p, v, t) && occurs_free(p, w, lookup_or(s, v));
                let k = choose|k: int| 0 <= k < args.len() && (#[trigger] args[k]).0 < t.0 && occurs_free(p, v, args[k]);
                assert(free_in_image(p, s, args[k], w));
                assert(occurs_free(p, w, args2[k]));
                assert(args2[k].0 < r.0);
            }
        },
        TermView::Binder(qu, vars, body) => {
            let s_in = s.remove_keys(vars.to_set());
            let vars2 = p[r.0 as int]->Binder_1;
            let body2 = p[r.0 as int]->Binder_2;
            let ren = renamings(vars, vars2, vars.len() as int);
            let inner = s_in.union_prefer_right(ren);
            assert forall|i: int| 0 <= i < vars.len() implies in_pool(p, #[trigger] vars[i])
                && in_pool(p, vars2[i]) by {
                assert(vars[i].0 < t.0);
                assert(vars2[i].0 < r.0);
            }
            lemma_renamings_in_pool(p, vars, vars2, vars.len() as int);
            assert(map_in_pool(p, inner));
            law_free_variables(p, inner, body, body2, w);
            assert(body2.0 < r.0);
            if occurs_free(p, w, r) {
                assert(!vars2.contains(w));
                let v = choose|v: TermRef| #[trigger] occurs_free(p, v, body) && occurs_free(p, w, lookup_or(inner, v));
                if vars.contains(v) {
                    let i = choose|i: int| 0 <= i < vars.len() && vars[i] == v;
                    if ren.contains_key(v) {
                        let j = choose|j: int|
                            0 <= j < vars.len() && vars[j] == v && ren[v] == vars2[j];
                        assert(lookup_or(inner, v) == vars2[j]);
                        assert(binder_renamed(p, s_in, body, vars[j], vars2[j]));
                        assert(w == vars2[j]);
                        assert(vars2.contains(w));
                    } else {
                        lemma_renamings_keys(vars, vars2, vars.len() as int, v);
                        assert(!(vars2[i] != vars[i]));
                        assert(!s_in.contains_key(v));
                        assert(lookup_or(inner, v) == v);
                        assert(binder_renamed(p, s_in, body, vars[i], vars2[i]));
                        assert(p[vars[i].0 as int] is Var);
                        assert(in_pool(p, v));
                        lemma_occurs_free_var(p, w, v);
                        assert(vars2[i] == w);
                        assert(vars2.contains(w));
                    }
                } else {
                    if ren.contains_key(v) {
                        lemma_renamings_keys(vars, vars2, vars.len() as int, v);
                        let j = choose|j: int| 0 <= j < vars.len() && vars[j] == v && #[trigger] vars2[j] != vars[j];
                        assert(vars.contains(v));
                    }
                    assert(lookup_or(inner, v) == lookup_or(s, v));
                    assert(occurs_free(p, v, t));
                }
            }
            if free_in_image(p, s, t, w) {
                let v = choose|v: TermRef| #[trigger] occurs_free(p, v, t) && occurs_free(p, w, lookup_or(s, v));
                assert(!vars.contains(v) && occurs_free(p, v, body));
                if ren.contains_key(v) {
                    lemma_renamings_keys(vars, vars2, vars.len() as int, v);
                    let j = choose|j: int| 0 <= j < vars.len() && vars[j] == v && #[trigger] vars2[j] != vars[j];
                    assert(vars.contains(v));
                }
                assert(lookup_or(inner, v) == lookup_or(s, v));
                assert(occurs_free(p, w, body2));
                if vars2.contains(w) {
                    let i = choose|i: int| 0 <= i < vars2.len() && vars2[i] == w;
                    assert(binder_renamed(p, s_in, body, vars[i], vars2[i]));
                    if s.contains_key(v) {
                        assert(s_in.contains_key(v));
                        assert(!occurs_free(p, vars2[i], s_in[v]));
                    } else {
                        lemma_free_is_var(p, v, t);
                        lemma_occurs_free_var(p, w, v);
                        if vars2[i] == vars[i] {
                            assert(vars.contains(v));
                        }
                    }
                }
            }
        },
    }
}

/// In a pool, equal nodes have equal handles.
pub proof fn lemma_same_node(p: Seq<TermView>, a: TermRef, b: TermRef)
    requires
        pool_wf(p),
        in_pool(p, a),
        in_pool(p, b),
        p[a.0 as int] == p[b.0 as int],
    ensures
        a == b,
{
    if a.0 < b.0 {
        assert(p[a.0 as int] != p[b.0 as int]);
    } else if b.0 < a.0 {
        assert(p[b.0 as int] != p[a.0 as int]);
    }
}

/// Applying a valid substitution keeps the sort of a term.
pub proof fn lemma_applied_sort(p: Seq<TermView>, s: Map<TermRef, TermRef>, t: TermRef, r: TermRef)
    requires
        pool_wf(p),
        subst_valid(p, s),
        applied(p, s, t, r),
    ensures
        sort_of(p, r) == sort_of(p, t),
    decreases t.0,
{
    assert(node_wf(p, t.0 as int, p[t.0 as int]));
    assert(node_wf(p, r.0 as int, p[r.0 as int]));
    if let TermView::Binder(qu, vars, body) = p[t.0 as int] {
        let s_in = s.remove_keys(vars.to_set());
        let vars2 = p[r.0 as int]->Binder_1;
        let ren = renamings(vars, vars2, vars.len() as int);
        let inner = s_in.union_prefer_right(ren);
        assert forall|i: int| 0 <= i < vars.len() implies in_pool(p, #[trigger] vars[i])
            && in_pool(p, vars2[i]) by {
            assert(vars[i].0 < t.0);
            assert(vars2[i].0 < r.0);
        }
        lemma_renamings_in_pool(p, vars, vars2, vars.len() as int);
        assert forall|k: TermRef| #[trigger] inner.contains_key(k) implies is_var(p, k) && in_pool(
            p,
            inner[k],
        ) && sort_of(p, inner[k]) == sort_of(p, k) by {
            if ren.contains_key(k) {
                let i = choose|i: int| 0 <= i < vars.len() && vars[i] == k && ren[k] == vars2[i];
                assert(vars[i].0 < t.0);
                assert(binder_renamed(p, s_in, body, vars[i], vars2[i]));
            }
        }
        lemma_applied_sort(p, inner, body, p[r.0 as int]->Binder_2);
    }
}

pub proof fn lemma_pairs_map_keys(s: Seq<(TermRef, TermRef)>, k: TermRef)
    ensures
        pairs_map(s).contains_key(k) <==> exists|i: int| 0 <= i < s.len() && (#[trigger] s[i]).0 == k,
    decreases s.len(),
{
    if s.len() > 0 {
        lemma_pairs_map_keys(s.drop_last(), k);
        if pairs_map(s.drop_last()).contains_key(k) {
            let i = choose|i: int| 0 <= i < s.drop_last().len() && (#[trigger] s.drop_last()[i]).0 == k;
            assert(s[i].0 == k);
        }
        if exists|i: int| 0 <= i < s.len() && (#[trigger] s[i]).0 == k {
            let i = choose|i: int| 0 <= i < s.len() && (#[trigger] s[i]).0 == k;
            if i < s.len() - 1 {
                assert(s.drop_last()[i].0 == k);
            }
        }
    }
}

pub proof fn lemma_pairs_map_at(s: Seq<(TermRef, TermRef)>, i: int)
    requires
        keys_unique(s),
        0 <= i < s.len(),
    ensures
        pairs_map(s).contains_key(s[i].0),
        pairs_map(s)[s[i].0] == s[i].1,
    decreases s.len(),
{
    if i < s.len() - 1 {
        assert(keys_unique(s.drop_last()));
        assert(s.drop_last()[i] == s[i]);
        lemma_pairs_map_at(s.drop_last(), i);
    }
}

pub proof fn lemma_pairs_map_update(s: Seq<(TermRef, TermRef)>, i: int, v: TermRef)
    requires
        keys_unique(s),
        0 <= i < s.len(),
    ensures
        pairs_map(s.update(i, (s[i].0, v))) == pairs_map(s).insert(s[i].0, v),
    decreases s.len(),
{
    let t = s.update(i, (s[i].0, v));
    if i == s.len() - 1 {
        assert(t.drop_last() =~= s.drop_last());
        assert(!pairs_map(s.drop_last()).contains_key(s[i].0)) by {
            lemma_pairs_map_keys(s.drop_last(), s[i].0);
        }
        assert(pairs_map(t) =~= pairs_map(s).insert(s[i].0, v));
    } else {
        assert(keys_unique(s.drop_last()));
        lemma_pairs_map_update(s.drop_last(), i, v);
        assert(t.drop_last() =~= s.drop_last().update(i, (s[i].0, v)));
        assert(pairs_map(t) =~= pairs_map(s).insert(s[i].0, v));
    }
}

/// A finite map from variables to terms.
pub struct Substitution {
    map: Vec<(TermRef, TermRef)>,
}

impl View for Substitution {
    type V = Map<TermRef, TermRef>;

    closed spec fn view(&self) -> Map<TermRef, TermRef> {
        pairs_map(self.map@)
    }
}

impl Substitution {
    /// Keys are stored once each.
    pub closed spec fn wf(&self) -> bool {
        keys_unique(self.map@)
    }

    /// The substitution with no mappings.
    pub fn empty() -> (r: Substitution)
        ensures
            r@ == Map::<TermRef, TermRef>::empty(),
            r.wf(),
    {
        Substitution { map: Vec::new() }
    }

    /// A copy of this substitution.
    pub fn duplicate(&self) -> (r: Substitution)
        requires
            self.wf(),
        ensures
            r.wf(),
            r@ == self@,
    {
        let mut map: Vec<(TermRef, TermRef)> = Vec::new();
        let mut i: usize = 0;
        while i < self.map.len()
            invariant
                0 <= i <= self.map@.len(),
                map@ == self.map@.subrange(0, i as int),
            decreases self.map@.len() - i,
        {
            map.push(self.map[i]);
            i = i + 1;
            assert(map@ =~= self.map@.subrange(0, i as int));
        }
        assert(map@ =~= self.map@);
        Substitution { map }
    }

    /// The mappings as a list of pairs with distinct keys.
    pub fn entries(&self) -> (r: &Vec<(TermRef, TermRef)>)
        requires
            self.wf(),
        ensures
            pairs_map(r@) == self@,
            keys_unique(r@),
    {
        &self.map
    }

    /// Number of mappings.
    pub fn len(&self) -> (r: usize)
        requires
            self.wf(),
        ensures
            r == self@.len(),
    {
        proof {
            lemma_unique_pairs_len(self.map@);
        }
        self.map.len()
    }

    /// The image of `k`, if `k` is a key.
    pub fn get(&self, k: TermRef) -> (r: Option<TermRef>)
        requires
            self.wf(),
        ensures
            r == (if self@.contains_key(k) {
                Some(self@[k])
            } else {
                None
            }),
    {
        let mut i: usize = 0;
        while i < self.map.len()
            invariant
                keys_unique(self.map@),
                0 <= i <= self.map@.len(),
                forall|j: int| 0 <= j < i ==> (#[trigger] self.map@[j]).0 != k,
            decreases self.map@.len() - i,
        {
            if self.map[i].0 == k {
                proof {
                    lemma_pairs_map_at(self.map@, i as int);
                }
                return Some(self.map[i].1);
            }
            i = i + 1;
        }
        proof {
            lemma_pairs_map_keys(self.map@, k);
        }
        None
    }

    /// Maps `k` to `v`, replacing an earlier image of `k`; no check is made.
    pub(crate) fn set(&mut self, k: TermRef, v: TermRef)
        requires
            old(self).wf(),
        ensures
            final(self).wf(),
            final(self)@ == old(self)@.insert(k, v),
    {
        let mut i: usize = 0;
        while i < self.map.len()
            invariant
                keys_unique(self.map@),
                self.map@ == old(self).map@,
                0 <= i <= self.map@.len(),
                forall|j: int| 0 <= j < i ==> (#[trigger] self.map@[j]).0 != k,
            decreases self.map@.len() - i,
        {
            if self.map[i].0 == k {
                proof {
                    lemma_pairs_map_update(self.map@, i as int, v);
                }
                self.map.set(i, (k, v));
                assert(keys_unique(self.map@));
                return;
            }
            i = i + 1;
        }
        let ghost before = self.map@;
        self.map.push((k, v));
        assert(self.map@.drop_last() =~= before);
        assert(keys_unique(self.map@));
    }

    /// Adds the mapping `var ↦ value`, replacing an earlier image of `var`. Fails, leaving the
    /// substitution as it was, when `var` is not a variable or `value` has another sort.
    pub fn insert(&mut self, pool: &TermPool, var: TermRef, value: TermRef) -> (r: Result<
        (),
        SubstitutionError,
    >)
        requires
            old(self).wf(),
            pool.wf(),
            in_pool(pool@, var),
            in_pool(pool@, value),
        ensures
            final(self).wf(),
            r == (if !is_var(pool@, var) {
                Err(SubstitutionError::NotAVariable(var))
            } else if sort_of(pool@, value) != sort_of(pool@, var) {
                Err(
                    SubstitutionError::SortMismatch {
                        expected: sort_of(pool@, var),
                        got: sort_of(pool@, value),
                    },
                )
            } else {
                Ok(())
            }),
            r is Ok ==> final(self)@ == old(self)@.insert(var, value),
            r is Err ==> final(self)@ == old(self)@,
    {
        match pool.get(var) {
            Term::Var(_, _) => {},
            _ => {
                return Err(SubstitutionError::NotAVariable(var));
            },
        }
        let expected = pool.sort(var);
        let got = pool.sort(value);
        if expected != got {
            return Err(SubstitutionError::SortMismatch { expected, got });
        }
        self.set(var, value);
        Ok(())
    }
}

fn contains_ref(xs: &Vec<TermRef>, k: TermRef) -> (r: bool)
    ensures
        r == xs@.contains(k),
{
    let mut i: usize = 0;
    while i < xs.len()
        invariant
            0 <= i <= xs@.len(),
            forall|j: int| 0 <= j < i ==> xs@[j] != k,
        decreases xs@.len() - i,
    {
        if xs[i] == k {
            assert(xs@[i as int] == k);
            return true;
        }
        i = i + 1;
    }
    false
}

impl Substitution {
    /// This substitution without the keys in `vars`.
    pub fn without(&self, vars: &Vec<TermRef>) -> (r: Substitution)
        requires
            self.wf(),
        ensures
            r.wf(),
            r@ == self@.remove_keys(vars@.to_set()),
    {
        let mut r = Substitution::empty();
        let mut i: usize = 0;
        while i < self.map.len()
            invariant
                r.wf(),
                0 <= i <= self.map@.len(),
                r@ == pairs_map(self.map@.subrange(0, i as int)).remove_keys(vars@.to_set()),
            decreases self.map@.len() - i,
        {
            let (k, v) = self.map[i];
            let ghost before = r@;
            if !contains_ref(vars, k) {
                r.set(k, v);
            }
            assert(self.map@.subrange(0, i + 1 as int).drop_last() =~= self.map@.subrange(0, i as int));
            i = i + 1;
            assert(r@ =~= pairs_map(self.map@.subrange(0, i as int)).remove_keys(vars@.to_set()));
        }
        assert(self.map@.subrange(0, i as int) =~= self.map@);
        r
    }

    /// Whether some value mentions `v` free, so that a binder of `v` over the image of this
    /// substitution would capture it.
    pub fn captures(&self, pool: &TermPool, v: TermRef) -> (r: bool)
        requires
            self.wf(),
            pool.wf(),
            map_in_pool(pool@, self@),
        ensures
            r == !capture_free(pool@, self@, v),
    {
        let mut i: usize = 0;
        while i < self.map.len()
            invariant
                self.wf(),
                pool.wf(),
                map_in_pool(pool@, self@),
                0 <= i <= self.map@.len(),
                forall|j: int| 0 <= j < i ==> !occurs_free(pool@, v, (#[trigger] self.map@[j]).1),
            decreases self.map@.len() - i,
        {
            proof {
                lemma_pairs_map_at(self.map@, i as int);
            }
            if pool.occurs_free(v, self.map[i].1) {
                return true;
            }
            i = i + 1;
        }
        assert forall|k: TermRef| #[trigger] self@.contains_key(k) implies !occurs_free(
            pool@,
            v,
            self@[k],
        ) by {
            lemma_pairs_map_keys(self.map@, k);
            let j = choose|j: int| 0 <= j < self.map@.len() && (#[trigger] self.map@[j]).0 == k;
            lemma_pairs_map_at(self.map@, j);
        }
        false
    }

    /// Applies this substitution to `term` (see [`applied`]); new nodes are interned in `pool`.
    /// A captured binder variable becomes its name followed by the fewest primes that clash with
    /// nothing, so the result depends on the substitution and the term alone
    /// ([`law_apply_deterministic`]).
    pub fn apply(&self, pool: &mut TermPool, term: TermRef) -> (r: TermRef)
        requires
            self.wf(),
            old(pool).wf(),
            map_in_pool(old(pool)@, self@),
            in_pool(old(pool)@, term),
        ensures
            final(pool).wf(),
            extends(old(pool)@, final(pool)@),
            applied(final(pool)@, self@, term, r),
        decreases term.0,
    {
        let ghost p0 = pool@;
        proof {
            assert(node_wf(p0, term.0 as int, p0[term.0 as int]));
        }
        let node = copy_node(pool.get(term));
        match node {
            Term::Sort(_) => term,
            Term::Var(_, _) => match self.get(term) {
                Some(v) => v,
                None => term,
            },
            Term::App(f, srt, args) => {
                assert(node_wf(p0, term.0 as int, TermView::App(f@, srt, args@)));
                let mut args2: Vec<TermRef> = Vec::new();
                let mut k: usize = 0;
                while k < args.len()
                    invariant
                        self.wf(),
                        pool.wf(),
                        extends(p0, pool@),
                        map_in_pool(p0, self@),
                        p0[term.0 as int] == TermView::App(f@, srt, args@),
                        node_wf(p0, term.0 as int, p0[term.0 as int]),
                        in_pool(p0, term),
                        0 <= k <= args@.len(),
                        forall|j: int| 0 <= j < args@.len() ==> (#[trigger] args@[j]).0 < term.0,
                        args2@.len() == k,
                        forall|j: int|
                            0 <= j < k ==> applied(pool@, self@, #[trigger] args@[j], args2@[j]),
                    decreases args@.len() - k,
                {
                    let ghost pb = pool@;
                    assert(node_wf(p0, term.0 as int, TermView::App(f@, srt, args@)));
                    assert(args@[k as int].0 < term.0);
                    proof {
                        lemma_map_in_pool_extends(p0, pool@, self@);
                    }
                    let a = self.apply(pool, args[k]);
                    proof {
                        lemma_map_in_pool_extends(p0, pb, self@);
                        assert forall|j: int| 0 <= j < k implies applied(
                            pool@,
                            self@,
                            #[trigger] args@[j],
                            args2@[j],
                        ) by {
                            lemma_applied_extends(pb, pool@, self@, args@[j], args2@[j]);
                        }
                    }
                    args2.push(a);
                    k = k + 1;
                }
                let ghost p1 = pool@;
                let ghost args2v = args2@;
                let ghost argsv = args@;
                proof {
                    assert(in_pool(p1, srt));
                    assert forall|j: int| 0 <= j < args2v.len() implies (#[trigger] args2v[j]).0
                        < p1.len() by {
                        assert(applied(p1, self@, args@[j], args2v[j]));
                    }
                }
                let r = pool.add(Term::App(f, srt, args2));
                proof {
                    lemma_map_in_pool_extends(p0, p1, self@);
                    assert(node_wf(p0, term.0 as int, TermView::App(f@, srt, args@)));
                    assert forall|j: int| 0 <= j < args@.len() implies (#[trigger] args@[j]).0
                        < term.0 && applied(pool@, self@, args@[j], pool@[r.0 as int]->App_2[j]) by {
                        assert(applied(p1, self@, args@[j], args2v[j]));
                        assert(pool@[r.0 as int]->App_2 == args2v);
                        lemma_applied_extends(p1, pool@, self@, args@[j], args2v[j]);
                        assert(argsv[j].0 < term.0);
                    }
                }
                r
            },
            Term::Binder(q, vars, body) => {
                let ghost s_in = self@.remove_keys(vars@.to_set());
                let inner0 = self.without(&vars);
                let mut inner = self.without(&vars);
                let mut vars2: Vec<TermRef> = Vec::new();
                let mut i: usize = 0;
                while i < vars.len()
                    invariant
                        pool.wf(),
                        extends(p0, pool@),
                        p0[term.0 as int] == TermView::Binder(q, vars@, body),
                        node_wf(p0, term.0 as int, p0[term.0 as int]),
                        in_pool(p0, term),
                        map_in_pool(p0, self@),
                        inner0.wf(),
                        inner0@ == s_in,
                        s_in == self@.remove_keys(vars@.to_set()),
                        inner.wf(),
                        inner@ == s_in.union_prefer_right(renamings(vars@, vars2@, i as int)),
                        map_in_pool(pool@, inner@),
                        0 <= i <= vars@.len(),
                        vars2@.len() == i,
                        forall|j: int|
                            0 <= j < i ==> binder_renamed(
                                pool@,
                                s_in,
                                body,
                                vars@[j],
                                #[trigger] vars2@[j],
                            ),
                        forall|j: int|
                            0 <= j < i && #[trigger] vars2@[j] != vars@[j] ==> chosen_renaming(
                                pool@,
                                s_in,
                                body,
                                vars@,
                                vars2@,
                                j,
                            ),
                    decreases vars@.len() - i,
                {
                    let v = vars[i];
                    let ghost pb = pool@;
                    let ghost vars2_before = vars2@;
                    assert(map_in_pool(p0, s_in));
                    proof {
                        lemma_map_in_pool_extends(p0, pb, s_in);
                    }
                    assert(vars@[i as int].0 < term.0);
                    let ghost inner_before = inner@;
                    proof {
                        assert forall|j: int| 0 <= j < vars@.len() implies is_var(pb, #[trigger] vars@[j]) by {
                            assert(node_wf(p0, term.0 as int, TermView::Binder(q, vars@, body)));
                            assert(vars@[j].0 < term.0);
                        }
                        assert forall|j: int| 0 <= j < vars2@.len() implies in_pool(pb, #[trigger] vars2@[j]) by {
                            assert(binder_renamed(pb, s_in, body, vars@[j], vars2@[j]));
                        }
                        assert(in_pool(p0, body));
                    }
                    if inner0.captures(pool, v) {
                        let v2 = rename_var(pool, &inner0, body, &vars, &vars2);
                        proof {
                            lemma_map_in_pool_extends(pb, pool@, inner_before);
                        }
                        inner.set(v, v2);
                        vars2.push(v2);
                        proof {
                            lemma_capture_free_extends(pb, pool@, s_in, v);
                        }
                    } else {
                        vars2.push(v);
                    }
                    proof {
                        lemma_renamings_prefix(vars@, vars2@, vars2_before, i as int);
                        assert forall|j: int| 0 <= j < i implies binder_renamed(
                            pool@,
                            s_in,
                            body,
                            vars@[j],
                            #[trigger] vars2@[j],
                        ) by {
                            assert(vars2@[j] == vars2_before[j]);
                            assert(vars@[j].0 < term.0);
                            lemma_binder_renamed_extends(pb, pool@, s_in, body, vars@[j], vars2@[j]);
                        }
                        lemma_capture_free_extends(pb, pool@, s_in, v);
                        lemma_sort_of_extends(pb, pool@, v);
                        assert forall|j: int|
                            0 <= j < i && #[trigger] vars2@[j] != vars@[j] implies chosen_renaming(
                            pool@,
                            s_in,
                            body,
                            vars@,
                            vars2@,
                            j,
                        ) by {
                            assert(vars2@[j] == vars2_before[j]);
                            assert(vars2@.subrange(0, j) =~= vars2_before.subrange(0, j));
                            assert(chosen_renaming(pb, s_in, body, vars@, vars2_before, j));
                            assert forall|m: int| 0 <= m <= j implies in_pool(pb, #[trigger] vars2@[m]) by {
                                assert(vars2@[m] == vars2_before[m]);
                            }
                            lemma_chosen_renaming_extends(pb, pool@, s_in, body, vars@, vars2_before, j);
                            assert(chosen_renaming(pool@, s_in, body, vars@, vars2_before, j));
                        }
                    }
                    i = i + 1;
                    proof {
                        assert(inner@ =~= s_in.union_prefer_right(renamings(vars@, vars2@, i as int)));
                    }
                }
                let ghost p1 = pool@;
                let ghost vars2v = vars2@;
                proof {
                    lemma_map_in_pool_extends(p0, p1, s_in);
                }
                assert(body.0 < term.0);
                let body2 = inner.apply(pool, body);
                let ghost p2 = pool@;
                proof {
                    assert forall|j: int| 0 <= j < vars2v.len() implies in_pool(p2, #[trigger] vars2v[j])
                        && p2[vars2v[j].0 as int] is Var by {
                        assert(binder_renamed(p1, s_in, body, vars@[j], vars2v[j]));
                    }
                }
                let r = pool.add(Term::Binder(q, vars2, body2));
                proof {
                    lemma_map_in_pool_extends(p0, p1, s_in);
                    assert forall|j: int| 0 <= j < vars@.len() implies binder_renamed(
                        pool@,
                        s_in,
                        body,
                        vars@[j],
                        #[trigger] vars2v[j],
                    ) by {
                        assert(binder_renamed(p1, s_in, body, vars@[j], vars2v[j]));
                        assert(vars@[j].0 < term.0);
                        lemma_binder_renamed_extends(p1, pool@, s_in, body, vars@[j], vars2v[j]);
                    }
                    assert forall|j: int|
                        0 <= j < vars@.len() && #[trigger] vars2v[j] != vars@[j] implies chosen_renaming(
                        pool@,
                        s_in,
                        body,
                        vars@,
                        vars2v,
                        j,
                    ) by {
                        assert forall|m: int| 0 <= m < vars@.len() implies in_pool(p1, #[trigger] vars@[m]) by {
                            assert(vars@[m].0 < term.0);
                        }
                        assert forall|m: int| 0 <= m <= j implies in_pool(p1, #[trigger] vars2v[m]) by {
                            assert(binder_renamed(p1, s_in, body, vars@[m], vars2v[m]));
                        }
                        assert(in_pool(p0, body));
                        lemma_chosen_renaming_extends(p1, pool@, s_in, body, vars@, vars2v, j);
                    }
                    lemma_applied_extends(p2, pool@, inner@, body, body2);
                }
                r
            },
        }
    }
}

/// Whether the variable named `name` of sort `sort` may rename the next binder variable of
/// `vars` over `body` (see [`view_ok`]), the earlier ones having become `prefix`.
fn candidate_fits(
    pool: &TermPool,
    s_in: &Substitution,
    body: TermRef,
    vars: &Vec<TermRef>,
    prefix: &Vec<TermRef>,
    name: &String,
    sort: TermRef,
) -> (r: bool)
    requires
        pool.wf(),
        s_in.wf(),
        map_in_pool(pool@, s_in@),
        in_pool(pool@, body),
        forall|j: int| 0 <= j < vars@.len() ==> in_pool(pool@, #[trigger] vars@[j]),
        forall|j: int| 0 <= j < prefix@.len() ==> in_pool(pool@, #[trigger] prefix@[j]),
    ensures
        r == view_ok(pool@, s_in@, body, vars@, prefix@, TermView::Var(name@, sort)),
{
    let c = Term::Var(name.clone(), sort);
    let mut j: usize = 0;
    while j < vars.len()
        invariant
            0 <= j <= vars@.len(),
            c@ == TermView::Var(name@, sort),
            forall|k: int| 0 <= k < vars@.len() ==> in_pool(pool@, #[trigger] vars@[k]),
            forall|k: int| 0 <= k < j ==> pool@[(#[trigger] vars@[k]).0 as int] != c@,
        decreases vars@.len() - j,
    {
        if same_node(pool.get(vars[j]), &c) {
            return false;
        }
        j = j + 1;
    }
    let mut j: usize = 0;
    while j < prefix.len()
        invariant
            0 <= j <= prefix@.len(),
            c@ == TermView::Var(name@, sort),
            forall|k: int| 0 <= k < prefix@.len() ==> in_pool(pool@, #[trigger] prefix@[k]),
            forall|k: int| 0 <= k < j ==> pool@[(#[trigger] prefix@[k]).0 as int] != c@,
        decreases prefix@.len() - j,
    {
        if same_node(pool.get(prefix[j]), &c) {
            return false;
        }
        j = j + 1;
    }
    match pool.find(&c) {
        None => true,
        Some(x) => {
            let ok = !s_in.captures(pool, x) && !pool.occurs_free(x, body);
            proof {
                assert forall|y: usize| y < pool@.len() && #[trigger] pool@[y as int] == c@ implies y == x.0 by {
                    lemma_same_node(pool@, TermRef(y), x);
                }
            }
            ok
        },
    }
}

/// Renames the binder variable `vars[i]`, `i` being the length of `prefix`: the first
/// candidate (its name followed by one prime or more) that may rename it, interned.
fn rename_var(
    pool: &mut TermPool,
    s_in: &Substitution,
    body: TermRef,
    vars: &Vec<TermRef>,
    prefix: &Vec<TermRef>,
) -> (r: TermRef)
    requires
        old(pool).wf(),
        s_in.wf(),
        map_in_pool(old(pool)@, s_in@),
        in_pool(old(pool)@, body),
        prefix@.len() < vars@.len(),
        forall|j: int| 0 <= j < vars@.len() ==> is_var(old(pool)@, #[trigger] vars@[j]),
        forall|j: int| 0 <= j < prefix@.len() ==> in_pool(old(pool)@, #[trigger] prefix@[j]),
    ensures
        final(pool).wf(),
        extends(old(pool)@, final(pool)@),
        is_var(final(pool)@, r),
        r != vars@[prefix@.len() as int],
        sort_of(final(pool)@, r) == sort_of(old(pool)@, vars@[prefix@.len() as int]),
        capture_free(final(pool)@, s_in@, r),
        !occurs_free(final(pool)@, r, body),
        chosen_renaming(final(pool)@, s_in@, body, vars@, prefix@.push(r), prefix@.len() as int),
{
    let ghost p0 = pool@;
    let i = prefix.len();
    let v = vars[i];
    assert(is_var(p0, vars@[i as int]));
    let ghost vv = p0[v.0 as int];
    let mut name = String::new();
    let mut sort = v;
    if let Term::Var(n, srt) = pool.get(v) {
        name = n.clone();
        sort = *srt;
    }
    assert(vv == TermView::Var(name@, sort));
    let longest = pool.longest_var_name();
    assert(forall|j: int| 0 <= j < vars@.len() ==> in_pool(p0, #[trigger] vars@[j]));
    let ghost mut k: nat = 0;
    let mut done = false;
    assert(name@ + primes(0) =~= name@);
    while !done
        invariant
            pool@ == p0,
            pool.wf(),
            s_in.wf(),
            map_in_pool(p0, s_in@),
            in_pool(p0, body),
            forall|j: int| 0 <= j < vars@.len() ==> in_pool(p0, #[trigger] vars@[j]),
            forall|j: int| 0 <= j < prefix@.len() ==> in_pool(p0, #[trigger] prefix@[j]),
            forall|j: int| 0 <= j < p0.len() && (#[trigger] p0[j] is Var) ==> p0[j]->Var_0.len() <= longest,
            vv == TermView::Var(name@, sort) || k >= 1,
            candidate(vv, k) == TermView::Var(name@, sort),
            vv->Var_0.len() <= longest,
            done ==> k >= 1 && view_ok(p0, s_in@, body, vars@, prefix@, candidate(vv, k)),
            !done ==> name@.len() <= longest,
            forall|j: nat| 1 <= j < k ==> !view_ok(p0, s_in@, body, vars@, prefix@, #[trigger] candidate(vv, j)),
            !done && k >= 1 ==> !view_ok(p0, s_in@, body, vars@, prefix@, candidate(vv, k)),
        decreases longest + 2 - name@.len(),
    {
        proof {
            reveal_strlit("'");
        }
        let ghost before = name@;
        name.append("'");
        proof {
            k = k + 1;
            assert(primes(k) == primes((k - 1) as nat).push('\''));
            assert(name@ =~= vv->Var_0 + primes(k));
        }
        done = candidate_fits(pool, s_in, body, vars, prefix, &name, sort);
        proof {
            if !done && name@.len() > longest {
                let c = TermView::Var(name@, sort);
                assert forall|j: int| 0 <= j < vars@.len() implies p0[(#[trigger] vars@[j]).0 as int] != c by {
                    assert(p0[vars@[j].0 as int] is Var);
                }
                assert forall|j: int| 0 <= j < prefix@.len() implies p0[(#[trigger] prefix@[j]).0 as int] != c by {
                    if p0[prefix@[j].0 as int] == c {
                        assert(p0[prefix@[j].0 as int] is Var);
                    }
                }
                assert(view_ok(p0, s_in@, body, vars@, prefix@, c));
            }
        }
    }
    let c = Term::Var(name, sort);
    proof {
        assert(node_wf(p0, v.0 as int, p0[v.0 as int]));
    }
    let r = pool.add(c);
    proof {
        let q = pool@;
        let cv = candidate(vv, k);
        assert(q[r.0 as int] == cv);
        assert(p0[vars@[i as int].0 as int] != cv);
        if r.0 < p0.len() {
            assert(p0[r.0 as int] == cv);
            assert(capture_free(p0, s_in@, r));
            lemma_capture_free_extends(p0, q, s_in@, r);
            lemma_occurs_free_extends(p0, q, r, body);
        } else {
            lemma_capture_free_new(q, s_in@, r, p0.len() as int);
            if occurs_free(q, r, body) {
                lemma_occurs_free_below(q, r, body);
            }
        }
        assert(prefix@.push(r).subrange(0, i as int) =~= prefix@);
        lemma_view_ok_extends(p0, q, s_in@, body, vars@, prefix@, cv);
        assert forall|j: nat| 1 <= j < k implies !view_ok(q, s_in@, body, vars@, prefix@, #[trigger] candidate(vv, j)) by {
            lemma_view_ok_extends(p0, q, s_in@, body, vars@, prefix@, candidate(vv, j));
        }
        assert(q[vars@[i as int].0 as int] == vv);
        assert(prefix@.push(r)[i as int] == r);
    }
    r
}

pub proof fn lemma_unique_pairs_len(s: Seq<(TermRef, TermRef)>)
    requires
        keys_unique(s),
    ensures
        pairs_map(s).len() == s.len(),
        pairs_map(s).dom().finite(),
    decreases s.len(),
{
    if s.len() > 0 {
        assert(keys_unique(s.drop_last()));
        lemma_unique_pairs_len(s.drop_last());
        lemma_pairs_map_keys(s.drop_last(), s.last().0);
    }
}

/// Capture avoidance: when a value of the substitution mentions free a variable that a binder of
/// the term binds, that binder's variable is renamed in the result, to a variable of the same
/// sort that the value does not mention and that is not free in the body.
pub proof fn law_capture_avoidance(
    p: Seq<TermView>,
    s: Map<TermRef, TermRef>,
    t: TermRef,
    r: TermRef,
    i: int,
    k: TermRef,
)
    requires
        applied(p, s, t, r),
        p[t.0 as int] is Binder,
        0 <= i < p[t.0 as int]->Binder_1.len(),
        s.contains_key(k),
        !p[t.0 as int]->Binder_1.contains(k),
        occurs_free(p, p[t.0 as int]->Binder_1[i], s[k]),
    ensures
        p[r.0 as int] is Binder,
        p[r.0 as int]->Binder_1[i] != p[t.0 as int]->Binder_1[i],
        !occurs_free(p, p[r.0 as int]->Binder_1[i], s[k]),
        sort_of(p, p[r.0 as int]->Binder_1[i]) == sort_of(p, p[t.0 as int]->Binder_1[i]),
        !occurs_free(p, p[r.0 as int]->Binder_1[i], p[t.0 as int]->Binder_2),
{
    let vars = p[t.0 as int]->Binder_1;
    let s_in = s.remove_keys(vars.to_set());
    assert(s_in.contains_key(k));
    assert(binder_renamed(p, s_in, p[t.0 as int]->Binder_2, vars[i], p[r.0 as int]->Binder_1[i]));
}

} // verus!
