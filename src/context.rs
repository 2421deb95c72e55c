//! Subproof contexts: the per-anchor frames, the registry that shares them between workers,
//! and the per-worker stack that composes their substitutions.

use vstd::prelude::*;
use crate::substitution::{
    applied, law_apply_deterministic, lemma_applied_empty, lemma_applied_extends, lemma_applied_sort, keys_unique, lemma_pairs_map_at, lookup_or,
    map_in_pool, pairs_map, subst_valid, Substitution, SubstitutionError,
};
use crate::term::{
    extends, in_pool, is_var, lemma_sort_of_extends, node_wf, pool_wf, sort_of, Term, TermPool,
    TermRef, TermView,
};

verus! {

#[verifier::external_type_specification]
#[verifier::external_body]
pub struct ExRandomState(ahash::RandomState);

#[verifier::external_type_specification]
#[verifier::external_body]
#[verifier::reject_recursive_types(T)]
#[verifier::reject_recursive_types(S)]
pub struct ExAHashSet<T, S>(ahash::AHashSet<T, S>);

/// The elements of a set of node positions.
pub uninterp spec fn position_set(s: ahash::AHashSet<usize>) -> Set<usize>;

/// Relies on `ahash::AHashSet::new`: a new set is empty.
#[verifier::external_body]
pub(crate) fn new_position_set() -> (r: ahash::AHashSet<usize>)
    ensures
        position_set(r) == Set::<usize>::empty(),
{
    ahash::AHashSet::new()
}

/// Relies on `HashSet::insert`, reached through `AHashSet`'s `DerefMut`: the element is added.
#[verifier::external_body]
pub(crate) fn insert_position(s: &mut ahash::AHashSet<usize>, x: usize)
    ensures
        position_set(*final(s)) == position_set(*old(s)).insert(x),
{
    s.insert(x);
}

/// Relies on `HashSet::contains`, reached through `AHashSet`'s `Deref`.
#[verifier::external_body]
pub(crate) fn has_position(s: &ahash::AHashSet<usize>, x: usize) -> (r: bool)
    ensures
        r == position_set(*s).contains(x),
{
    s.contains(&x)
}

/// A name and a sort, as a subproof declares a variable or an assignment names it.
pub type SortedVar = (String, TermRef);

/// The substitution that the first `n` pairs of `mappings` build when the `i`-th key is mapped
/// to `vals[i]`.
pub open spec fn prefix_subst(
    mappings: Seq<(TermRef, TermRef)>,
    vals: Seq<TermRef>,
    n: int,
) -> Map<TermRef, TermRef>
    decreases n,
{
    if n <= 0 {
        Map::empty()
    } else {
        prefix_subst(mappings, vals, n - 1).insert(mappings[n - 1].0, vals[n - 1])
    }
}

/// `vals[i]` is the value of the `i`-th mapping rewritten by the substitution that the
/// mappings before it built.
pub open spec fn simultaneous_values(
    p: Seq<TermView>,
    mappings: Seq<(TermRef, TermRef)>,
    vals: Seq<TermRef>,
) -> bool {
    &&& vals.len() == mappings.len()
    &&& forall|i: int|
        0 <= i < mappings.len() ==> applied(
            p,
            prefix_subst(mappings, vals, i),
            mappings[i].1,
            #[trigger] vals[i],
        )
}

/// `sim` is the simultaneous substitution of `mappings`, built in declared order: each value
/// is rewritten by the mappings before it, then added.
pub open spec fn is_simultaneous(
    p: Seq<TermView>,
    mappings: Seq<(TermRef, TermRef)>,
    sim: Map<TermRef, TermRef>,
) -> bool {
    exists|vals: Seq<TermRef>|
        simultaneous_values(p, mappings, vals) && sim == prefix_subst(
            mappings,
            vals,
            mappings.len() as int,
        )
}

/// Each key is a variable and each value a term of the key's sort.
pub open spec fn mappings_valid(p: Seq<TermView>, m: Seq<(TermRef, TermRef)>) -> bool {
    forall|i: int|
        0 <= i < m.len() ==> is_var(p, (#[trigger] m[i]).0) && in_pool(p, m[i].1) && sort_of(
            p,
            m[i].1,
        ) == sort_of(p, m[i].0)
}

pub proof fn lemma_mappings_valid_extends(p: Seq<TermView>, q: Seq<TermView>, m: Seq<(TermRef, TermRef)>)
    requires
        pool_wf(p),
        extends(p, q),
        mappings_valid(p, m),
    ensures
        mappings_valid(q, m),
{
    assert forall|i: int| 0 <= i < m.len() implies is_var(q, (#[trigger] m[i]).0) && in_pool(
        q,
        m[i].1,
    ) && sort_of(q, m[i].1) == sort_of(q, m[i].0) by {
        lemma_sort_of_extends(p, q, m[i].1);
        lemma_sort_of_extends(p, q, m[i].0);
    }
}

pub proof fn lemma_subst_valid_extends(p: Seq<TermView>, q: Seq<TermView>, s: Map<TermRef, TermRef>)
    requires
        pool_wf(p),
        extends(p, q),
        subst_valid(p, s),
    ensures
        subst_valid(q, s),
        map_in_pool(q, s),
{
    assert forall|k: TermRef| #[trigger] s.contains_key(k) implies is_var(q, k) && in_pool(q, s[k])
        && sort_of(q, s[k]) == sort_of(q, k) by {
        lemma_sort_of_extends(p, q, s[k]);
        lemma_sort_of_extends(p, q, k);
    }
}

/// Each key of `prefix_subst(mappings, vals, n)` is the key of a mapping before `n`, with the
/// value given for the last such mapping.
pub proof fn lemma_prefix_subst_contents(
    mappings: Seq<(TermRef, TermRef)>,
    vals: Seq<TermRef>,
    n: int,
)
    requires
        0 <= n <= mappings.len(),
        n <= vals.len(),
    ensures
        forall|k: TermRef| #[trigger]
            prefix_subst(mappings, vals, n).contains_key(k) ==> exists|i: int|
                0 <= i < n && mappings[i].0 == k && prefix_subst(mappings, vals, n)[k] == vals[i],
    decreases n,
{
    if n > 0 {
        lemma_prefix_subst_contents(mappings, vals, n - 1);
        let m = prefix_subst(mappings, vals, n);
        assert forall|k: TermRef| #[trigger] m.contains_key(k) implies exists|i: int|
            0 <= i < n && mappings[i].0 == k && m[k] == vals[i] by {
            if k == mappings[n - 1].0 {
                assert(m[k] == vals[n - 1]);
            } else {
                let i = choose|i: int|
                    0 <= i < n - 1 && mappings[i].0 == k && prefix_subst(mappings, vals, n - 1)[k]
                        == vals[i];
                assert(m[k] == vals[i]);
            }
        }
    }
}

/// Moving to a larger pool keeps a simultaneous substitution what it was.
pub proof fn lemma_simultaneous_extends(
    p: Seq<TermView>,
    q: Seq<TermView>,
    mappings: Seq<(TermRef, TermRef)>,
    sim: Map<TermRef, TermRef>,
)
    requires
        pool_wf(p),
        pool_wf(q),
        extends(p, q),
        mappings_valid(p, mappings),
        is_simultaneous(p, mappings, sim),
    ensures
        is_simultaneous(q, mappings, sim),
{
    let vals = choose|vals: Seq<TermRef>|
        simultaneous_values(p, mappings, vals) && sim == prefix_subst(
            mappings,
            vals,
            mappings.len() as int,
        );
    assert forall|i: int| 0 <= i < mappings.len() implies applied(
        q,
        prefix_subst(mappings, vals, i),
        mappings[i].1,
        #[trigger] vals[i],
    ) by {
        lemma_prefix_subst_contents(mappings, vals, i);
        assert forall|k: TermRef| #[trigger]
            prefix_subst(mappings, vals, i).contains_key(k) implies in_pool(p, k) && in_pool(
            p,
            prefix_subst(mappings, vals, i)[k],
        ) by {
            let j = choose|j: int|
                0 <= j < i && mappings[j].0 == k && prefix_subst(mappings, vals, i)[k] == vals[j];
            assert(applied(p, prefix_subst(mappings, vals, j), mappings[j].1, vals[j]));
            assert(is_var(p, (mappings[j]).0));
        }
        lemma_applied_extends(p, q, prefix_subst(mappings, vals, i), mappings[i].1, vals[i]);
    }
    assert(simultaneous_values(q, mappings, vals));
}

/// Builds the simultaneous substitution of `mappings` (see [`is_simultaneous`]): each value is
/// rewritten by the substitution built so far before its mapping is added, so that with
/// `y ↦ z` then `x ↦ f(y)` the result maps `x` to `f(z)`.
pub fn build_simultaneous_substitution(
    pool: &mut TermPool,
    mappings: &Vec<(TermRef, TermRef)>,
) -> (r: Substitution)
    requires
        old(pool).wf(),
        mappings_valid(old(pool)@, mappings@),
    ensures
        final(pool).wf(),
        extends(old(pool)@, final(pool)@),
        r.wf(),
        is_simultaneous(final(pool)@, mappings@, r@),
        subst_valid(final(pool)@, r@),
{
    let ghost p0 = pool@;
    let mut result = Substitution::empty();
    let ghost mut vals: Seq<TermRef> = Seq::empty();
    let mut i: usize = 0;
    while i < mappings.len()
        invariant
            pool.wf(),
            extends(p0, pool@),
            mappings_valid(p0, mappings@),
            mappings_valid(pool@, mappings@),
            result.wf(),
            0 <= i <= mappings@.len(),
            vals.len() == i,
            result@ == prefix_subst(mappings@, vals, i as int),
            subst_valid(pool@, result@),
            forall|j: int|
                0 <= j < i ==> applied(
                    pool@,
                    prefix_subst(mappings@, vals, j),
                    mappings@[j].1,
                    #[trigger] vals[j],
                ),
            forall|j: int|
                0 <= j < i ==> in_pool(pool@, #[trigger] vals[j]) && sort_of(pool@, vals[j])
                    == sort_of(pool@, mappings@[j].0),
        decreases mappings@.len() - i,
    {
        let (var, value) = mappings[i];
        let ghost pb = pool@;
        proof {
            lemma_subst_valid_extends(pb, pb, result@);
        }
        let new_value = result.apply(pool, value);
        proof {
            lemma_subst_valid_extends(pb, pool@, result@);
            lemma_applied_sort(pool@, result@, value, new_value);
            lemma_mappings_valid_extends(pb, pool@, mappings@);
            lemma_sort_of_extends(pb, pool@, value);
            lemma_values_extend(pb, pool@, mappings@, vals, i as int);
        }
        let res = result.insert(pool, var, new_value);
        assert(res is Ok);
        proof {
            let old_vals = vals;
            vals = vals.push(new_value);
            assert forall|j: int| 0 <= j <= i implies prefix_subst(mappings@, vals, j)
                == prefix_subst(mappings@, old_vals, j) by {
                lemma_prefix_subst_prefix(mappings@, vals, old_vals, j);
            }
        }
        i = i + 1;
    }
    assert(simultaneous_values(pool@, mappings@, vals));
    result
}

proof fn lemma_values_extend(
    p: Seq<TermView>,
    q: Seq<TermView>,
    mappings: Seq<(TermRef, TermRef)>,
    vals: Seq<TermRef>,
    n: int,
)
    requires
        pool_wf(p),
        pool_wf(q),
        extends(p, q),
        0 <= n <= mappings.len(),
        vals.len() == n,
        mappings_valid(p, mappings),
        forall|j: int|
            0 <= j < n ==> applied(p, prefix_subst(mappings, vals, j), mappings[j].1, #[trigger] vals[j]),
        forall|j: int|
            0 <= j < n ==> in_pool(p, #[trigger] vals[j]) && sort_of(p, vals[j]) == sort_of(
                p,
                mappings[j].0,
            ),
    ensures
        forall|j: int|
            0 <= j < n ==> applied(q, prefix_subst(mappings, vals, j), mappings[j].1, #[trigger] vals[j]),
        forall|j: int|
            0 <= j < n ==> in_pool(q, #[trigger] vals[j]) && sort_of(q, vals[j]) == sort_of(
                q,
                mappings[j].0,
            ),
{
    assert forall|j: int| 0 <= j < n implies applied(
        q,
        prefix_subst(mappings, vals, j),
        mappings[j].1,
        #[trigger] vals[j],
    ) && in_pool(q, vals[j]) && sort_of(q, vals[j]) == sort_of(q, mappings[j].0) by {
        lemma_prefix_subst_contents(mappings, vals, j);
        assert forall|k: TermRef| #[trigger]
            prefix_subst(mappings, vals, j).contains_key(k) implies in_pool(p, k) && in_pool(
            p,
            prefix_subst(mappings, vals, j)[k],
        ) by {
            let i = choose|i: int|
                0 <= i < j && mappings[i].0 == k && prefix_subst(mappings, vals, j)[k] == vals[i];
            assert(in_pool(p, vals[i]));
            assert(is_var(p, (mappings[i]).0));
        }
        lemma_applied_extends(p, q, prefix_subst(mappings, vals, j), mappings[j].1, vals[j]);
        lemma_sort_of_extends(p, q, vals[j]);
        assert(is_var(p, (mappings[j]).0));
        lemma_sort_of_extends(p, q, mappings[j].0);
    }
}

/// `prefix_subst` reads only the first `n` values.
pub proof fn lemma_prefix_subst_prefix(
    mappings: Seq<(TermRef, TermRef)>,
    a: Seq<TermRef>,
    b: Seq<TermRef>,
    n: int,
)
    requires
        0 <= n <= a.len(),
        n <= b.len(),
        forall|i: int| 0 <= i < n ==> a[i] == b[i],
    ensures
        prefix_subst(mappings, a, n) == prefix_subst(mappings, b, n),
    decreases n,
{
    if n > 0 {
        lemma_prefix_subst_prefix(mappings, a, b, n - 1);
    }
}

/// One subproof frame, built from an anchor.
pub struct Context {
    /// The anchor's assignments `(:= x e)`, as (variable, value) pairs in declared order.
    pub mappings: Vec<(TermRef, TermRef)>,
    /// Positions of the variables that the anchor binds.
    pub bindings: ahash::AHashSet<usize>,
    /// The composition of the substitutions of this frame and of every enclosing one, once
    /// computed.
    pub cumulative_substitution: Option<Substitution>,
}

/// Mathematical model of a [`Context`].
pub struct ContextView {
    pub mappings: Seq<(TermRef, TermRef)>,
    pub bindings: Set<usize>,
    pub cumulative: Option<Map<TermRef, TermRef>>,
}

impl View for Context {
    type V = ContextView;

    open spec fn view(&self) -> ContextView {
        ContextView {
            mappings: self.mappings@,
            bindings: position_set(self.bindings),
            cumulative: match self.cumulative_substitution {
                Some(s) => Some(s@),
                None => None,
            },
        }
    }
}

impl Context {
    pub open spec fn wf(&self) -> bool {
        match self.cumulative_substitution {
            Some(s) => s.wf(),
            None => true,
        }
    }

    /// Whether the anchor of this frame binds the variable `v`.
    pub fn binds(&self, v: TermRef) -> (r: bool)
        ensures
            r == self@.bindings.contains(v.0),
    {
        has_position(&self.bindings, v.0)
    }
}

/// The frame's terms are nodes of `p`, its mappings valid and its cumulative substitution, if
/// any, valid.
pub open spec fn context_valid(p: Seq<TermView>, c: ContextView) -> bool {
    &&& mappings_valid(p, c.mappings)
    &&& c.cumulative is Some ==> subst_valid(p, c.cumulative->0)
}

/// Model of one registry slot: how many workers will still leave it, and its frame if built.
pub struct SlotView {
    pub remaining: nat,
    pub payload: Option<ContextView>,
}

/// One slot of a [`ContextRegistry`].
pub struct Slot {
    remaining: usize,
    payload: Option<Context>,
}

/// Every built frame of the registry is valid in `p`.
pub open spec fn registry_valid(p: Seq<TermView>, r: Seq<SlotView>) -> bool {
    forall|i: int| 0 <= i < r.len() && (#[trigger] r[i]).payload is Some ==> context_valid(
        p,
        r[i].payload->0,
    )
}

pub proof fn lemma_registry_valid_extends(p: Seq<TermView>, q: Seq<TermView>, r: Seq<SlotView>)
    requires
        pool_wf(p),
        extends(p, q),
        registry_valid(p, r),
    ensures
        registry_valid(q, r),
{
    assert forall|i: int| 0 <= i < r.len() && (#[trigger] r[i]).payload is Some implies context_valid(
        q,
        r[i].payload->0,
    ) by {
        lemma_mappings_valid_extends(p, q, r[i].payload->0.mappings);
        if r[i].payload->0.cumulative is Some {
            lemma_subst_valid_extends(p, q, r[i].payload->0.cumulative->0);
        }
    }
}

/// The slot after a worker leaves it: one user fewer, and the frame dropped with the last.
pub open spec fn slot_after_pop(s: SlotView) -> SlotView {
    let remaining = (s.remaining - 1) as nat;
    SlotView { remaining, payload: if remaining == 0 { None } else { s.payload } }
}

/// The slot after a worker enters it with frame `built`: the frame is installed if the slot
/// had none, and nothing changes otherwise.
pub open spec fn slot_after_push(s: SlotView, built: ContextView) -> SlotView {
    match s.payload {
        Some(_) => s,
        None => SlotView { remaining: s.remaining, payload: Some(built) },
    }
}

/// The frames shared by all workers: one slot per anchor, addressed by the anchor's context id.
pub struct ContextRegistry {
    slots: Vec<Slot>,
}

impl View for ContextRegistry {
    type V = Seq<SlotView>;

    closed spec fn view(&self) -> Seq<SlotView> {
        self.slots@.map_values(
            |s: Slot|
                SlotView {
                    remaining: s.remaining as nat,
                    payload: match s.payload {
                        Some(c) => Some(c@),
                        None => None,
                    },
                },
        )
    }
}

impl ContextRegistry {
    pub closed spec fn wf(&self) -> bool {
        forall|i: int|
            0 <= i < self.slots@.len() && (#[trigger] self.slots@[i]).payload is Some
                ==> self.slots@[i].payload->0.wf()
    }

    /// One empty slot per anchor; slot `i` will be left by `usage[i]` workers.
    pub fn from_usage(usage: &Vec<usize>) -> (r: ContextRegistry)
        ensures
            r.wf(),
            r@.len() == usage@.len(),
            forall|i: int|
                0 <= i < usage@.len() ==> #[trigger] r@[i] == (SlotView {
                    remaining: usage@[i] as nat,
                    payload: None,
                }),
    {
        let mut slots: Vec<Slot> = Vec::new();
        let mut i: usize = 0;
        while i < usage.len()
            invariant
                0 <= i <= usage@.len(),
                slots@.len() == i,
                forall|j: int|
                    0 <= j < i ==> (#[trigger] slots@[j]).remaining == usage@[j]
                        && slots@[j].payload is None,
            decreases usage@.len() - i,
        {
            slots.push(Slot { remaining: usage[i], payload: None });
            i = i + 1;
        }
        let r = ContextRegistry { slots };
        assert forall|i: int| 0 <= i < usage@.len() implies #[trigger] r@[i] == (SlotView {
            remaining: usage@[i] as nat,
            payload: None,
        }) by {
            assert(r.slots@[i].remaining == usage@[i]);
        }
        r
    }

    /// Number of slots.
    pub fn len(&self) -> (r: usize)
        ensures
            r == self@.len(),
    {
        self.slots.len()
    }

    /// How many workers will still leave slot `id`.
    pub fn remaining(&self, id: usize) -> (r: usize)
        requires
            id < self@.len(),
        ensures
            r == self@[id as int].remaining,
    {
        self.slots[id].remaining
    }

    /// The frame of slot `id`, if it is built.
    pub fn context(&self, id: usize) -> (r: Option<&Context>)
        requires
            id < self@.len(),
        ensures
            match r {
                Some(c) => self@[id as int].payload == Some(c@) && (self.wf() ==> c.wf()),
                None => self@[id as int].payload is None,
            },
    {
        match &self.slots[id].payload {
            Some(c) => Some(c),
            None => None,
        }
    }

    /// Installs `ctx` in slot `id`.
    fn install(&mut self, id: usize, ctx: Context)
        requires
            old(self).wf(),
            ctx.wf(),
            id < old(self)@.len(),
        ensures
            final(self).wf(),
            final(self)@ == old(self)@.update(
                id as int,
                SlotView { remaining: old(self)@[id as int].remaining, payload: Some(ctx@) },
            ),
    {
        let remaining = self.slots[id].remaining;
        self.slots.set(id, Slot { remaining, payload: Some(ctx) });
        assert(self@ =~= old(self)@.update(
            id as int,
            SlotView { remaining: old(self)@[id as int].remaining, payload: Some(ctx@) },
        ));
    }

    /// One worker leaves slot `id`; the last one drops its frame.
    fn release(&mut self, id: usize)
        requires
            old(self).wf(),
            id < old(self)@.len(),
            old(self)@[id as int].remaining > 0,
        ensures
            final(self).wf(),
            final(self)@ == old(self)@.update(id as int, slot_after_pop(old(self)@[id as int])),
    {
        let mut slot = Slot { remaining: 0, payload: None };
        self.slots.set_and_swap(id, &mut slot);
        slot.remaining = slot.remaining - 1;
        if slot.remaining == 0 {
            slot.payload = None;
        }
        self.slots.set_and_swap(id, &mut slot);
        assert(self@ =~= old(self)@.update(id as int, slot_after_pop(old(self)@[id as int])));
    }

    /// Rewrites `term` by the cumulative substitution of the frame in slot `id`.
    pub fn apply_cumulative(&self, id: usize, pool: &mut TermPool, term: TermRef) -> (r: TermRef)
        requires
            self.wf(),
            old(pool).wf(),
            in_pool(old(pool)@, term),
            id < self@.len(),
            self@[id as int].payload is Some,
            self@[id as int].payload->0.cumulative is Some,
            registry_valid(old(pool)@, self@),
        ensures
            final(pool).wf(),
            extends(old(pool)@, final(pool)@),
            applied(final(pool)@, self@[id as int].payload->0.cumulative->0, term, r),
    {
        assert(self.slots@[id as int].payload is Some);
        match &self.slots[id].payload {
            Some(ctx) => match &ctx.cumulative_substitution {
                Some(cum) => {
                    assert(context_valid(pool@, self@[id as int].payload->0));
                    proof {
                        lemma_subst_valid_extends(pool@, pool@, cum@);
                    }
                    cum.apply(pool, term)
                },
                None => term,
            },
            None => term,
        }
    }

    /// Records `cum` as the cumulative substitution of the built frame in slot `id`.
    fn set_cumulative(&mut self, id: usize, cum: Substitution)
        requires
            old(self).wf(),
            cum.wf(),
            id < old(self)@.len(),
            old(self)@[id as int].payload is Some,
        ensures
            final(self).wf(),
            final(self)@ == old(self)@.update(
                id as int,
                SlotView {
                    remaining: old(self)@[id as int].remaining,
                    payload: Some(
                        ContextView {
                            cumulative: Some(cum@),
                            ..old(self)@[id as int].payload->0
                        },
                    ),
                },
            ),
    {
        let mut slot = Slot { remaining: 0, payload: None };
        self.slots.set_and_swap(id, &mut slot);
        if let Some(ctx) = slot.payload {
            let ctx2 = Context {
                mappings: ctx.mappings,
                bindings: ctx.bindings,
                cumulative_substitution: Some(cum),
            };
            slot = Slot { remaining: slot.remaining, payload: Some(ctx2) };
        }
        self.slots.set_and_swap(id, &mut slot);
        assert(self@ =~= old(self)@.update(
            id as int,
            SlotView {
                remaining: old(self)@[id as int].remaining,
                payload: Some(ContextView { cumulative: Some(cum@), ..old(self)@[id as int].payload->0 }),
            },
        ));
    }
}

/// The values of `m` rewritten through `sim` as variables: `k ↦ sim(m[k])`, or `m[k]` where
/// `sim` has no image.
pub open spec fn rewrite_values(
    m: Map<TermRef, TermRef>,
    sim: Map<TermRef, TermRef>,
) -> Map<TermRef, TermRef> {
    Map::new(|k: TermRef| m.contains_key(k), |k: TermRef| lookup_or(sim, m[k]))
}

/// The cumulative substitution of a frame whose simultaneous substitution is `sim`, inside a
/// frame whose cumulative substitution is `prev`: the keys of both, a key of `prev` keeping its
/// place with its value rewritten through `sim`.
pub open spec fn compose(
    sim: Map<TermRef, TermRef>,
    prev: Map<TermRef, TermRef>,
) -> Map<TermRef, TermRef> {
    sim.union_prefer_right(rewrite_values(prev, sim))
}

/// `c` is the cumulative substitution of a frame with these mappings, inside a frame whose
/// cumulative substitution is `prev` (`None` at the bottom of the stack).
pub open spec fn cumulative_step(
    p: Seq<TermView>,
    mappings: Seq<(TermRef, TermRef)>,
    prev: Option<Map<TermRef, TermRef>>,
    c: Map<TermRef, TermRef>,
) -> bool {
    exists|sim: Map<TermRef, TermRef>|
        is_simultaneous(p, mappings, sim) && c == compose(
            sim,
            match prev {
                Some(m) => m,
                None => Map::empty(),
            },
        )
}

/// The built frame at position `i` of a stack of slot ids.
pub open spec fn frame(r: Seq<SlotView>, ids: Seq<usize>, i: int) -> ContextView {
    r[ids[i] as int].payload->0
}

/// A stack of slot ids is ready to work on: its slots exist, hold built frames and are
/// distinct, and its first `calc` frames have their cumulative substitution.
pub open spec fn frames_ready(ids: Seq<usize>, calc: nat, r: Seq<SlotView>) -> bool {
    &&& calc <= ids.len()
    &&& forall|i: int|
        0 <= i < ids.len() ==> (#[trigger] ids[i]) < r.len() && r[ids[i] as int].payload is Some
    &&& forall|i: int, j: int|
        0 <= i < ids.len() && 0 <= j < ids.len() && i != j ==> ids[i] != ids[j]
    &&& forall|i: int| 0 <= i < calc ==> (#[trigger] frame(r, ids, i)).cumulative is Some
}

/// Frames `from..to` of the stack hold cumulative substitutions in `r`: a frame that held one in
/// `r0` keeps it, and each other one is composed from its own mappings and the frame below.
pub open spec fn chain(
    p: Seq<TermView>,
    r0: Seq<SlotView>,
    r: Seq<SlotView>,
    ids: Seq<usize>,
    from: int,
    to: int,
) -> bool {
    forall|i: int|
        from <= i < to ==> (#[trigger] frame(r, ids, i)).cumulative is Some && if frame(
            r0,
            ids,
            i,
        ).cumulative is Some {
            frame(r, ids, i).cumulative == frame(r0, ids, i).cumulative
        } else {
            cumulative_step(
                p,
                frame(r, ids, i).mappings,
                if i == 0 {
                    None
                } else {
                    frame(r, ids, i - 1).cumulative
                },
                frame(r, ids, i).cumulative->0,
            )
        }
}

/// `r2` is `r1` with new cumulative substitutions in the slots of frames `from..to`, and
/// nothing else changed.
pub open spec fn only_cumulative_changed(
    r1: Seq<SlotView>,
    r2: Seq<SlotView>,
    ids: Seq<usize>,
    from: int,
    to: int,
) -> bool {
    &&& r2.len() == r1.len()
    &&& forall|x: int|
        0 <= x < r1.len() && !(exists|i: int| from <= i < to && ids[i] == x) ==> #[trigger] r2[x]
            == r1[x]
    &&& forall|i: int|
        from <= i < to ==> #[trigger] r2[ids[i] as int] == (SlotView {
            remaining: r1[ids[i] as int].remaining,
            payload: Some(
                ContextView {
                    cumulative: r2[ids[i] as int].payload->0.cumulative,
                    ..r1[ids[i] as int].payload->0
                },
            ),
        })
}

/// The cumulative substitution of a frame with these mappings inside a frame whose cumulative
/// substitution is `prev`: the frame's simultaneous substitution, then every key of `prev` with
/// its value rewritten through it.
fn cumulative_of(
    pool: &mut TermPool,
    mappings: &Vec<(TermRef, TermRef)>,
    prev: Option<&Substitution>,
) -> (r: Substitution)
    requires
        old(pool).wf(),
        mappings_valid(old(pool)@, mappings@),
        match prev {
            Some(m) => m.wf() && subst_valid(old(pool)@, m@),
            None => true,
        },
    ensures
        final(pool).wf(),
        extends(old(pool)@, final(pool)@),
        r.wf(),
        subst_valid(final(pool)@, r@),
        cumulative_step(
            final(pool)@,
            mappings@,
            match prev {
                Some(m) => Some(m@),
                None => None,
            },
            r@,
        ),
{
    let ghost p0 = pool@;
    let simultaneous = build_simultaneous_substitution(pool, mappings);
    let mut cumulative = simultaneous.duplicate();
    proof {
        assert(rewrite_values(Map::empty(), simultaneous@) =~= Map::empty());
        assert(simultaneous@.union_prefer_right(Map::empty()) =~= simultaneous@);
    }
    if let Some(previous) = prev {
        proof {
            lemma_subst_valid_extends(p0, pool@, previous@);
        }
        let entries = previous.entries();
        let mut j: usize = 0;
        while j < entries.len()
            invariant
                pool.wf(),
                simultaneous.wf(),
                cumulative.wf(),
                subst_valid(pool@, simultaneous@),
                subst_valid(pool@, previous@),
                pairs_map(entries@) == previous@,
                keys_unique(entries@),
                0 <= j <= entries@.len(),
                cumulative@ == simultaneous@.union_prefer_right(
                    rewrite_values(pairs_map(entries@.subrange(0, j as int)), simultaneous@),
                ),
                subst_valid(pool@, cumulative@),
            decreases entries@.len() - j,
        {
            let (k, v) = entries[j];
            proof {
                assert(entries@.subrange(0, j + 1 as int).drop_last() =~= entries@.subrange(0, j as int));
                lemma_pairs_map_at(entries@, j as int);
            }
            let value = match simultaneous.get(v) {
                Some(new_value) => new_value,
                None => v,
            };
            cumulative.set(k, value);
            j = j + 1;
            assert(cumulative@ =~= simultaneous@.union_prefer_right(
                rewrite_values(pairs_map(entries@.subrange(0, j as int)), simultaneous@),
            ));
        }
        assert(entries@.subrange(0, j as int) =~= entries@);
    }
    cumulative
}

/// The registry after frame `i` of `ids` gets the cumulative substitution `c`.
pub open spec fn with_cumulative(
    r: Seq<SlotView>,
    id: int,
    c: Map<TermRef, TermRef>,
) -> Seq<SlotView> {
    r.update(
        id,
        SlotView {
            remaining: r[id].remaining,
            payload: Some(ContextView { cumulative: Some(c), ..r[id].payload->0 }),
        },
    )
}

pub proof fn lemma_cumulative_step_extends(
    p: Seq<TermView>,
    q: Seq<TermView>,
    mappings: Seq<(TermRef, TermRef)>,
    prev: Option<Map<TermRef, TermRef>>,
    c: Map<TermRef, TermRef>,
)
    requires
        pool_wf(p),
        pool_wf(q),
        extends(p, q),
        mappings_valid(p, mappings),
        cumulative_step(p, mappings, prev, c),
    ensures
        cumulative_step(q, mappings, prev, c),
{
    let sim = choose|sim: Map<TermRef, TermRef>|
        is_simultaneous(p, mappings, sim) && c == compose(
            sim,
            match prev {
                Some(m) => m,
                None => Map::empty(),
            },
        );
    lemma_simultaneous_extends(p, q, mappings, sim);
}

proof fn lemma_catch_up_step(
    p: Seq<TermView>,
    q: Seq<TermView>,
    r0: Seq<SlotView>,
    rb: Seq<SlotView>,
    ids: Seq<usize>,
    from: int,
    i: int,
    c: Map<TermRef, TermRef>,
)
    requires
        pool_wf(p),
        pool_wf(q),
        extends(p, q),
        0 <= from <= i < ids.len(),
        registry_valid(p, rb),
        frames_ready(ids, i as nat, rb),
        only_cumulative_changed(r0, rb, ids, from, i),
        chain(p, r0, rb, ids, from, i),
        frame(rb, ids, i).cumulative is None,
        subst_valid(q, c),
        cumulative_step(
            q,
            frame(rb, ids, i).mappings,
            if i == 0 {
                None
            } else {
                frame(rb, ids, i - 1).cumulative
            },
            c,
        ),
    ensures
        registry_valid(q, with_cumulative(rb, ids[i] as int, c)),
        frames_ready(ids, (i + 1) as nat, with_cumulative(rb, ids[i] as int, c)),
        only_cumulative_changed(r0, with_cumulative(rb, ids[i] as int, c), ids, from, i + 1),
        chain(q, r0, with_cumulative(rb, ids[i] as int, c), ids, from, i + 1),
{
    let r2 = with_cumulative(rb, ids[i] as int, c);
    let id = ids[i] as int;
    assert(ids[i] < rb.len());
    lemma_registry_valid_extends(p, q, rb);
    assert forall|x: int| 0 <= x < r2.len() && (#[trigger] r2[x]).payload is Some implies context_valid(
        q,
        r2[x].payload->0,
    ) by {
        if x == id {
            assert(rb[x].payload is Some);
        } else {
            assert(r2[x] == rb[x]);
        }
    }
    assert forall|j: int| 0 <= j < i + 1 implies (#[trigger] frame(r2, ids, j)).cumulative is Some by {
        if j < i {
            assert(ids[j] != ids[i]);
            assert(frame(rb, ids, j).cumulative is Some);
        }
    }
    assert forall|x: int|
        0 <= x < r0.len() && !(exists|j: int| from <= j < i + 1 && ids[j] == x) implies #[trigger] r2[x]
        == r0[x] by {
        assert(!(exists|j: int| from <= j < i && ids[j] == x));
        assert(x != id);
    }
    assert forall|j: int| from <= j < i + 1 implies #[trigger] r2[ids[j] as int] == (SlotView {
        remaining: r0[ids[j] as int].remaining,
        payload: Some(
            ContextView {
                cumulative: r2[ids[j] as int].payload->0.cumulative,
                ..r0[ids[j] as int].payload->0
            },
        ),
    }) by {
        if j < i {
            assert(ids[j] != ids[i]);
        } else {
            assert(!(exists|k: int| from <= k < i && ids[k] == ids[i] as int)) by {
                if exists|k: int| from <= k < i && ids[k] == ids[i] as int {
                    let k = choose|k: int| from <= k < i && ids[k] == ids[i] as int;
                    assert(ids[k] != ids[i]);
                }
            }
            assert(rb[id] == r0[id]);
        }
    }
    assert forall|j: int| from <= j < i + 1 implies (#[trigger] frame(r2, ids, j)).cumulative is Some
        && if frame(r0, ids, j).cumulative is Some {
        frame(r2, ids, j).cumulative == frame(r0, ids, j).cumulative
    } else {
        cumulative_step(
            q,
            frame(r2, ids, j).mappings,
            if j == 0 {
                None
            } else {
                frame(r2, ids, j - 1).cumulative
            },
            frame(r2, ids, j).cumulative->0,
        )
    } by {
        if j < i {
            assert(ids[j] != ids[i]);
            assert(frame(r2, ids, j) == frame(rb, ids, j));
            if j > 0 {
                assert(ids[j - 1] != ids[i]);
                assert(frame(r2, ids, j - 1) == frame(rb, ids, j - 1));
            }
            assert(frame(rb, ids, j).cumulative is Some);
            assert(context_valid(p, rb[ids[j] as int].payload->0));
            if frame(r0, ids, j).cumulative is None {
            lemma_cumulative_step_extends(
                p,
                q,
                frame(rb, ids, j).mappings,
                if j == 0 {
                    None
                } else {
                    frame(rb, ids, j - 1).cumulative
                },
                frame(rb, ids, j).cumulative->0,
            );
            }
        } else {
            assert(!(exists|k: int| from <= k < i && ids[k] == ids[i] as int)) by {
                if exists|k: int| from <= k < i && ids[k] == ids[i] as int {
                    let k = choose|k: int| from <= k < i && ids[k] == ids[i] as int;
                    assert(ids[k] != ids[i]);
                }
            }
            assert(rb[id] == r0[id]);
            if j > 0 {
                assert(ids[j - 1] != ids[i]);
                assert(frame(r2, ids, j - 1) == frame(rb, ids, j - 1));
            }
        }
    }
}

proof fn lemma_catch_up_skip(
    p: Seq<TermView>,
    r0: Seq<SlotView>,
    rb: Seq<SlotView>,
    ids: Seq<usize>,
    from: int,
    i: int,
)
    requires
        0 <= from <= i < ids.len(),
        frames_ready(ids, i as nat, rb),
        only_cumulative_changed(r0, rb, ids, from, i),
        chain(p, r0, rb, ids, from, i),
        frame(rb, ids, i).cumulative is Some,
    ensures
        frames_ready(ids, (i + 1) as nat, rb),
        only_cumulative_changed(r0, rb, ids, from, i + 1),
        chain(p, r0, rb, ids, from, i + 1),
{
    let id = ids[i] as int;
    assert(ids[i] < rb.len());
    assert(!(exists|k: int| from <= k < i && ids[k] == ids[i] as int)) by {
        if exists|k: int| from <= k < i && ids[k] == ids[i] as int {
            let k = choose|k: int| from <= k < i && ids[k] == ids[i] as int;
            assert(ids[k] != ids[i]);
        }
    }
    assert(rb[id] == r0[id]);
    assert forall|j: int| 0 <= j < i + 1 implies (#[trigger] frame(rb, ids, j)).cumulative is Some by {
    }
    assert forall|x: int|
        0 <= x < r0.len() && !(exists|j: int| from <= j < i + 1 && ids[j] == x) implies #[trigger] rb[x]
        == r0[x] by {
        assert(!(exists|j: int| from <= j < i && ids[j] == x));
    }
    assert forall|j: int| from <= j < i + 1 implies #[trigger] rb[ids[j] as int] == (SlotView {
        remaining: r0[ids[j] as int].remaining,
        payload: Some(
            ContextView {
                cumulative: rb[ids[j] as int].payload->0.cumulative,
                ..r0[ids[j] as int].payload->0
            },
        ),
    }) by {
        if j == i {
            assert(rb[id].payload is Some);
        }
    }
}

proof fn lemma_frame_step_extends(
    p: Seq<TermView>,
    q: Seq<TermView>,
    r: Seq<SlotView>,
    ids: Seq<usize>,
    i: int,
)
    requires
        pool_wf(p),
        pool_wf(q),
        extends(p, q),
        registry_valid(p, r),
        0 <= i < ids.len(),
        ids[i] < r.len(),
        r[ids[i] as int].payload is Some,
        frame(r, ids, i).cumulative is Some,
        cumulative_step(
            p,
            frame(r, ids, i).mappings,
            if i == 0 {
                None
            } else {
                frame(r, ids, i - 1).cumulative
            },
            frame(r, ids, i).cumulative->0,
        ),
    ensures
        cumulative_step(
            q,
            frame(r, ids, i).mappings,
            if i == 0 {
                None
            } else {
                frame(r, ids, i - 1).cumulative
            },
            frame(r, ids, i).cumulative->0,
        ),
{
    let x = ids[i] as int;
    assert(context_valid(p, r[x].payload->0));
    lemma_cumulative_step_extends(
        p,
        q,
        frame(r, ids, i).mappings,
        if i == 0 {
            None
        } else {
            frame(r, ids, i - 1).cumulative
        },
        frame(r, ids, i).cumulative->0,
    );
}

pub proof fn lemma_chain_extends(
    p: Seq<TermView>,
    q: Seq<TermView>,
    r0: Seq<SlotView>,
    r: Seq<SlotView>,
    ids: Seq<usize>,
    from: int,
    to: int,
)
    requires
        pool_wf(p),
        pool_wf(q),
        extends(p, q),
        registry_valid(p, r),
        forall|i: int| 0 <= i < ids.len() ==> (#[trigger] ids[i]) < r.len() && r[ids[i] as int].payload is Some,
        0 <= from,
        to <= ids.len(),
        chain(p, r0, r, ids, from, to),
    ensures
        chain(q, r0, r, ids, from, to),
{
    assert forall|i: int| from <= i < to implies (#[trigger] frame(r, ids, i)).cumulative is Some
        && if frame(r0, ids, i).cumulative is Some {
        frame(r, ids, i).cumulative == frame(r0, ids, i).cumulative
    } else {
        cumulative_step(
            q,
            frame(r, ids, i).mappings,
            if i == 0 {
                None
            } else {
                frame(r, ids, i - 1).cumulative
            },
            frame(r, ids, i).cumulative->0,
        )
    } by {
        if frame(r0, ids, i).cumulative is None {
            lemma_frame_step_extends(p, q, r, ids, i);
        }
    }
}

/// Interns a variable named `name` of sort `sort`.
fn intern_var(pool: &mut TermPool, name: &String, sort: TermRef) -> (r: TermRef)
    requires
        old(pool).wf(),
        in_pool(old(pool)@, sort),
    ensures
        final(pool).wf(),
        extends(old(pool)@, final(pool)@),
        is_var(final(pool)@, r),
        final(pool)@[r.0 as int] == TermView::Var(name@, sort),
        sort_of(final(pool)@, r) == sort,
{
    pool.add(Term::Var(name.clone(), sort))
}

/// The mappings of a frame built from `args`: the `i`-th pairs the variable named `args[i].0`,
/// of the sort of the value, with the value `args[i].1`.
pub open spec fn built_mappings(
    p: Seq<TermView>,
    args: Seq<SortedVar>,
    m: Seq<(TermRef, TermRef)>,
) -> bool {
    &&& m.len() == args.len()
    &&& forall|i: int|
        0 <= i < m.len() ==> (#[trigger] m[i]).1 == args[i].1 && is_var(p, m[i].0) && p[m[i].0.0 as int]
            == TermView::Var(args[i].0@, sort_of(p, args[i].1))
}

/// The bindings of a frame built from `vars`: the positions of the variables they declare.
pub open spec fn built_bindings(p: Seq<TermView>, vars: Seq<SortedVar>, b: Set<usize>) -> bool {
    &&& forall|i: int|
        0 <= i < vars.len() ==> exists|x: usize|
            #[trigger] b.contains(x) && x < p.len() && p[x as int] == TermView::Var(
                (#[trigger] vars[i]).0@,
                vars[i].1,
            )
    &&& forall|x: usize|
        #[trigger] b.contains(x) ==> x < p.len() && exists|i: int|
            0 <= i < vars.len() && p[x as int] == TermView::Var(
                (#[trigger] vars[i]).0@,
                vars[i].1,
            )
}

proof fn lemma_built_bindings_step(
    p: Seq<TermView>,
    q: Seq<TermView>,
    vars: Seq<SortedVar>,
    k: int,
    before: Set<usize>,
    after: Set<usize>,
    x: usize,
)
    requires
        extends(p, q),
        0 <= k < vars.len(),
        built_bindings(p, vars.subrange(0, k), before),
        after == before.insert(x),
        x < q.len(),
        q[x as int] == TermView::Var(vars[k].0@, vars[k].1),
    ensures
        built_bindings(q, vars.subrange(0, k + 1), after),
{
    let a = vars.subrange(0, k + 1);
    let b = vars.subrange(0, k);
    assert forall|i: int| 0 <= i < a.len() implies exists|y: usize|
        #[trigger] after.contains(y) && y < q.len() && q[y as int] == TermView::Var(
            (#[trigger] a[i]).0@,
            a[i].1,
        ) by {
        if i < k {
            assert(a[i] == b[i]);
            let y = choose|y: usize|
                #[trigger] before.contains(y) && y < p.len() && p[y as int] == TermView::Var(
                    (#[trigger] b[i]).0@,
                    b[i].1,
                );
            assert(after.contains(y) && q[y as int] == p[y as int]);
        } else {
            assert(after.contains(x));
        }
    }
    assert forall|y: usize| #[trigger] after.contains(y) implies y < q.len() && exists|i: int|
        0 <= i < a.len() && q[y as int] == TermView::Var((#[trigger] a[i]).0@, a[i].1) by {
        if y == x {
            assert(a[k] == vars[k]);
        } else {
            assert(before.contains(y));
            let i = choose|i: int|
                0 <= i < b.len() && p[y as int] == TermView::Var((#[trigger] b[i]).0@, b[i].1);
            assert(a[i] == b[i]);
            assert(q[y as int] == p[y as int]);
        }
    }
}

/// Per-worker stack of the subproofs it is inside, as ids of registry slots.
pub struct ContextStack {
    stack: Vec<usize>,
    num_cumulative_calculated: usize,
}

impl ContextStack {
    /// The slot ids of the open subproofs, outermost first.
    pub closed spec fn ids(&self) -> Seq<usize> {
        self.stack@
    }

    /// How many frames, from the bottom, have their cumulative substitution computed.
    pub closed spec fn calculated(&self) -> nat {
        self.num_cumulative_calculated as nat
    }

    /// An empty stack.
    pub fn new() -> (r: ContextStack)
        ensures
            r.ids() == Seq::<usize>::empty(),
            r.calculated() == 0,
    {
        ContextStack { stack: Vec::new(), num_cumulative_calculated: 0 }
    }

    /// An empty stack, with a registry of one empty slot per anchor; slot `i` will be left by
    /// `context_usage[i]` workers.
    pub fn from_usage(context_usage: &Vec<usize>) -> (r: (ContextStack, ContextRegistry))
        ensures
            r.0.ids() == Seq::<usize>::empty(),
            r.0.calculated() == 0,
            r.1.wf(),
            r.1@.len() == context_usage@.len(),
            forall|i: int|
                0 <= i < context_usage@.len() ==> #[trigger] r.1@[i] == (SlotView {
                    remaining: context_usage@[i] as nat,
                    payload: None,
                }),
    {
        (ContextStack::new(), ContextRegistry::from_usage(context_usage))
    }

    /// A new empty stack for another worker over the same registry.
    pub fn from_previous(&self) -> (r: ContextStack)
        ensures
            r.ids() == Seq::<usize>::empty(),
            r.calculated() == 0,
    {
        ContextStack::new()
    }

    /// Number of open subproofs.
    pub fn len(&self) -> (r: usize)
        ensures
            r == self.ids().len(),
    {
        self.stack.len()
    }

    /// Whether no subproof is open.
    pub fn is_empty(&self) -> (r: bool)
        ensures
            r == (self.ids().len() == 0),
    {
        self.len() == 0
    }

    /// The slot id of the innermost open subproof.
    pub fn top(&self) -> (r: Option<usize>)
        ensures
            r == if self.ids().len() == 0 {
                None
            } else {
                Some(self.ids().last())
            },
    {
        if self.stack.len() == 0 {
            None
        } else {
            Some(self.stack[self.stack.len() - 1])
        }
    }

    /// The frame of the innermost open subproof, if it is built.
    pub fn last<'a>(&self, registry: &'a ContextRegistry) -> (r: Option<&'a Context>)
        requires
            forall|i: int| 0 <= i < self.ids().len() ==> #[trigger] self.ids()[i] < registry@.len(),
        ensures
            self.ids().len() == 0 ==> r is None,
            self.ids().len() > 0 ==> match r {
                Some(c) => registry@[self.ids().last() as int].payload == Some(c@),
                None => registry@[self.ids().last() as int].payload is None,
            },
    {
        if self.stack.len() == 0 {
            None
        } else {
            let id = self.stack[self.stack.len() - 1];
            registry.context(id)
        }
    }

    /// Enters the subproof of anchor `context_id`. If its slot holds no frame yet, this worker
    /// builds it: each assignment `(name, value)` becomes the mapping of the variable `name`, of
    /// the value's sort, to `value`, and each declared variable is bound. A built slot is left
    /// as it is.
    pub fn push(
        &mut self,
        registry: &mut ContextRegistry,
        pool: &mut TermPool,
        assignment_args: &Vec<SortedVar>,
        variable_args: &Vec<SortedVar>,
        context_id: usize,
    ) -> (r: Result<(), SubstitutionError>)
        requires
            old(pool).wf(),
            old(registry).wf(),
            registry_valid(old(pool)@, old(registry)@),
            context_id < old(registry)@.len(),
            forall|i: int|
                0 <= i < assignment_args@.len() ==> in_pool(old(pool)@, (#[trigger] assignment_args@[i]).1),
            forall|i: int|
                0 <= i < variable_args@.len() ==> in_pool(old(pool)@, (#[trigger] variable_args@[i]).1),
        ensures
            r is Ok,
            final(self).ids() == old(self).ids().push(context_id),
            final(self).calculated() == old(self).calculated(),
            final(pool).wf(),
            extends(old(pool)@, final(pool)@),
            final(registry).wf(),
            registry_valid(final(pool)@, final(registry)@),
            final(registry)@ == old(registry)@.update(
                context_id as int,
                slot_after_push(
                    old(registry)@[context_id as int],
                    final(registry)@[context_id as int].payload->0,
                ),
            ),
            old(registry)@[context_id as int].payload is Some ==> final(pool)@ == old(pool)@,
            old(registry)@[context_id as int].payload is None ==> {
                let c = final(registry)@[context_id as int].payload->0;
                &&& built_mappings(final(pool)@, assignment_args@, c.mappings)
                &&& built_bindings(final(pool)@, variable_args@, c.bindings)
                &&& c.cumulative is None
            },
    {
        if registry.context(context_id).is_none() {
            let ghost p0 = pool@;
            let mut mappings: Vec<(TermRef, TermRef)> = Vec::new();
            let mut i: usize = 0;
            while i < assignment_args.len()
                invariant
                    pool.wf(),
                    pool_wf(p0),
                    extends(p0, pool@),
                    0 <= i <= assignment_args@.len(),
                    forall|j: int|
                        0 <= j < assignment_args@.len() ==> in_pool(p0, (#[trigger] assignment_args@[j]).1),
                    built_mappings(pool@, assignment_args@.subrange(0, i as int), mappings@),
                    mappings_valid(pool@, mappings@),
                decreases assignment_args@.len() - i,
            {
                let ghost pb = pool@;
                let value = assignment_args[i].1;
                let sort = pool.sort(value);
                let var = intern_var(pool, &assignment_args[i].0, sort);
                proof {
                    lemma_sort_of_extends(pb, pool@, value);
                    lemma_mappings_valid_extends(pb, pool@, mappings@);
                    assert forall|j: int| 0 <= j < i implies is_var(pool@, (#[trigger] mappings@[j]).0)
                        && pool@[mappings@[j].0.0 as int] == TermView::Var(
                        assignment_args@[j].0@,
                        sort_of(pool@, assignment_args@[j].1),
                    ) by {
                        assert(assignment_args@.subrange(0, i as int)[j] == assignment_args@[j]);
                        lemma_sort_of_extends(p0, pool@, assignment_args@[j].1);
                        lemma_sort_of_extends(p0, pb, assignment_args@[j].1);
                    }
                }
                mappings.push((var, value));
                i = i + 1;
                proof {
                    let a = assignment_args@.subrange(0, i as int);
                    assert forall|j: int| 0 <= j < mappings@.len() implies (#[trigger] mappings@[j]).1
                        == a[j].1 && is_var(pool@, mappings@[j].0) && pool@[mappings@[j].0.0 as int]
                        == TermView::Var(a[j].0@, sort_of(pool@, a[j].1)) by {
                        if j < i - 1 {
                            assert(a[j] == assignment_args@[j]);
                        }
                    }
                }
            }
            assert(assignment_args@.subrange(0, i as int) =~= assignment_args@);
            let ghost p1 = pool@;
            let mut bindings = new_position_set();
            let mut k: usize = 0;
            while k < variable_args.len()
                invariant
                    pool.wf(),
                    extends(p1, pool@),
                    extends(p0, pool@),
                    0 <= k <= variable_args@.len(),
                    forall|j: int|
                        0 <= j < variable_args@.len() ==> in_pool(p0, (#[trigger] variable_args@[j]).1),
                    built_bindings(pool@, variable_args@.subrange(0, k as int), position_set(bindings)),
                decreases variable_args@.len() - k,
            {
                let ghost pb = pool@;
                let ghost before = position_set(bindings);
                let v = intern_var(pool, &variable_args[k].0, variable_args[k].1);
                insert_position(&mut bindings, v.0);
                k = k + 1;
                proof {
                    lemma_built_bindings_step(pb, pool@, variable_args@, (k - 1) as int, before, position_set(bindings), v.0);
                }
            }
            assert(variable_args@.subrange(0, k as int) =~= variable_args@);
            proof {
                lemma_mappings_valid_extends(p1, pool@, mappings@);
                assert forall|j: int| 0 <= j < mappings@.len() implies (#[trigger] mappings@[j]).1
                    == assignment_args@[j].1 && is_var(pool@, mappings@[j].0) && pool@[mappings@[j].0.0 as int]
                    == TermView::Var(assignment_args@[j].0@, sort_of(pool@, assignment_args@[j].1)) by {
                    lemma_sort_of_extends(p1, pool@, assignment_args@[j].1);
                }
                lemma_registry_valid_extends(p0, pool@, registry@);
            }
            let ctx = Context { mappings, bindings, cumulative_substitution: None };
            registry.install(context_id, ctx);
        }
        self.stack.push(context_id);
        Ok(())
    }

    /// What [`ContextStack::catch_up_cumulative`] does: the stack is unchanged but for its
    /// counter, which reaches the top; the pool only grows; the frames that lacked a cumulative
    /// substitution get one, composed from their mappings and the frame below, and nothing else
    /// in the registry changes.
    pub open spec fn caught_up(
        s1: ContextStack,
        s2: ContextStack,
        r1: Seq<SlotView>,
        r2: Seq<SlotView>,
        p1: Seq<TermView>,
        p2: Seq<TermView>,
    ) -> bool {
        &&& s2.ids() == s1.ids()
        &&& s2.calculated() == s1.ids().len()
        &&& pool_wf(p2)
        &&& extends(p1, p2)
        &&& registry_valid(p2, r2)
        &&& frames_ready(s2.ids(), s2.calculated(), r2)
        &&& only_cumulative_changed(r1, r2, s1.ids(), s1.calculated() as int, s1.ids().len() as int)
        &&& chain(p2, r1, r2, s1.ids(), s1.calculated() as int, s1.ids().len() as int)
        &&& s1.calculated() == s1.ids().len() ==> r2 == r1
    }

    pub proof fn lemma_caught_up_extends(
        s1: ContextStack,
        s2: ContextStack,
        r1: Seq<SlotView>,
        r2: Seq<SlotView>,
        p0: Seq<TermView>,
        p1: Seq<TermView>,
        p2: Seq<TermView>,
    )
        requires
            Self::caught_up(s1, s2, r1, r2, p0, p1),
            extends(p1, p2),
            pool_wf(p2),
        ensures
            Self::caught_up(s1, s2, r1, r2, p0, p2),
    {
        lemma_registry_valid_extends(p1, p2, r2);
        lemma_chain_extends(p1, p2, r1, r2, s1.ids(), s1.calculated() as int, s1.ids().len() as int);
    }

    /// Computes the cumulative substitution of every open frame that lacks it, from the
    /// bottom up to the top of the stack (`up_to` names a frame that must be reached). Frames
    /// already computed are not computed again.
    pub fn catch_up_cumulative(
        &mut self,
        registry: &mut ContextRegistry,
        pool: &mut TermPool,
        up_to: usize,
    )
        requires
            old(pool).wf(),
            old(registry).wf(),
            registry_valid(old(pool)@, old(registry)@),
            frames_ready(old(self).ids(), old(self).calculated(), old(registry)@),
            up_to < old(self).ids().len(),
        ensures
            Self::caught_up(
                *old(self),
                *final(self),
                old(registry)@,
                final(registry)@,
                old(pool)@,
                final(pool)@,
            ),
            final(registry).wf(),
            old(self).calculated() == old(self).ids().len() ==> final(pool)@ == old(pool)@,
    {
        let ghost ids = self.stack@;
        let ghost from = self.num_cumulative_calculated as int;
        let ghost r0 = registry@;
        let ghost p0 = pool@;
        let mut i: usize = self.num_cumulative_calculated;
        assert(registry@ =~= r0);
        while i < self.stack.len()
            invariant
                self.stack@ == ids,
                self.num_cumulative_calculated == i,
                0 <= from <= i <= ids.len(),
                pool.wf(),
                extends(p0, pool@),
                registry.wf(),
                registry_valid(pool@, registry@),
                frames_ready(ids, i as nat, registry@),
                only_cumulative_changed(r0, registry@, ids, from, i as int),
                chain(pool@, r0, registry@, ids, from, i as int),
                i == from ==> registry@ == r0 && pool@ == p0,
            decreases ids.len() - i,
        {
            let id = self.stack[i];
            let ghost pb = pool@;
            let ghost rb = registry@;
            assert(id < rb.len());
            let installed = match registry.context(id) {
                Some(ctx) => ctx.cumulative_substitution.is_some(),
                None => true,
            };
            if installed {
                proof {
                    lemma_catch_up_skip(pb, r0, rb, ids, from, i as int);
                }
            } else {
                let cum = match registry.context(id) {
                    Some(ctx) => {
                        assert(context_valid(pb, rb[id as int].payload->0));
                        let prev: Option<&Substitution> = if i == 0 {
                            None
                        } else {
                            assert(frame(rb, ids, i - 1).cumulative is Some);
                            match registry.context(self.stack[i - 1]) {
                                Some(pc) => match &pc.cumulative_substitution {
                                    Some(m) => Some(m),
                                    None => None,
                                },
                                None => None,
                            }
                        };
                        proof {
                            if i > 0 {
                                assert(context_valid(pb, rb[ids[i - 1] as int].payload->0));
                            }
                        }
                        cumulative_of(pool, &ctx.mappings, prev)
                    },
                    None => Substitution::empty(),
                };
                registry.set_cumulative(id, cum);
                proof {
                    assert(registry@ == with_cumulative(rb, id as int, cum@));
                    lemma_catch_up_step(pb, pool@, r0, rb, ids, from, i as int, cum@);
                }
            }
            i = i + 1;
            self.num_cumulative_calculated = i;
        }
    }

    /// Rewrites `term` by the cumulative substitution of the frame at `index`, computing the
    /// missing cumulative substitutions first.
    fn apply_at(
        &mut self,
        registry: &mut ContextRegistry,
        pool: &mut TermPool,
        term: TermRef,
        index: usize,
    ) -> (r: TermRef)
        requires
            old(pool).wf(),
            in_pool(old(pool)@, term),
            old(registry).wf(),
            registry_valid(old(pool)@, old(registry)@),
            frames_ready(old(self).ids(), old(self).calculated(), old(registry)@),
            index < old(self).ids().len(),
        ensures
            Self::caught_up(
                *old(self),
                *final(self),
                old(registry)@,
                final(registry)@,
                old(pool)@,
                final(pool)@,
            ),
            final(registry).wf(),
            applied(
                final(pool)@,
                frame(final(registry)@, old(self).ids(), index as int).cumulative->0,
                term,
                r,
            ),
    {
        self.catch_up_cumulative(registry, pool, index);
        let ghost p1 = pool@;
        let id = self.stack[index];
        assert(self.ids()[index as int] == id);
        let r = registry.apply_cumulative(id, pool, term);
        proof {
            Self::lemma_caught_up_extends(
                *old(self),
                *self,
                old(registry)@,
                registry@,
                old(pool)@,
                p1,
                pool@,
            );
        }
        r
    }

    /// Rewrites `term` by the cumulative substitution of the innermost open subproof; with no
    /// subproof open, `term` is returned as it is.
    pub fn apply(&mut self, registry: &mut ContextRegistry, pool: &mut TermPool, term: TermRef) -> (r:
        TermRef)
        requires
            old(pool).wf(),
            in_pool(old(pool)@, term),
            old(registry).wf(),
            registry_valid(old(pool)@, old(registry)@),
            frames_ready(old(self).ids(), old(self).calculated(), old(registry)@),
        ensures
            old(self).ids().len() == 0 ==> r == term && *final(self) == *old(self)
                && final(registry)@ == old(registry)@ && final(pool)@ == old(pool)@,
            final(registry).wf(),
            old(self).ids().len() > 0 ==> Self::caught_up(
                *old(self),
                *final(self),
                old(registry)@,
                final(registry)@,
                old(pool)@,
                final(pool)@,
            ) && applied(
                final(pool)@,
                frame(final(registry)@, old(self).ids(), old(self).ids().len() - 1).cumulative->0,
                term,
                r,
            ),
    {
        if self.is_empty() {
            term
        } else {
            let index = self.len() - 1;
            self.apply_at(registry, pool, term, index)
        }
    }

    /// Rewrites `term` by the cumulative substitution of the subproof enclosing the innermost
    /// one; with fewer than two subproofs open, `term` is returned as it is.
    pub fn apply_previous(
        &mut self,
        registry: &mut ContextRegistry,
        pool: &mut TermPool,
        term: TermRef,
    ) -> (r: TermRef)
        requires
            old(pool).wf(),
            in_pool(old(pool)@, term),
            old(registry).wf(),
            registry_valid(old(pool)@, old(registry)@),
            frames_ready(old(self).ids(), old(self).calculated(), old(registry)@),
        ensures
            old(self).ids().len() < 2 ==> r == term && *final(self) == *old(self)
                && final(registry)@ == old(registry)@ && final(pool)@ == old(pool)@,
            final(registry).wf(),
            old(self).ids().len() >= 2 ==> Self::caught_up(
                *old(self),
                *final(self),
                old(registry)@,
                final(registry)@,
                old(pool)@,
                final(pool)@,
            ) && applied(
                final(pool)@,
                frame(final(registry)@, old(self).ids(), old(self).ids().len() - 2).cumulative->0,
                term,
                r,
            ),
    {
        if self.len() < 2 {
            term
        } else {
            let index = self.len() - 2;
            self.apply_at(registry, pool, term, index)
        }
    }

    /// Leaves the innermost subproof: its slot has one user fewer, and the last user drops the
    /// frame. Computed cumulative substitutions are kept for the frames still open.
    pub fn pop(&mut self, registry: &mut ContextRegistry)
        requires
            old(registry).wf(),
            old(self).ids().len() > 0 ==> old(self).ids().last() < old(registry)@.len() && old(
                registry,
            )@[old(self).ids().last() as int].remaining > 0,
        ensures
            final(registry).wf(),
            old(self).ids().len() == 0 ==> final(self).ids() == old(self).ids() && final(registry)@
                == old(registry)@,
            old(self).ids().len() > 0 ==> final(self).ids() == old(self).ids().drop_last()
                && final(registry)@ == old(registry)@.update(
                old(self).ids().last() as int,
                slot_after_pop(old(registry)@[old(self).ids().last() as int]),
            ),
            final(self).calculated() == if old(self).calculated() < final(self).ids().len() {
                old(self).calculated()
            } else {
                final(self).ids().len() as nat
            },
    {
        if let Some(id) = self.stack.pop() {
            registry.release(id);
        }
        if self.stack.len() < self.num_cumulative_calculated {
            self.num_cumulative_calculated = self.stack.len();
        }
    }
}

/// Composition works variable by variable: a variable rewritten by the cumulative substitution
/// of a frame is the variable rewritten by the frame below, then by the frame's own
/// simultaneous substitution.
pub proof fn law_compose_lookup(sim: Map<TermRef, TermRef>, prev: Map<TermRef, TermRef>, x: TermRef)
    ensures
        lookup_or(compose(sim, prev), x) == lookup_or(sim, lookup_or(prev, x)),
{
}

/// Compositionality of rewriting: rewriting a variable `t` by `compose(sim, prev)` gives what
/// rewriting it by `prev`, then by `sim`, gives, when the first step yields a variable.
pub proof fn law_apply_compositional(
    p: Seq<TermView>,
    sim: Map<TermRef, TermRef>,
    prev: Map<TermRef, TermRef>,
    t: TermRef,
    r_prev: TermRef,
    r_sim: TermRef,
    r: TermRef,
)
    requires
        p[t.0 as int] is Var,
        applied(p, prev, t, r_prev),
        p[r_prev.0 as int] is Var,
        applied(p, sim, r_prev, r_sim),
        applied(p, compose(sim, prev), t, r),
    ensures
        r == r_sim,
{
    law_compose_lookup(sim, prev, t);
}

/// Compositionality along a stack: for every frame `i` whose cumulative substitution was
/// computed by catching up from registry `r0` (where it had none), there is a simultaneous substitution `sim` of its mappings such that
/// rewriting any variable `x` by the frame's cumulative substitution equals rewriting `x` by the
/// frame below (not at all below the bottom frame), then by `sim`.
pub proof fn law_compositionality(
    p: Seq<TermView>,
    r0: Seq<SlotView>,
    r: Seq<SlotView>,
    ids: Seq<usize>,
    from: int,
    i: int,
    x: TermRef,
)
    requires
        frames_ready(ids, ids.len(), r),
        chain(p, r0, r, ids, from, ids.len() as int),
        0 <= from <= i < ids.len(),
        frame(r0, ids, i).cumulative is None,
    ensures
        exists|sim: Map<TermRef, TermRef>|
            is_simultaneous(p, frame(r, ids, i).mappings, sim) && lookup_or(
                frame(r, ids, i).cumulative->0,
                x,
            ) == lookup_or(
                sim,
                if i == 0 {
                    x
                } else {
                    lookup_or(frame(r, ids, i - 1).cumulative->0, x)
                },
            ),
{
    assert(frame(r, ids, i).cumulative is Some);
    let prev = if i == 0 {
        None
    } else {
        frame(r, ids, i - 1).cumulative
    };
    if i > 0 {
        assert(frame(r, ids, i - 1).cumulative is Some);
    }
    let prev_map = match prev {
        Some(m) => m,
        None => Map::<TermRef, TermRef>::empty(),
    };
    let sim = choose|sim: Map<TermRef, TermRef>|
        is_simultaneous(p, frame(r, ids, i).mappings, sim) && frame(r, ids, i).cumulative->0
            == compose(sim, prev_map);
    law_compose_lookup(sim, prev_map, x);
}

/// A single mapping `x ↦ e` builds the simultaneous substitution that maps `x` to `e` itself.
pub proof fn law_simultaneous_of_one(p: Seq<TermView>, x: TermRef, e: TermRef, sim: Map<TermRef, TermRef>)
    requires
        pool_wf(p),
        is_simultaneous(p, seq![(x, e)], sim),
    ensures
        sim == map![x => e],
{
    let m = seq![(x, e)];
    let vals = choose|vals: Seq<TermRef>|
        simultaneous_values(p, m, vals) && sim == prefix_subst(m, vals, m.len() as int);
    assert(applied(p, prefix_subst(m, vals, 0), m[0].1, vals[0]));
    assert(prefix_subst(m, vals, 0) == Map::<TermRef, TermRef>::empty());
    lemma_applied_empty(p, e, vals[0]);
    assert(sim =~= map![x => e]);
}

/// Rewriting by a stack twice in a row, with no push or pop between, gives the same handle:
/// the second call finds every frame computed and rewrites by the same substitution.
pub proof fn law_apply_repeatable(
    s1: ContextStack,
    s2: ContextStack,
    s3: ContextStack,
    r1: Seq<SlotView>,
    r2: Seq<SlotView>,
    r3: Seq<SlotView>,
    p1: Seq<TermView>,
    p2: Seq<TermView>,
    p3: Seq<TermView>,
    t: TermRef,
    x1: TermRef,
    x2: TermRef,
)
    requires
        s1.ids().len() > 0,
        ContextStack::caught_up(s1, s2, r1, r2, p1, p2),
        applied(p2, frame(r2, s1.ids(), s1.ids().len() - 1).cumulative->0, t, x1),
        ContextStack::caught_up(s2, s3, r2, r3, p2, p3),
        applied(p3, frame(r3, s2.ids(), s2.ids().len() - 1).cumulative->0, t, x2),
    ensures
        x1 == x2,
        r3 == r2,
{
    let ids = s1.ids();
    let n = ids.len() - 1;
    assert(ids[n] < r2.len());
    assert(r2[ids[n] as int].payload is Some);
    assert(frame(r2, ids, n as int).cumulative is Some);
    assert(context_valid(p2, r2[ids[n] as int].payload->0));
    let c = frame(r2, ids, n as int).cumulative->0;
    assert(map_in_pool(p2, c));
    law_apply_deterministic(p2, p3, c, t, x1, x2);
}

/// The slot after a sequence of workers enter it, the `k`-th with frame `built[k]`.
pub open spec fn after_entries(s: SlotView, built: Seq<ContextView>) -> SlotView
    decreases built.len(),
{
    if built.len() == 0 {
        s
    } else {
        slot_after_push(after_entries(s, built.drop_last()), built.last())
    }
}

/// Build once: however many workers enter an empty slot, the frame installed is the one the
/// first of them built, and the later ones change nothing.
pub proof fn law_build_once(s: SlotView, built: Seq<ContextView>)
    requires
        s.payload is None,
        built.len() > 0,
    ensures
        after_entries(s, built) == (SlotView { remaining: s.remaining, payload: Some(built[0]) }),
    decreases built.len(),
{
    if built.len() > 1 {
        law_build_once(s, built.drop_last());
        assert(built.drop_last()[0] == built[0]);
    } else {
        assert(after_entries(s, built.drop_last()) == s);
    }
}

/// What happens to one registry slot: a worker enters with the frame it would build, or leaves.
pub enum SlotEvent {
    Enter(ContextView),
    Leave,
}

/// The slot after `events`, in order.
pub open spec fn slot_after(s: SlotView, events: Seq<SlotEvent>) -> SlotView
    decreases events.len(),
{
    if events.len() == 0 {
        s
    } else {
        let t = slot_after(s, events.drop_last());
        match events.last() {
            SlotEvent::Enter(c) => slot_after_push(t, c),
            SlotEvent::Leave => slot_after_pop(t),
        }
    }
}

/// How many of `events` are departures.
pub open spec fn leaves(events: Seq<SlotEvent>) -> nat
    decreases events.len(),
{
    if events.len() == 0 {
        0
    } else {
        leaves(events.drop_last()) + if events.last() is Leave {
            1nat
        } else {
            0nat
        }
    }
}

pub proof fn lemma_remaining_after(s: SlotView, events: Seq<SlotEvent>)
    requires
        leaves(events) <= s.remaining,
    ensures
        slot_after(s, events).remaining == s.remaining - leaves(events),
    decreases events.len(),
{
    if events.len() > 0 {
        lemma_remaining_after(s, events.drop_last());
    }
}

/// Reference accounting: when a slot made for `u` workers has seen `u` departures, the last
/// event being a departure (each worker leaves after it enters), no user remains and its frame
/// is dropped.
pub proof fn law_reference_accounting(s: SlotView, events: Seq<SlotEvent>)
    requires
        s.remaining == leaves(events),
        events.len() > 0,
        events.last() is Leave,
    ensures
        slot_after(s, events).remaining == 0,
        slot_after(s, events).payload is None,
{
    lemma_remaining_after(s, events.drop_last());
}

/// Catching up twice is catching up once: after a first call, a second one leaves the stack
/// and the registry as they are.
pub proof fn law_catch_up_idempotent(
    s1: ContextStack,
    s2: ContextStack,
    s3: ContextStack,
    r1: Seq<SlotView>,
    r2: Seq<SlotView>,
    r3: Seq<SlotView>,
    p1: Seq<TermView>,
    p2: Seq<TermView>,
    p3: Seq<TermView>,
)
    requires
        ContextStack::caught_up(s1, s2, r1, r2, p1, p2),
        ContextStack::caught_up(s2, s3, r2, r3, p2, p3),
    ensures
        r3 == r2,
        s3.ids() == s2.ids(),
        s3.calculated() == s2.calculated(),
{
}

} // verus!
