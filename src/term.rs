//! Interned terms: a pool of nodes addressed by [`TermRef`].

use vstd::prelude::*;
use vstd::string::StringExecFns;
use vstd::string::StrSliceExecFns;

verus! {

/// Handle to a term interned in a [`TermPool`]. Two handles are equal exactly when they
/// address the same node of the pool.
#[derive(Clone, Copy, Debug, PartialEq, Eq, Hash, Structural)]
pub struct TermRef(pub usize);

impl TermRef {
    /// Position of the node in its pool.
    pub fn index(&self) -> (r: usize)
        ensures
            r == self.0,
    {
        self.0
    }
}

/// The two binders of the term language.
#[derive(Clone, Copy, Debug, PartialEq, Eq, Hash, Structural)]
pub enum Quantifier {
    Forall,
    Exists,
}

/// One node of a term. Children are handles into the same pool.
#[derive(Clone, Debug)]
pub enum Term {
    /// A sort, by name (`Bool`, `Int`, an uninterpreted sort).
    Sort(String),
    /// A variable: its name and its sort.
    Var(String, TermRef),
    /// A function symbol applied to arguments, with the sort of the result.
    App(String, TermRef, Vec<TermRef>),
    /// A quantifier over variables (each a `Var` node) and its body.
    Binder(Quantifier, Vec<TermRef>, TermRef),
}

/// Mathematical model of a [`Term`] node.
pub enum TermView {
    Sort(Seq<char>),
    Var(Seq<char>, TermRef),
    App(Seq<char>, TermRef, Seq<TermRef>),
    Binder(Quantifier, Seq<TermRef>, TermRef),
}

impl View for Term {
    type V = TermView;

    open spec fn view(&self) -> TermView {
        match self {
            Term::Sort(n) => TermView::Sort(n@),
            Term::Var(n, s) => TermView::Var(n@, *s),
            Term::App(f, s, args) => TermView::App(f@, *s, args@),
            Term::Binder(q, vars, body) => TermView::Binder(*q, vars@, *body),
        }
    }
}

/// Node `i` of `p` refers only to nodes before it; bound variables are variables.
pub open spec fn node_wf(p: Seq<TermView>, i: int, n: TermView) -> bool {
    match n {
        TermView::Sort(_) => true,
        TermView::Var(_, s) => s.0 < i,
        TermView::App(_, s, args) => s.0 < i && forall|k: int|
            0 <= k < args.len() ==> (#[trigger] args[k]).0 < i,
        TermView::Binder(_, vars, body) => body.0 < i && forall|k: int|
            0 <= k < vars.len() ==> (#[trigger] vars[k]).0 < i && p[vars[k].0 as int] is Var,
    }
}

/// Every node of the pool is well formed: the pool is a DAG ordered by position.
pub open spec fn pool_wf(p: Seq<TermView>) -> bool {
    &&& forall|i: int| 0 <= i < p.len() ==> #[trigger] node_wf(p, i, p[i])
    &&& pool_unique(p)
}

/// No term is stored twice: equal nodes are the same node.
pub open spec fn pool_unique(p: Seq<TermView>) -> bool {
    forall|i: int, j: int| 0 <= i < j < p.len() ==> #[trigger] p[i] != #[trigger] p[j]
}

/// `q` keeps every node of `p` at its position.
pub open spec fn extends(p: Seq<TermView>, q: Seq<TermView>) -> bool {
    p.len() <= q.len() && forall|i: int| 0 <= i < p.len() ==> #[trigger] q[i] == p[i]
}

/// `t` addresses a node of `p`.
pub open spec fn in_pool(p: Seq<TermView>, t: TermRef) -> bool {
    t.0 < p.len()
}

/// `t` is a variable node of `p`.
pub open spec fn is_var(p: Seq<TermView>, t: TermRef) -> bool {
    in_pool(p, t) && p[t.0 as int] is Var
}

/// The sort of a term: the annotation of a variable or an application, the sort of the body
/// of a binder; a sort is its own sort.
pub open spec fn sort_of(p: Seq<TermView>, t: TermRef) -> TermRef
    decreases t.0,
{
    if t.0 < p.len() {
        match p[t.0 as int] {
            TermView::Sort(_) => t,
            TermView::Var(_, s) => s,
            TermView::App(_, s, _) => s,
            TermView::Binder(_, _, body) => if body.0 < t.0 {
                sort_of(p, body)
            } else {
                t
            },
        }
    } else {
        t
    }
}

/// Variable `v` occurs free in `t`.
pub open spec fn occurs_free(p: Seq<TermView>, v: TermRef, t: TermRef) -> bool
    decreases t.0,
{
    if t.0 < p.len() {
        match p[t.0 as int] {
            TermView::Sort(_) => false,
            TermView::Var(_, _) => t == v,
            TermView::App(_, _, args) => exists|k: int|
                0 <= k < args.len() && (#[trigger] args[k]).0 < t.0 && occurs_free(p, v, args[k]),
            TermView::Binder(_, vars, body) => !vars.contains(v) && body.0 < t.0 && occurs_free(
                p,
                v,
                body,
            ),
        }
    } else {
        false
    }
}

pub proof fn lemma_sort_of_extends(p: Seq<TermView>, q: Seq<TermView>, t: TermRef)
    requires
        pool_wf(p),
        extends(p, q),
        in_pool(p, t),
    ensures
        sort_of(q, t) == sort_of(p, t),
        in_pool(p, sort_of(p, t)),
    decreases t.0,
{
    assert(node_wf(p, t.0 as int, p[t.0 as int]));
    if let TermView::Binder(_, _, body) = p[t.0 as int] {
        lemma_sort_of_extends(p, q, body);
    }
}

pub proof fn lemma_occurs_free_extends(p: Seq<TermView>, q: Seq<TermView>, v: TermRef, t: TermRef)
    requires
        pool_wf(p),
        extends(p, q),
        in_pool(p, t),
    ensures
        occurs_free(q, v, t) == occurs_free(p, v, t),
    decreases t.0,
{
    assert(node_wf(p, t.0 as int, p[t.0 as int]));
    assert(q[t.0 as int] == p[t.0 as int]);
    if p[t.0 as int] is App {
        let args = p[t.0 as int]->App_2;
        assert forall|k: int| 0 <= k < args.len() implies occurs_free(q, v, #[trigger] args[k])
            == occurs_free(p, v, args[k]) by {
            lemma_occurs_free_extends(p, q, v, args[k]);
        }
        if occurs_free(p, v, t) {
            assert(exists|k: int| 0 <= k < args.len() && args[k].0 < t.0 && occurs_free(p, v, args[k]));
            let k = choose|k: int| 0 <= k < args.len() && args[k].0 < t.0 && occurs_free(p, v, args[k]);
            assert(occurs_free(q, v, args[k]));
        }
        if occurs_free(q, v, t) {
            assert(exists|k: int| 0 <= k < args.len() && args[k].0 < t.0 && occurs_free(q, v, args[k]));
            let k = choose|k: int| 0 <= k < args.len() && args[k].0 < t.0 && occurs_free(q, v, args[k]);
            assert(occurs_free(p, v, args[k]));
        }
    } else if p[t.0 as int] is Binder {
        lemma_occurs_free_extends(p, q, v, p[t.0 as int]->Binder_2);
    }
}

/// A free variable of `t` is never a later node than `t`.
pub proof fn lemma_occurs_free_below(p: Seq<TermView>, v: TermRef, t: TermRef)
    requires
        pool_wf(p),
        occurs_free(p, v, t),
    ensures
        v.0 <= t.0,
    decreases t.0,
{
    if p[t.0 as int] is App {
        let args = p[t.0 as int]->App_2;
        assert(exists|k: int| 0 <= k < args.len() && args[k].0 < t.0 && occurs_free(p, v, args[k]));
        let k = choose|k: int| 0 <= k < args.len() && args[k].0 < t.0 && occurs_free(p, v, args[k]);
        lemma_occurs_free_below(p, v, args[k]);
    } else if p[t.0 as int] is Binder {
        lemma_occurs_free_below(p, v, p[t.0 as int]->Binder_2);
    }
}

/// Structural equality of two nodes, by their models.
pub(crate) fn same_node(a: &Term, b: &Term) -> (r: bool)
    ensures
        r == (a@ == b@),
{
    match (a, b) {
        (Term::Sort(x), Term::Sort(y)) => *x == *y,
        (Term::Var(x, s), Term::Var(y, t)) => *x == *y && *s == *t,
        (Term::App(f, s, xs), Term::App(g, t, ys)) => *f == *g && *s == *t && same_refs(xs, ys),
        (Term::Binder(q, xs, b1), Term::Binder(r, ys, b2)) => *q == *r && *b1 == *b2 && same_refs(
            xs,
            ys,
        ),
        _ => false,
    }
}

fn same_refs(xs: &Vec<TermRef>, ys: &Vec<TermRef>) -> (r: bool)
    ensures
        r == (xs@ == ys@),
{
    if xs.len() != ys.len() {
        return false;
    }
    let mut i: usize = 0;
    while i < xs.len()
        invariant
            xs@.len() == ys@.len(),
            0 <= i <= xs@.len(),
            forall|k: int| 0 <= k < i ==> xs@[k] == ys@[k],
        decreases xs@.len() - i,
    {
        if xs[i] != ys[i] {
            return false;
        }
        i = i + 1;
    }
    assert(xs@ =~= ys@);
    true
}

/// An interning store of terms. A node is added once and never moved, so a [`TermRef`] stays
/// valid while the pool lives.
pub struct TermPool {
    terms: Vec<Term>,
}

impl View for TermPool {
    type V = Seq<TermView>;

    closed spec fn view(&self) -> Seq<TermView> {
        self.terms@.map_values(|t: Term| t@)
    }
}

impl TermPool {
    pub open spec fn wf(&self) -> bool {
        pool_wf(self@)
    }

    /// An empty pool.
    pub fn new() -> (r: TermPool)
        ensures
            r@ == Seq::<TermView>::empty(),
            r.wf(),
    {
        let r = TermPool { terms: Vec::new() };
        assert(r@ =~= Seq::<TermView>::empty());
        r
    }

    /// Number of nodes in the pool.
    pub fn len(&self) -> (r: usize)
        ensures
            r == self@.len(),
    {
        self.terms.len()
    }

    /// The node that `t` addresses.
    pub fn get(&self, t: TermRef) -> (r: &Term)
        requires
            in_pool(self@, t),
        ensures
            r@ == self@[t.0 as int],
    {
        &self.terms[t.0]
    }

    /// Interns `term`: returns the handle of an equal node if the pool has one, else adds it.
    pub fn add(&mut self, term: Term) -> (r: TermRef)
        requires
            old(self).wf(),
            node_wf(old(self)@, old(self)@.len() as int, term@),
        ensures
            final(self).wf(),
            extends(old(self)@, final(self)@),
            in_pool(final(self)@, r),
            final(self)@[r.0 as int] == term@,
            old(self)@.contains(term@) ==> final(self)@ == old(self)@,
            forall|i: int| 0 <= i < final(self)@.len() && final(self)@[i] == term@ ==> i == r.0,
            !old(self)@.contains(term@) ==> final(self)@ == old(self)@.push(term@) && r.0
                == old(self)@.len(),
    {
        let mut i: usize = 0;
        while i < self.terms.len()
            invariant
                self.wf(),
                self@ == old(self)@,
                0 <= i <= self@.len(),
                self.terms@.len() == self@.len(),
                forall|k: int| 0 <= k < i ==> self@[k] != term@,
            decreases self@.len() - i,
        {
            if same_node(&self.terms[i], &term) {
                assert(self@[i as int] == term@);
                return TermRef(i);
            }
            i = i + 1;
        }
        assert(!self@.contains(term@));
        let ghost before = self@;
        let n = self.terms.len();
        self.terms.push(term);
        assert(self@ =~= before.push(term@));
        assert forall|j: int| 0 <= j < self@.len() implies node_wf(self@, j, #[trigger] self@[j]) by {
            assert(node_wf(before, j, before.push(term@)[j]) || j == n);
            if j < n {
                assert(node_wf(before, j, before[j]));
            }
        }
        TermRef(n)
    }

    /// The sort of `t` (see [`sort_of`]).
    pub fn sort(&self, t: TermRef) -> (r: TermRef)
        requires
            self.wf(),
            in_pool(self@, t),
        ensures
            r == sort_of(self@, t),
            in_pool(self@, r),
    {
        let mut cur = t;
        loop
            invariant
                self.wf(),
                in_pool(self@, cur),
                sort_of(self@, cur) == sort_of(self@, t),
            decreases cur.0,
        {
            assert(node_wf(self@, cur.0 as int, self@[cur.0 as int]));
            match &self.terms[cur.0] {
                Term::Binder(_, _, body) => {
                    cur = *body;
                },
                Term::Var(_, s) => {
                    return *s;
                },
                Term::App(_, s, _) => {
                    return *s;
                },
                Term::Sort(_) => {
                    return cur;
                },
            }
        }
    }

    /// Whether variable `v` occurs free in `t`.
    pub fn occurs_free(&self, v: TermRef, t: TermRef) -> (r: bool)
        requires
            self.wf(),
            in_pool(self@, t),
        ensures
            r == occurs_free(self@, v, t),
        decreases t.0,
    {
        assert(node_wf(self@, t.0 as int, self@[t.0 as int]));
        assert(self@[t.0 as int] == self.terms@[t.0 as int]@);
        match &self.terms[t.0] {
            Term::Sort(_) => false,
            Term::Var(_, _) => t == v,
            Term::App(f, s, args) => {
                let mut k: usize = 0;
                while k < args.len()
                    invariant
                        self.wf(),
                        in_pool(self@, t),
                        self@[t.0 as int] == TermView::App(f@, *s, args@),
                        node_wf(self@, t.0 as int, self@[t.0 as int]),
                        0 <= k <= args@.len(),
                        forall|j: int| 0 <= j < k ==> !occurs_free(self@, v, #[trigger] args@[j]),
                    decreases args@.len() - k,
                {
                    assert(node_wf(self@, t.0 as int, TermView::App(f@, *s, args@)));
                    assert(args@[k as int].0 < t.0);
                    if self.occurs_free(v, args[k]) {
                        assert(occurs_free(self@, v, args@[k as int]));
                        return true;
                    }
                    k = k + 1;
                }
                false
            },
            Term::Binder(q, vars, body) => {
                let mut k: usize = 0;
                while k < vars.len()
                    invariant
                        self@[t.0 as int] == TermView::Binder(*q, vars@, *body),
                        0 <= k <= vars@.len(),
                        forall|j: int| 0 <= j < k ==> vars@[j] != v,
                    decreases vars@.len() - k,
                {
                    if vars[k] == v {
                        assert(vars@.contains(v));
                        return false;
                    }
                    k = k + 1;
                }
                self.occurs_free(v, *body)
            },
        }
    }
}

/// A copy of `xs`.
pub fn copy_refs(xs: &Vec<TermRef>) -> (r: Vec<TermRef>)
    ensures
        r@ == xs@,
{
    let mut r: Vec<TermRef> = Vec::new();
    let mut i: usize = 0;
    while i < xs.len()
        invariant
            0 <= i <= xs@.len(),
            r@ == xs@.subrange(0, i as int),
        decreases xs@.len() - i,
    {
        r.push(xs[i]);
        i = i + 1;
        assert(r@ =~= xs@.subrange(0, i as int));
    }
    assert(r@ =~= xs@);
    r
}

/// A copy of the node `t`.
pub fn copy_node(t: &Term) -> (r: Term)
    ensures
        r@ == t@,
{
    match t {
        Term::Sort(n) => Term::Sort(n.clone()),
        Term::Var(n, s) => Term::Var(n.clone(), *s),
        Term::App(f, s, args) => Term::App(f.clone(), *s, copy_refs(args)),
        Term::Binder(q, vars, body) => Term::Binder(*q, copy_refs(vars), *body),
    }
}

impl TermPool {
    /// The length of the longest variable name in the pool.
    pub fn longest_var_name(&self) -> (r: usize)
        ensures
            forall|j: int| 0 <= j < self@.len() && (#[trigger] self@[j] is Var) ==> self@[j]->Var_0.len() <= r,
    {
        let mut longest: usize = 0;
        let mut i: usize = 0;
        while i < self.terms.len()
            invariant
                0 <= i <= self@.len(),
                self.terms@.len() == self@.len(),
                forall|j: int| 0 <= j < i ==> (#[trigger] self@[j] is Var) ==> self@[j]->Var_0.len() <= longest,
            decreases self@.len() - i,
        {
            assert(self@[i as int] == self.terms@[i as int]@);
            if let Term::Var(n, _) = &self.terms[i] {
                let l = n.as_str().unicode_len();
                if l > longest {
                    longest = l;
                }
            }
            i = i + 1;
        }
        longest
    }

    /// The handle of the node equal to `term`, if the pool has one.
    pub fn find(&self, term: &Term) -> (r: Option<TermRef>)
        ensures
            match r {
                Some(t) => in_pool(self@, t) && self@[t.0 as int] == term@,
                None => !self@.contains(term@),
            },
    {
        let mut i: usize = 0;
        while i < self.terms.len()
            invariant
                0 <= i <= self@.len(),
                self.terms@.len() == self@.len(),
                forall|k: int| 0 <= k < i ==> self@[k] != term@,
            decreases self@.len() - i,
        {
            if same_node(&self.terms[i], term) {
                assert(self@[i as int] == term@);
                return Some(TermRef(i));
            }
            i = i + 1;
        }
        None
    }
}

} // verus!
