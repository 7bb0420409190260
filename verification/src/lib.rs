//! An algebraic type-checker: flow assertions between value types and use
//! types are propagated through an incrementally maintained
//! transitive-closure graph until a fixed point is reached or two types
//! fail to converge.

pub mod graph;
pub mod reach;
pub mod types;

use vstd::prelude::*;
use crate::reach::{reaches, newly_implied, lemma_edge_reaches, lemma_reaches_mono};

verus! {

/// An identifier of a node shared by the reachability graph and the
/// constraint store.
pub type EntityId = usize;

/// The one error the solver itself raises: the caller-supplied lattice
/// found two types that must flow into one another incompatible.
#[derive(Clone, Copy, PartialEq, Debug)]
pub enum TypeError {
    Converge,
}

impl TypeError {
    /// What the failure means, as the error's printed description.
    pub fn message(&self) -> (r: String)
        ensures
            r@ == "unable to converge types."@,
    {
        match self {
            TypeError::Converge => "unable to converge types.".to_owned(),
        }
    }
}

/// The lattice contract a caller-supplied type system provides: `meet`
/// decides whether a value type may flow into a use type, and on success
/// yields the further flow assertions that the decision implies.
pub trait AbstractTypes<V, U> {
    type Error;

    fn meet(lhs: &V, rhs: &U) -> Result<Vec<(Value, Use)>, Self::Error>;
}

/// A typed handle naming a node that produces a value.
#[derive(Clone, Copy, Debug)]
pub struct Value(usize);

/// A typed handle naming a node that consumes a value.
#[derive(Clone, Copy, Debug)]
pub struct Use(usize);

impl Value {
    /// The node this handle names.
    pub closed spec fn id(self) -> usize {
        self.0
    }
}

impl Use {
    /// The node this handle names.
    pub closed spec fn id(self) -> usize {
        self.0
    }
}

/// What a constraint node holds: an unconstrained placeholder, a value
/// type, or a use type.
#[derive(Clone)]
pub enum TypeNode<V, U> {
    Var,
    Value(V),
    Use(U),
}

/// The solver: a reachability graph over node identifiers, a parallel
/// store of tagged type payloads, and the caller's lattice.
#[derive(Clone)]
pub struct TypeChecker<V, U, AT> where AT: AbstractTypes<V, U> {
    r: graph::Graph,
    types: Vec<TypeNode<V, U>>,
    abstract_type_mapper: AT,
    /// The lattice-produced assertions that named an unknown node and were
    /// therefore never asserted, as a ghost record: `flow` only ever adds
    /// such assertions here, so a discharged merge witness below accounts
    /// for every assertion a successful merge returned.
    dropped: Ghost<Set<(Value, Use)>>,
}

impl<V, U, AT> TypeChecker<V, U, AT> where AT: AbstractTypes<V, U> {
    /// The store of tagged payloads, one per node.
    pub closed spec fn nodes(self) -> Seq<TypeNode<V, U>> {
        self.types@
    }

    /// The reachability graph the solver maintains.
    pub closed spec fn graph(self) -> graph::Graph {
        self.r
    }

    pub open spec fn node_count(self) -> nat {
        self.nodes().len()
    }

    pub open spec fn is_value_node(self, i: int) -> bool {
        0 <= i < self.nodes().len() && self.nodes()[i] is Value
    }

    pub open spec fn is_use_node(self, i: int) -> bool {
        0 <= i < self.nodes().len() && self.nodes()[i] is Use
    }

    pub open spec fn is_var_node(self, i: int) -> bool {
        0 <= i < self.nodes().len() && self.nodes()[i] is Var
    }

    /// The graph is closed over its requested edges and has exactly one
    /// node per stored payload.
    pub open spec fn wf(self) -> bool {
        &&& self.graph().wf()
        &&& self.graph().node_count() == self.node_count()
    }

    /// The lattice-produced assertions that named an unknown node and were
    /// dropped instead of asserted.
    pub closed spec fn dropped(self) -> Set<(Value, Use)> {
        self.dropped@
    }

    /// A pair the closure obligates: `x` reaches `y`, `x` carries a value
    /// type and `y` a use type.
    #[verifier::opaque]
    pub open spec fn value_use_pair(self, x: usize, y: usize) -> bool {
        &&& self.graph().linked(x, y)
        &&& self.is_value_node(x as int)
        &&& self.is_use_node(y as int)
    }

    /// Some run of the lattice's merge on exactly the payloads stored at
    /// `x` and `y` returned the error `e`.
    #[verifier::opaque]
    pub open spec fn failing_merge(self, x: usize, y: usize, e: AT::Error) -> bool {
        exists|v: V, u: U|
            self.nodes()[x as int] == TypeNode::<V, U>::Value(v)
                && self.nodes()[y as int] == TypeNode::<V, U>::Use(u)
                && #[trigger] call_ensures(
                AT::meet,
                (&v, &u),
                Err::<Vec<(Value, Use)>, AT::Error>(e),
            )
    }

    /// The obligation on the pair is discharged modulo a queue: some run of
    /// the lattice's merge on exactly its payloads succeeded, and every
    /// assertion that merge returned either stands in the requested edges,
    /// was dropped for naming an unknown node, or still waits in `queued`.
    #[verifier::opaque]
    pub open spec fn merge_discharged_mod(
        self,
        x: usize,
        y: usize,
        queued: Seq<(Value, Use)>,
    ) -> bool {
        exists|v: V, u: U, more: Vec<(Value, Use)>|
            self.nodes()[x as int] == TypeNode::<V, U>::Value(v)
                && self.nodes()[y as int] == TypeNode::<V, U>::Use(u)
                && #[trigger] call_ensures(
                AT::meet,
                (&v, &u),
                Ok::<Vec<(Value, Use)>, AT::Error>(more),
            ) && forall|j: int|
                0 <= j < more@.len() ==> {
                    ||| self.graph().edges().contains(
                        ((#[trigger] more@[j]).0.id(), more@[j].1.id()),
                    )
                    ||| self.dropped().contains(more@[j])
                    ||| queued.contains(more@[j])
                }
    }

    /// The asserted edge touches the lattice in no way: no pair it newly
    /// implies carries a value type on the left and a use type on the
    /// right, so no merge is owed for it.
    #[verifier::opaque]
    pub open spec fn lattice_idle(self, a: usize, b: usize) -> bool {
        forall|q: (usize, usize)|
            #[trigger] newly_implied(self.graph().edges(), a, b).contains(q)
                ==> !(self.is_value_node(q.0 as int) && self.is_use_node(q.1 as int))
    }

    /// Discharged outright: no queue left to consume.
    pub open spec fn merge_discharged(self, x: usize, y: usize) -> bool {
        self.merge_discharged_mod(x, y, Seq::empty())
    }

    /// The fixed point: every pair the closure obligates carries a
    /// witnessed successful merge of its payloads, all of whose returned
    /// assertions were asserted in turn or dropped as unknown.
    #[verifier::opaque]
    pub open spec fn converged(self) -> bool {
        forall|x: usize, y: usize| #[trigger] self.value_use_pair(x, y)
            ==> self.merge_discharged(x, y)
    }

    /// A discharged obligation stays discharged while the payload store is
    /// unchanged and the requested edges, the dropped record and the queue
    /// only take in what the old queue held.
    proof fn lemma_discharged_step(
        pre: Self,
        post: Self,
        q1: Seq<(Value, Use)>,
        q2: Seq<(Value, Use)>,
        x: usize,
        y: usize,
    )
        requires
            pre.merge_discharged_mod(x, y, q1),
            post.nodes() == pre.nodes(),
            pre.graph().edges().subset_of(post.graph().edges()),
            pre.dropped().subset_of(post.dropped()),
            forall|q: (Value, Use)| q1.contains(q) ==> q2.contains(q)
                || post.graph().edges().contains((q.0.id(), q.1.id()))
                || post.dropped().contains(q),
        ensures
            post.merge_discharged_mod(x, y, q2),
    {
        reveal(TypeChecker::merge_discharged_mod);
        let (v, u, more) = choose|v: V, u: U, more: Vec<(Value, Use)>|
            pre.nodes()[x as int] == TypeNode::<V, U>::Value(v)
                && pre.nodes()[y as int] == TypeNode::<V, U>::Use(u)
                && #[trigger] call_ensures(
                AT::meet,
                (&v, &u),
                Ok::<Vec<(Value, Use)>, AT::Error>(more),
            ) && forall|j: int|
                0 <= j < more@.len() ==> {
                    ||| pre.graph().edges().contains(
                        ((#[trigger] more@[j]).0.id(), more@[j].1.id()),
                    )
                    ||| pre.dropped().contains(more@[j])
                    ||| q1.contains(more@[j])
                };
        assert forall|j: int| 0 <= j < more@.len() implies {
            ||| post.graph().edges().contains(((#[trigger] more@[j]).0.id(), more@[j].1.id()))
            ||| post.dropped().contains(more@[j])
            ||| q2.contains(more@[j])
        } by {
            let q = more@[j];
            if pre.graph().edges().contains((q.0.id(), q.1.id())) {
                assert(post.graph().edges().contains((q.0.id(), q.1.id())));
            } else if pre.dropped().contains(q) {
                assert(post.dropped().contains(q));
            }
        }
        assert(post.merge_discharged_mod(x, y, q2));
    }

    /// A discharged obligation survives the allocation of a new node: the
    /// old payloads, edges and dropped record are all untouched.
    proof fn lemma_discharged_after_push(pre: Self, post: Self, x: usize, y: usize)
        requires
            pre.merge_discharged(x, y),
            post.nodes().len() == pre.nodes().len() + 1,
            forall|i: int| 0 <= i < pre.nodes().len() ==> post.nodes()[i] == pre.nodes()[i],
            x < pre.node_count(),
            y < pre.node_count(),
            post.graph().edges() == pre.graph().edges(),
            post.dropped() == pre.dropped(),
        ensures
            post.merge_discharged(x, y),
    {
        reveal(TypeChecker::merge_discharged_mod);
        let (v, u, more) = choose|v: V, u: U, more: Vec<(Value, Use)>|
            pre.nodes()[x as int] == TypeNode::<V, U>::Value(v)
                && pre.nodes()[y as int] == TypeNode::<V, U>::Use(u)
                && #[trigger] call_ensures(
                AT::meet,
                (&v, &u),
                Ok::<Vec<(Value, Use)>, AT::Error>(more),
            ) && forall|j: int|
                0 <= j < more@.len() ==> {
                    ||| pre.graph().edges().contains(
                        ((#[trigger] more@[j]).0.id(), more@[j].1.id()),
                    )
                    ||| pre.dropped().contains(more@[j])
                    ||| Seq::<(Value, Use)>::empty().contains(more@[j])
                };
        assert(post.nodes()[x as int] == pre.nodes()[x as int]);
        assert(post.nodes()[y as int] == pre.nodes()[y as int]);
        assert(post.merge_discharged_mod(x, y, Seq::empty()));
    }

    /// Node allocation preserves every discharged obligation: what
    /// `new_val`, `new_use` and `var` state about convergence.
    proof fn lemma_converged_after_push(pre: Self, post: Self)
        requires
            pre.wf(),
            pre.converged(),
            post.nodes().len() == pre.nodes().len() + 1,
            forall|i: int| 0 <= i < pre.nodes().len() ==> post.nodes()[i] == pre.nodes()[i],
            post.graph().edges() == pre.graph().edges(),
            post.dropped() == pre.dropped(),
            forall|a: usize, b: usize| #[trigger] post.graph().linked(a, b)
                <==> pre.graph().linked(a, b),
        ensures
            post.converged(),
    {
        reveal(TypeChecker::converged);
        assert forall|x: usize, y: usize| #[trigger] post.value_use_pair(x, y)
            implies post.merge_discharged(x, y) by {
            reveal(TypeChecker::value_use_pair);
            assert(pre.graph().linked(x, y));
            pre.graph().lemma_linked_in_range(x, y);
            assert(post.nodes()[x as int] == pre.nodes()[x as int]);
            assert(post.nodes()[y as int] == pre.nodes()[y as int]);
            assert(pre.value_use_pair(x, y));
            Self::lemma_discharged_after_push(pre, post, x, y);
        }
    }

    pub fn new(abstract_type_mapper: AT) -> (r: Self)
        ensures
            r.wf(),
            r.nodes() == Seq::<TypeNode<V, U>>::empty(),
            r.graph().edges() == Set::<(usize, usize)>::empty(),
            r.dropped() == Set::<(Value, Use)>::empty(),
            r.converged(),
    {
        let r = Self {
            r: graph::Graph::default(),
            types: Vec::new(),
            abstract_type_mapper,
            dropped: Ghost(Set::empty()),
        };
        proof {
            reveal(TypeChecker::converged);
            reveal(TypeChecker::value_use_pair);
        }
        r
    }

    /// Allocates a node carrying a value type and returns its handle.
    pub fn new_val(&mut self, val_type: V) -> (r: Value)
        requires
            old(self).wf(),
        ensures
            final(self).wf(),
            r.id() == old(self).node_count(),
            final(self).nodes() == old(self).nodes().push(TypeNode::Value(val_type)),
            final(self).graph().edges() == old(self).graph().edges(),
            forall|a: usize, b: usize| #[trigger] final(self).graph().linked(a, b)
                <==> old(self).graph().linked(a, b),
            final(self).dropped() == old(self).dropped(),
            old(self).converged() ==> final(self).converged(),
    {
        let i = self.r.add_node_mut();
        self.types.push(TypeNode::Value(val_type));
        proof {
            if old(self).converged() {
                Self::lemma_converged_after_push(*old(self), *self);
            }
        }
        Value(i)
    }

    /// Allocates a node carrying a use type and returns its handle.
    pub fn new_use(&mut self, constraint: U) -> (r: Use)
        requires
            old(self).wf(),
        ensures
            final(self).wf(),
            r.id() == old(self).node_count(),
            final(self).nodes() == old(self).nodes().push(TypeNode::Use(constraint)),
            final(self).graph().edges() == old(self).graph().edges(),
            forall|a: usize, b: usize| #[trigger] final(self).graph().linked(a, b)
                <==> old(self).graph().linked(a, b),
            final(self).dropped() == old(self).dropped(),
            old(self).converged() ==> final(self).converged(),
    {
        let i = self.r.add_node_mut();
        self.types.push(TypeNode::Use(constraint));
        proof {
            if old(self).converged() {
                Self::lemma_converged_after_push(*old(self), *self);
            }
        }
        Use(i)
    }

    /// Allocates one placeholder node and returns both of its roles: the
    /// two handles alias the same node, so every consequence of treating it
    /// as a value and as a use lands on one identifier.
    pub fn var(&mut self) -> (r: (Value, Use))
        requires
            old(self).wf(),
        ensures
            final(self).wf(),
            r.0.id() == old(self).node_count(),
            r.1.id() == r.0.id(),
            final(self).nodes() == old(self).nodes().push(TypeNode::Var),
            final(self).graph().edges() == old(self).graph().edges(),
            forall|a: usize, b: usize| #[trigger] final(self).graph().linked(a, b)
                <==> old(self).graph().linked(a, b),
            final(self).dropped() == old(self).dropped(),
            old(self).converged() ==> final(self).converged(),
    {
        let i = self.r.add_node_mut();
        self.types.push(TypeNode::Var);
        proof {
            if old(self).converged() {
                Self::lemma_converged_after_push(*old(self), *self);
            }
        }
        (Value(i), Use(i))
    }

    /// The payloads of a node pair, provided the pair carries an
    /// obligation: a value type on the left and a use type on the right.
    /// Pairs of any other tagging — two values, two uses, a placeholder on
    /// either side — carry none and never reach the lattice.
    fn payload_pair(&self, x: usize, y: usize) -> (r: Option<(&V, &U)>)
        requires
            x < self.node_count(),
            y < self.node_count(),
        ensures
            r is Some <==> self.is_value_node(x as int) && self.is_use_node(y as int),
            r matches Some(pair) ==> self.nodes()[x as int] == TypeNode::<V, U>::Value(*pair.0)
                && self.nodes()[y as int] == TypeNode::<V, U>::Use(*pair.1),
    {
        match (&self.types[x], &self.types[y]) {
            (TypeNode::Value(a), TypeNode::Use(b)) => Some((a, b)),
            _ => None,
        }
    }

    /// With the queue drained, the per-call discharge facts amount to the
    /// solver's convergence: obligations that predate the call were already
    /// discharged, the rest were discharged by it.
    proof fn lemma_flow_exit(g0: Self, s: Self)
        requires
            s.nodes() == g0.nodes(),
            forall|x: usize, y: usize| #[trigger] g0.value_use_pair(x, y)
                ==> s.merge_discharged(x, y),
            forall|x: usize, y: usize| #[trigger] s.value_use_pair(x, y)
                && !g0.graph().linked(x, y) ==> s.merge_discharged(x, y),
        ensures
            s.converged(),
    {
        reveal(TypeChecker::converged);
        assert forall|x: usize, y: usize| #[trigger] s.value_use_pair(x, y)
            implies s.merge_discharged(x, y) by {
            reveal(TypeChecker::value_use_pair);
            if g0.graph().linked(x, y) {
                assert(g0.value_use_pair(x, y));
            }
        }
    }

    /// Before any assertion is processed nothing is newly linked, and a
    /// converged solver's obligations are discharged as they stand.
    proof fn lemma_solve_enter(g0: Self, s: Self, q: Seq<(Value, Use)>)
        requires
            s == g0,
        ensures
            forall|x: usize, y: usize| #[trigger] s.value_use_pair(x, y)
                && !g0.graph().linked(x, y) ==> s.merge_discharged_mod(x, y, q),
            g0.converged() ==> forall|x: usize, y: usize|
                #[trigger] g0.value_use_pair(x, y) ==> s.merge_discharged(x, y),
    {
        reveal(TypeChecker::converged);
        assert forall|x: usize, y: usize| s.value_use_pair(x, y)
            && !g0.graph().linked(x, y) implies s.merge_discharged_mod(x, y, q) by {
            reveal(TypeChecker::value_use_pair);
            assert(g0.graph().linked(x, y));
        }
    }

    /// With the queue empty, discharged-modulo-the-queue is discharged.
    proof fn lemma_solve_drain(g0: Self, s: Self, q: Seq<(Value, Use)>)
        requires
            q.len() == 0,
            forall|x: usize, y: usize| #[trigger] s.value_use_pair(x, y)
                && !g0.graph().linked(x, y) ==> s.merge_discharged_mod(x, y, q),
        ensures
            forall|x: usize, y: usize| #[trigger] s.value_use_pair(x, y)
                && !g0.graph().linked(x, y) ==> s.merge_discharged(x, y),
    {
        assert(q =~= Seq::<(Value, Use)>::empty());
        assert forall|x: usize, y: usize| s.value_use_pair(x, y)
            && !g0.graph().linked(x, y) implies s.merge_discharged(x, y) by {
            assert(s.merge_discharged_mod(x, y, q));
        }
    }

    /// The worklist driver behind `flow`: same contract, with the success
    /// case stated as the raw per-pair discharge facts that `flow` folds
    /// into `converged`.
    #[verifier::rlimit(100)]
    #[verifier::loop_isolation(false)]
    fn solve(&mut self, lhs: Value, rhs: Use) -> (r: Result<(), AT::Error>)
        requires
            old(self).wf(),
            lhs.id() < old(self).node_count(),
            rhs.id() < old(self).node_count(),
        ensures
            final(self).wf(),
            final(self).nodes() == old(self).nodes(),
            old(self).graph().edges().subset_of(final(self).graph().edges()),
            final(self).graph().edges().contains((lhs.id(), rhs.id())),
            final(self).graph().linked(lhs.id(), rhs.id()),
            old(self).dropped().subset_of(final(self).dropped()),
            forall|q: (Value, Use)| #[trigger] final(self).dropped().contains(q)
                ==> old(self).dropped().contains(q)
                    || q.0.id() >= old(self).node_count()
                    || q.1.id() >= old(self).node_count(),
            r is Ok ==> forall|x: usize, y: usize|
                #[trigger] final(self).value_use_pair(x, y)
                    && !old(self).graph().linked(x, y)
                    ==> final(self).merge_discharged(x, y),
            r is Ok && old(self).converged() ==> forall|x: usize, y: usize|
                #[trigger] old(self).value_use_pair(x, y)
                    ==> final(self).merge_discharged(x, y),
            r matches Err(e) ==> exists|x: usize, y: usize|
                #[trigger] final(self).value_use_pair(x, y)
                    && !old(self).graph().linked(x, y)
                    && final(self).failing_merge(x, y, e),
            old(self).lattice_idle(lhs.id(), rhs.id()) ==> (r is Ok
                && final(self).graph().edges()
                    == old(self).graph().edges().insert((lhs.id(), rhs.id()))),
    {
        let ghost e_first = old(self).graph().edges().insert((lhs.id(), rhs.id()));
        let ghost quiet = old(self).lattice_idle(lhs.id(), rhs.id());
        let ghost n0 = old(self).node_count();

        let mut pending_edges: Vec<(Value, Use)> = Vec::new();
        pending_edges.push((lhs, rhs));

        proof {
            assert(pending_edges@ =~= seq![(lhs, rhs)]);
            self.r.lemma_down_total_bound();
            Self::lemma_solve_enter(*old(self), *self, pending_edges@);
        }

        while pending_edges.len() > 0
            invariant
                self.wf(),
                self.nodes() == old(self).nodes(),
                self.node_count() == n0,
                lhs.id() < n0,
                rhs.id() < n0,
                old(self).graph().edges().subset_of(self.graph().edges()),
                (pending_edges@ == seq![(lhs, rhs)] && *self == *old(self))
                    || self.graph().edges().contains((lhs.id(), rhs.id())),
                old(self).dropped().subset_of(self.dropped()),
                forall|q: (Value, Use)| #[trigger] self.dropped().contains(q)
                    ==> old(self).dropped().contains(q) || q.0.id() >= n0 || q.1.id() >= n0,
                forall|x: usize, y: usize| #[trigger] self.value_use_pair(x, y)
                    && !old(self).graph().linked(x, y)
                    ==> self.merge_discharged_mod(x, y, pending_edges@),
                old(self).converged() ==> forall|x: usize, y: usize|
                    #[trigger] old(self).value_use_pair(x, y)
                        ==> self.merge_discharged(x, y),
                quiet ==> (pending_edges@ == seq![(lhs, rhs)] && *self == *old(self))
                    || (pending_edges@.len() == 0 && self.graph().edges() == e_first),
                self.graph().down_total() <= n0 * n0,
            decreases n0 * n0 - self.graph().down_total(), pending_edges@.len(),
        {
            let ghost outer_pre = *self;
            let ghost pending_pre = pending_edges@;
            let p = pending_edges.pop().unwrap();
            let (l, u) = p;
            let ghost pend1 = pending_edges@;
            proof {
                assert forall|q: (Value, Use)| pending_pre.contains(q)
                    implies pend1.contains(q) || q == p by {
                    let k = choose|k: int| 0 <= k < pending_pre.len() && pending_pre[k] == q;
                    if k < pending_pre.len() - 1 {
                        assert(pend1[k] == q);
                    }
                }
            }
            if l.0 < self.types.len() && u.0 < self.types.len() {
                let mut type_pairs_to_check = self.r.add_edge_mut(l.0, u.0);
                let ghost after_edge = *self;
                let ghost k0 = type_pairs_to_check@.len();
                proof {
                    self.r.lemma_down_total_bound();
                    assert(self.graph().edges().contains((l.0, u.0)));
                    // Every reported pair names nodes, is linked now, and
                    // was not linked when the call began.
                    assert forall|k: int| 0 <= k < type_pairs_to_check@.len()
                        implies (#[trigger] type_pairs_to_check@[k]).0 < n0
                            && type_pairs_to_check@[k].1 < n0
                            && self.graph().linked(
                            type_pairs_to_check@[k].0,
                            type_pairs_to_check@[k].1,
                        ) && !old(self).graph().linked(
                            type_pairs_to_check@[k].0,
                            type_pairs_to_check@[k].1,
                        ) by {
                        let q = type_pairs_to_check@[k];
                        assert(type_pairs_to_check@.contains(q));
                        assert(reaches(self.graph().edges(), q.0, q.1));
                        assert(self.graph().linked(q.0, q.1));
                        self.graph().lemma_linked_in_range(q.0, q.1);
                        assert(!reaches(outer_pre.graph().edges(), q.0, q.1));
                        if old(self).graph().linked(q.0, q.1) {
                            lemma_reaches_mono(
                                old(self).graph().edges(),
                                outer_pre.graph().edges(),
                                q.0,
                                q.1,
                            );
                        }
                    }
                    // Re-home every discharged obligation: the popped
                    // assertion's edge is now requested.
                    assert forall|q: (Value, Use)| pending_pre.contains(q)
                        implies pend1.contains(q)
                            || self.graph().edges().contains((q.0.id(), q.1.id()))
                            || self.dropped().contains(q) by {
                        if !pend1.contains(q) {
                            assert(q == p);
                        }
                    }
                    assert forall|x: usize, y: usize| #[trigger] self.value_use_pair(x, y)
                        && !old(self).graph().linked(x, y)
                        implies self.merge_discharged_mod(x, y, pend1)
                            || type_pairs_to_check@.contains((x, y)) by {
                        reveal(TypeChecker::value_use_pair);
                        if outer_pre.graph().linked(x, y) {
                            assert(outer_pre.value_use_pair(x, y));
                            assert(outer_pre.merge_discharged_mod(x, y, pending_pre));
                            Self::lemma_discharged_step(
                                outer_pre,
                                *self,
                                pending_pre,
                                pend1,
                                x,
                                y,
                            );
                        } else {
                            assert(reaches(self.graph().edges(), x, y));
                            assert(!reaches(outer_pre.graph().edges(), x, y));
                            assert(newly_implied(outer_pre.graph().edges(), l.0, u.0)
                                .contains((x, y)));
                        }
                    }
                    if old(self).converged() {
                        assert forall|x: usize, y: usize|
                            #[trigger] old(self).value_use_pair(x, y)
                            implies self.merge_discharged(x, y) by {
                            assert(outer_pre.merge_discharged(x, y));
                            Self::lemma_discharged_step(
                                outer_pre,
                                *self,
                                Seq::empty(),
                                Seq::empty(),
                                x,
                                y,
                            );
                        }
                    }
                    if quiet {
                        assert(pending_pre == seq![(lhs, rhs)]);
                        assert((l.0, u.0) == (lhs.id(), rhs.id()));
                        assert(self.graph().edges() == e_first);
                        assert forall|k: int| 0 <= k < type_pairs_to_check@.len()
                            implies newly_implied(old(self).graph().edges(), lhs.id(), rhs.id())
                                .contains(#[trigger] type_pairs_to_check@[k]) by {
                            assert(type_pairs_to_check@.contains(type_pairs_to_check@[k]));
                        }
                    }
                }
                // Check whether adding that edge implied any node pair that
                // now needs to be checked against the lattice.
                while type_pairs_to_check.len() > 0
                    invariant
                        self.wf(),
                        self.nodes() == old(self).nodes(),
                        self.node_count() == n0,
                        *self == after_edge,
                        type_pairs_to_check@.len() <= k0,
                        k0 == 0 ==> pending_edges@ == pend1,
                        old(self).graph().edges().subset_of(self.graph().edges()),
                        self.graph().edges().contains((lhs.id(), rhs.id())),
                        forall|k: int| 0 <= k < type_pairs_to_check@.len()
                            ==> (#[trigger] type_pairs_to_check@[k]).0 < n0
                                && type_pairs_to_check@[k].1 < n0
                                && self.graph().linked(
                                type_pairs_to_check@[k].0,
                                type_pairs_to_check@[k].1,
                            ) && !old(self).graph().linked(
                                type_pairs_to_check@[k].0,
                                type_pairs_to_check@[k].1,
                            ),
                        forall|x: usize, y: usize| #[trigger] self.value_use_pair(x, y)
                            && !old(self).graph().linked(x, y)
                            ==> self.merge_discharged_mod(x, y, pending_edges@)
                                || type_pairs_to_check@.contains((x, y)),
                        quiet ==> self.graph().edges() == e_first
                            && pending_edges@.len() == 0
                            && forall|k: int| 0 <= k < type_pairs_to_check@.len()
                                ==> newly_implied(
                                    old(self).graph().edges(),
                                    lhs.id(),
                                    rhs.id(),
                                ).contains(#[trigger] type_pairs_to_check@[k]),
                    decreases type_pairs_to_check@.len(),
                {
                    let ghost pairs_pre = type_pairs_to_check@;
                    let q = type_pairs_to_check.pop().unwrap();
                    let (xv, yu) = q;
                    proof {
                        assert(q == pairs_pre[pairs_pre.len() - 1]);
                        assert forall|w: (usize, usize)| pairs_pre.contains(w)
                            implies type_pairs_to_check@.contains(w) || w == q by {
                            let k = choose|k: int|
                                0 <= k < pairs_pre.len() && pairs_pre[k] == w;
                            if k < pairs_pre.len() - 1 {
                                assert(type_pairs_to_check@[k] == w);
                            }
                        }
                    }
                    if let Some((a, b)) = self.payload_pair(xv, yu) {
                        proof {
                            if quiet {
                                reveal(TypeChecker::lattice_idle);
                                assert(newly_implied(
                                    old(self).graph().edges(),
                                    lhs.id(),
                                    rhs.id(),
                                ).contains((xv, yu)));
                                assert(false);
                            }
                        }
                        match AT::meet(a, b) {
                            Ok(more) => {
                                let ghost pend_mid = pending_edges@;
                                let mut i: usize = 0;
                                while i < more.len()
                                    invariant
                                        i <= more.len(),
                                        !quiet,
                                        pending_edges@.len() == pend_mid.len() + i,
                                        forall|k: int| 0 <= k < pend_mid.len()
                                            ==> pending_edges@[k] == pend_mid[k],
                                        forall|jj: int| 0 <= jj < i
                                            ==> pending_edges@[pend_mid.len() + jj]
                                                == more@[jj],
                                    decreases more.len() - i,
                                {
                                    let extra = more[i];
                                    pending_edges.push(extra);
                                    i += 1;
                                }
                                proof {
                                    let pend2 = pending_edges@;
                                    assert forall|q2: (Value, Use)| pend_mid.contains(q2)
                                        implies pend2.contains(q2) by {
                                        let k = choose|k: int|
                                            0 <= k < pend_mid.len() && pend_mid[k] == q2;
                                        assert(pend2[k] == q2);
                                    }
                                    assert forall|jj: int| 0 <= jj < more@.len()
                                        implies pend2.contains(more@[jj]) by {
                                        assert(pend2[pend_mid.len() + jj] == more@[jj]);
                                    }
                                    // The popped pair's obligation is now
                                    // discharged: this very merge succeeded
                                    // and all it returned is queued.
                                    assert(call_ensures(
                                        AT::meet,
                                        (a, b),
                                        Ok::<Vec<(Value, Use)>, AT::Error>(more),
                                    ));
                                    assert(self.merge_discharged_mod(xv, yu, pend2)) by {
                                        reveal(TypeChecker::merge_discharged_mod);
                                    }
                                    assert forall|x: usize, y: usize|
                                        #[trigger] self.value_use_pair(x, y)
                                        && !old(self).graph().linked(x, y)
                                        implies self.merge_discharged_mod(x, y, pend2)
                                            || type_pairs_to_check@.contains((x, y)) by {
                                        reveal(TypeChecker::value_use_pair);
                                        if self.merge_discharged_mod(x, y, pend_mid) {
                                            Self::lemma_discharged_step(
                                                *self,
                                                *self,
                                                pend_mid,
                                                pend2,
                                                x,
                                                y,
                                            );
                                        } else if pairs_pre.contains((x, y))
                                            && !type_pairs_to_check@.contains((x, y)) {
                                            assert((x, y) == (xv, yu));
                                        }
                                    }
                                }
                            },
                            Err(e) => {
                                proof {
                                    lemma_edge_reaches(
                                        self.graph().edges(),
                                        lhs.id(),
                                        rhs.id(),
                                    );
                                    assert(self.graph().linked(xv, yu));
                                    assert(!old(self).graph().linked(xv, yu));
                                    assert(self.value_use_pair(xv, yu)) by {
                                        reveal(TypeChecker::value_use_pair);
                                    }
                                    assert(call_ensures(
                                        AT::meet,
                                        (a, b),
                                        Err::<Vec<(Value, Use)>, AT::Error>(e),
                                    ));
                                    assert(self.failing_merge(xv, yu, e)) by {
                                        reveal(TypeChecker::failing_merge);
                                    }
                                }
                                return Err(e);
                            },
                        }
                    } else {
                        proof {
                            assert(!(self.is_value_node(xv as int)
                                && self.is_use_node(yu as int)));
                            assert forall|x: usize, y: usize|
                                #[trigger] self.value_use_pair(x, y)
                                && !old(self).graph().linked(x, y)
                                implies self.merge_discharged_mod(x, y, pending_edges@)
                                    || type_pairs_to_check@.contains((x, y)) by {
                                reveal(TypeChecker::value_use_pair);
                                if pairs_pre.contains((x, y))
                                    && !type_pairs_to_check@.contains((x, y)) {
                                    assert((x, y) == (xv, yu));
                                }
                            }
                        }
                    }
                }
                proof {
                    if quiet {
                        assert(pending_edges@.len() == 0);
                    }
                }
            } else {
                proof {
                    if pending_pre == seq![(lhs, rhs)] && outer_pre == *old(self) {
                        assert(l.0 == lhs.id() && u.0 == rhs.id());
                        assert(false);
                    }
                }
                // The assertion names a node this solver never created:
                // record the drop and move on.
                self.dropped = Ghost(self.dropped@.insert(p));
                proof {
                    assert(l.0 >= n0 || u.0 >= n0);
                    assert forall|q: (Value, Use)| #[trigger] self.dropped().contains(q)
                        implies old(self).dropped().contains(q)
                            || q.0.id() >= n0 || q.1.id() >= n0 by {
                        if q != p {
                            assert(outer_pre.dropped().contains(q));
                        }
                    }
                    assert forall|x: usize, y: usize| #[trigger] self.value_use_pair(x, y)
                        && !old(self).graph().linked(x, y)
                        implies self.merge_discharged_mod(x, y, pend1) by {
                        reveal(TypeChecker::value_use_pair);
                        assert(outer_pre.value_use_pair(x, y));
                        assert(outer_pre.merge_discharged_mod(x, y, pending_pre));
                        assert(self.dropped().contains(p));
                        Self::lemma_discharged_step(
                            outer_pre,
                            *self,
                            pending_pre,
                            pend1,
                            x,
                            y,
                        );
                    }
                    if old(self).converged() {
                        assert forall|x: usize, y: usize|
                            #[trigger] old(self).value_use_pair(x, y)
                            implies self.merge_discharged(x, y) by {
                            assert(outer_pre.merge_discharged(x, y));
                            Self::lemma_discharged_step(
                                outer_pre,
                                *self,
                                Seq::empty(),
                                Seq::empty(),
                                x,
                                y,
                            );
                        }
                    }
                }
            }
        }
        proof {
            lemma_edge_reaches(self.graph().edges(), lhs.id(), rhs.id());
            Self::lemma_solve_drain(*old(self), *self, pending_edges@);
        }
        Ok(())
    }

    /// Asserts that the value `lhs` flows into the use `rhs` and propagates
    /// every consequence to a fixed point.
    ///
    /// Each pending assertion is turned into a graph edge; every node pair
    /// the edge newly implies is checked, and only a pair tagged value/use
    /// is handed to the lattice, whose own new assertions join the queue.
    /// The first lattice failure is returned at once, with all state kept:
    /// nothing is rolled back. A lattice-produced assertion that names an
    /// unknown node is dropped, and the ghost record of such drops grows by
    /// nothing else. On success, every pair this call newly obligated
    /// carries a witnessed successful merge, so a run of successful calls
    /// keeps the solver converged.
    pub fn flow(&mut self, lhs: Value, rhs: Use) -> (r: Result<(), AT::Error>)
        requires
            old(self).wf(),
            lhs.id() < old(self).node_count(),
            rhs.id() < old(self).node_count(),
        ensures
            final(self).wf(),
            final(self).nodes() == old(self).nodes(),
            old(self).graph().edges().subset_of(final(self).graph().edges()),
            final(self).graph().edges().contains((lhs.id(), rhs.id())),
            final(self).graph().linked(lhs.id(), rhs.id()),
            old(self).dropped().subset_of(final(self).dropped()),
            forall|q: (Value, Use)| #[trigger] final(self).dropped().contains(q)
                ==> old(self).dropped().contains(q)
                    || q.0.id() >= old(self).node_count()
                    || q.1.id() >= old(self).node_count(),
            r is Ok ==> forall|x: usize, y: usize|
                #[trigger] final(self).value_use_pair(x, y)
                    && !old(self).graph().linked(x, y)
                    ==> final(self).merge_discharged(x, y),
            r is Ok && old(self).converged() ==> final(self).converged(),
            r matches Err(e) ==> exists|x: usize, y: usize|
                #[trigger] final(self).value_use_pair(x, y)
                    && !old(self).graph().linked(x, y)
                    && final(self).failing_merge(x, y, e),
            old(self).lattice_idle(lhs.id(), rhs.id()) ==> (r is Ok
                && final(self).graph().edges()
                    == old(self).graph().edges().insert((lhs.id(), rhs.id()))),
    {
        let r = self.solve(lhs, rhs);
        proof {
            if r is Ok && old(self).converged() {
                Self::lemma_flow_exit(*old(self), *self);
            }
        }
        r
    }
}

} // verus!


