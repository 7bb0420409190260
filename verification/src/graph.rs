//! A directed graph over dense integer node identifiers that keeps its edge
//! sets transitively closed: after every insertion, `downstream_sets[a]`
//! holds exactly the nodes reachable from `a` by a path of length at least
//! one over the edges ever requested, and `upstream_sets[b]` the nodes that
//! reach `b`.

use vstd::prelude::*;
use vstd::set_lib::lemma_len_subset;
use crate::reach::{reaches, newly_implied, lemma_edge_reaches, lemma_reaches_trans,
    lemma_reaches_mono, lemma_reaches_endpoints, lemma_reaches_in_transitive,
    lemma_insert_implied_edge};

verus! {

/// An insertion-ordered set of node identifiers: membership-checked
/// insertion, ordered read-out. The order is first-insertion order, which
/// makes edge-discovery order deterministic.
#[derive(Clone)]
pub struct OrderedSet {
    v: Vec<usize>,
}

impl View for OrderedSet {
    type V = Seq<usize>;

    closed spec fn view(&self) -> Seq<usize> {
        self.v@
    }
}

impl OrderedSet {
    /// Membership as a spec-level predicate.
    pub open spec fn has(&self, x: usize) -> bool {
        self@.contains(x)
    }

    /// No element repeats and every element names a node below `n`.
    pub open spec fn wf(&self, n: nat) -> bool {
        &&& self@.no_duplicates()
        &&& forall|i: int| 0 <= i < self@.len() ==> (#[trigger] self@[i]) < n
    }

    pub fn empty() -> (r: Self)
        ensures
            r@ == Seq::<usize>::empty(),
    {
        OrderedSet { v: Vec::new() }
    }

    pub fn contains(&self, x: usize) -> (r: bool)
        ensures
            r == self.has(x),
    {
        let mut i: usize = 0;
        while i < self.v.len()
            invariant
                i <= self.v.len(),
                forall|j: int| 0 <= j < i ==> self.v@[j] != x,
            decreases self.v.len() - i,
        {
            if self.v[i] == x {
                return true;
            }
            i += 1;
        }
        false
    }

    /// If the element is absent it is appended to the end and `true` comes
    /// back; otherwise the set is unchanged and `false` comes back.
    pub fn insert(&mut self, value: usize) -> (r: bool)
        ensures
            r == !old(self).has(value),
            final(self)@ == if r {
                old(self)@.push(value)
            } else {
                old(self)@
            },
    {
        if self.contains(value) {
            false
        } else {
            self.v.push(value);
            true
        }
    }

    pub fn len(&self) -> (r: usize)
        ensures
            r == self@.len(),
    {
        self.v.len()
    }

    pub fn index(&self, i: usize) -> (r: usize)
        requires
            i < self@.len(),
        ensures
            r == self@[i as int],
    {
        self.v[i]
    }

    /// A well-formed set over `n` node identifiers holds at most `n`
    /// elements: its elements are distinct and drawn from `0..n`.
    pub proof fn lemma_len_bound(&self, n: nat)
        requires
            self.wf(n),
            n <= usize::MAX,
        ensures
            self@.len() <= n,
    {
        self@.unique_seq_to_set();
        assert(self@.to_set().subset_of(ids_below(n)));
        lemma_ids_below_card(n);
        lemma_len_subset(self@.to_set(), ids_below(n));
    }
}

/// The set of node identifiers below `n`.
pub open spec fn ids_below(n: nat) -> Set<usize> {
    Set::new(|u: usize| (u as nat) < n)
}

pub proof fn lemma_ids_below_card(n: nat)
    requires
        n <= usize::MAX,
    ensures
        ids_below(n).finite(),
        ids_below(n).len() == n,
    decreases n,
{
    if n == 0 {
        assert(ids_below(0) =~= Set::<usize>::empty());
    } else {
        lemma_ids_below_card((n - 1) as nat);
        let last = (n - 1) as usize;
        assert(ids_below(n) =~= ids_below((n - 1) as nat).insert(last));
        assert(!ids_below((n - 1) as nat).contains(last));
    }
}

/// The total number of entries across a sequence of ordered sets; the
/// progress measure of the closure worklist.
pub closed spec fn sets_total(s: Seq<OrderedSet>) -> nat
    decreases s.len(),
{
    if s.len() == 0 {
        0
    } else {
        sets_total(s.drop_last()) + s.last()@.len()
    }
}

proof fn lemma_sets_total_push(s: Seq<OrderedSet>, x: OrderedSet)
    ensures
        sets_total(s.push(x)) == sets_total(s) + x@.len(),
{
    assert(s.push(x).drop_last() =~= s);
}

proof fn lemma_sets_total_update(s: Seq<OrderedSet>, i: int, x: OrderedSet)
    requires
        0 <= i < s.len(),
    ensures
        sets_total(s.update(i, x)) + s[i]@.len() == sets_total(s) + x@.len(),
    decreases s.len(),
{
    let t = s.update(i, x);
    if i == s.len() - 1 {
        assert(t.drop_last() =~= s.drop_last());
        assert(t.last() == x);
    } else {
        assert(t.drop_last() =~= s.drop_last().update(i, x));
        assert(t.last() == s.last());
        lemma_sets_total_update(s.drop_last(), i, x);
    }
}

proof fn lemma_sets_total_bound(s: Seq<OrderedSet>, n: nat)
    requires
        forall|i: int| 0 <= i < s.len() ==> (#[trigger] s[i])@.len() <= n,
    ensures
        sets_total(s) <= s.len() * n,
    decreases s.len(),
{
    if s.len() > 0 {
        lemma_sets_total_bound(s.drop_last(), n);
        assert(s.drop_last().len() * n + n == s.len() * n) by (nonlinear_arith)
            requires s.len() >= 1 && s.drop_last().len() == s.len() - 1;
    }
}

/// Membership in a sequence after a push: the old members and the new one.
proof fn lemma_push_contains<T>(s: Seq<T>, v: T, q: T)
    ensures
        s.push(v).contains(q) <==> s.contains(q) || q == v,
{
    if s.push(v).contains(q) {
        let k = choose|k: int| 0 <= k < s.push(v).len() && s.push(v)[k] == q;
        if k < s.len() {
            assert(s[k] == q);
        }
    }
    if s.contains(q) {
        let k = choose|k: int| 0 <= k < s.len() && s[k] == q;
        assert(s.push(v)[k] == q);
    }
    assert(s.push(v)[s.len() as int] == v);
}

/// Membership in a sequence about to lose its last element.
proof fn lemma_unpop_contains<T>(s: Seq<T>, q: T)
    requires
        s.len() > 0,
    ensures
        s.contains(q) <==> s.drop_last().contains(q) || q == s.last(),
{
    if s.contains(q) {
        let k = choose|k: int| 0 <= k < s.len() && s[k] == q;
        if k < s.len() - 1 {
            assert(s.drop_last()[k] == q);
        }
    }
    if s.drop_last().contains(q) {
        let k = choose|k: int| 0 <= k < s.drop_last().len() && s.drop_last()[k] == q;
        assert(s[k] == q);
    }
    assert(s[s.len() - 1] == s.last());
}

proof fn lemma_push_no_duplicates<T>(s: Seq<T>, v: T)
    requires
        s.no_duplicates(),
        !s.contains(v),
    ensures
        s.push(v).no_duplicates(),
{
    let t = s.push(v);
    assert forall|k1: int, k2: int| 0 <= k1 < t.len() && 0 <= k2 < t.len() && k1 != k2
        implies t[k1] != t[k2] by {
        if k1 < s.len() && k2 < s.len() {
            assert(t[k1] == s[k1] && t[k2] == s[k2]);
        } else if k1 < s.len() {
            assert(t[k2] == v && t[k1] == s[k1]);
        } else {
            assert(t[k1] == v && t[k2] == s[k2]);
        }
    }
}

/// The reachability graph: two parallel arrays of ordered sets indexed by
/// node identifier, kept exactly transitively closed over the edges ever
/// requested (which a ghost field records).
#[derive(Clone)]
pub struct Graph {
    /// For each node, the nodes it reaches by a path of length at least one.
    downstream_sets: Vec<OrderedSet>,
    /// For each node, the nodes that reach it by a path of length at least one.
    upstream_sets: Vec<OrderedSet>,
    /// The edges requested through `add_edge_mut`, as a ghost record; the
    /// edge sets above hold this relation's transitive closure.
    requested: Ghost<Set<(usize, usize)>>,
}

impl Graph {
    /// How many nodes have been added.
    pub closed spec fn node_count(self) -> nat {
        self.downstream_sets@.len()
    }

    /// The edges requested so far.
    pub closed spec fn edges(self) -> Set<(usize, usize)> {
        self.requested@
    }

    /// `b` stands in `a`'s downstream set.
    pub closed spec fn linked(self, a: usize, b: usize) -> bool {
        a < self.downstream_sets@.len() && self.downstream_sets@[a as int].has(b)
    }

    /// `a` stands in `b`'s upstream set.
    pub closed spec fn up_linked(self, a: usize, b: usize) -> bool {
        b < self.upstream_sets@.len() && self.upstream_sets@[b as int].has(a)
    }

    /// The downstream relation as a set of pairs.
    pub open spec fn down_rel(self) -> Set<(usize, usize)> {
        Set::new(|p: (usize, usize)| self.linked(p.0, p.1))
    }

    /// Total entry count of the downstream sets; grows by one per implied
    /// edge and is bounded by the square of the node count.
    pub closed spec fn down_total(self) -> nat {
        sets_total(self.downstream_sets@)
    }

    spec fn up_seq(self, i: int) -> Seq<usize> {
        self.upstream_sets@[i]@
    }

    spec fn down_seq(self, i: int) -> Seq<usize> {
        self.downstream_sets@[i]@
    }

    /// A worklist entry: both identifiers name nodes, and the pair is
    /// already known reachable over the requested edges.
    spec fn pair_ok(self, e: Set<(usize, usize)>, p: (usize, usize)) -> bool {
        p.0 < self.node_count() && p.1 < self.node_count() && reaches(e, p.0, p.1)
    }

    /// The shape of the two arrays: equal length, well-formed sets, and the
    /// upstream sets the exact mirror of the downstream ones.
    pub closed spec fn arrays_ok(self) -> bool {
        &&& self.upstream_sets@.len() == self.downstream_sets@.len()
        &&& forall|i: int| 0 <= i < self.downstream_sets@.len()
            ==> (#[trigger] self.downstream_sets@[i]).wf(self.node_count())
        &&& forall|i: int| 0 <= i < self.upstream_sets@.len()
            ==> (#[trigger] self.upstream_sets@[i]).wf(self.node_count())
        &&& forall|a: usize, b: usize| #[trigger] self.linked(a, b) <==> self.up_linked(a, b)
    }

    /// Every requested edge joins two existing nodes.
    pub closed spec fn edges_in_range(self) -> bool {
        forall|p: (usize, usize)| #[trigger] self.edges().contains(p)
            ==> p.0 < self.node_count() && p.1 < self.node_count()
    }

    pub closed spec fn sets_ok(self) -> bool {
        self.arrays_ok() && self.edges_in_range()
    }

    /// The defining invariant: an edge stands in the downstream sets exactly
    /// when its target is reachable from its source over the requested edges.
    pub open spec fn closure_ok(self) -> bool {
        forall|a: usize, b: usize| #![trigger self.linked(a, b)]
            #![trigger reaches(self.edges(), a, b)]
            self.linked(a, b) <==> reaches(self.edges(), a, b)
    }

    pub open spec fn wf(self) -> bool {
        self.sets_ok() && self.closure_ok()
    }

    /// The upstream sets mirror reachability too: what `sets_ok` and
    /// `closure_ok` together say of any well-formed graph.
    pub proof fn lemma_up_characterized(self, a: usize, b: usize)
        requires
            self.wf(),
        ensures
            self.up_linked(a, b) <==> reaches(self.edges(), a, b),
            self.linked(a, b) <==> reaches(self.edges(), a, b),
    {
    }

    /// A linked pair names two existing nodes.
    pub proof fn lemma_linked_in_range(self, a: usize, b: usize)
        requires
            self.sets_ok(),
            self.linked(a, b),
        ensures
            a < self.node_count(),
            b < self.node_count(),
    {
        assert(self.downstream_sets@[a as int].wf(self.node_count()));
        let s = self.downstream_sets@[a as int]@;
        let k = choose|k: int| 0 <= k < s.len() && s[k] == b;
        assert(s[k] < self.node_count());
    }

    pub proof fn lemma_down_total_bound(self)
        requires
            self.sets_ok(),
        ensures
            self.down_total() <= self.node_count() * self.node_count(),
    {
        let n = self.node_count();
        vstd::std_specs::vec::axiom_spec_len(&self.downstream_sets);
        assert forall|i: int| 0 <= i < self.downstream_sets@.len()
            implies (#[trigger] self.downstream_sets@[i])@.len() <= n by {
            self.downstream_sets@[i].lemma_len_bound(n);
        }
        lemma_sets_total_bound(self.downstream_sets@, n);
    }

    pub fn new() -> (r: Self)
        ensures
            r.wf(),
            r.node_count() == 0,
            r.edges() == Set::<(usize, usize)>::empty(),
            r.down_total() == 0,
    {
        let r = Graph {
            downstream_sets: Vec::new(),
            upstream_sets: Vec::new(),
            requested: Ghost(Set::empty()),
        };
        proof {
            assert forall|a: usize, b: usize| !reaches(r.edges(), a, b) by {
                if reaches(r.edges(), a, b) {
                    lemma_reaches_endpoints(r.edges(), a, b);
                }
            }
        }
        r
    }

    /// Adds a new node in place by reference, returning its identifier,
    /// which is always the count of nodes before the call.
    pub fn add_node_mut(&mut self) -> (id: usize)
        requires
            old(self).wf(),
        ensures
            final(self).wf(),
            id == old(self).node_count(),
            final(self).node_count() == old(self).node_count() + 1,
            final(self).edges() == old(self).edges(),
            final(self).down_total() == old(self).down_total(),
            forall|a: usize, b: usize|
                #[trigger] final(self).linked(a, b) <==> old(self).linked(a, b),
    {
        self.upstream_sets.push(OrderedSet::empty());
        self.downstream_sets.push(OrderedSet::empty());
        proof {
            lemma_sets_total_push(old(self).downstream_sets@, self.downstream_sets@.last());
            let n1 = self.node_count();
            assert forall|i: int| 0 <= i < self.downstream_sets@.len()
                implies (#[trigger] self.downstream_sets@[i]).wf(n1) by {
                if i < old(self).downstream_sets@.len() {
                    assert(old(self).downstream_sets@[i].wf(old(self).node_count()));
                }
            }
            assert forall|i: int| 0 <= i < self.upstream_sets@.len()
                implies (#[trigger] self.upstream_sets@[i]).wf(n1) by {
                if i < old(self).upstream_sets@.len() {
                    assert(old(self).upstream_sets@[i].wf(old(self).node_count()));
                }
            }
            assert forall|a: usize, b: usize|
                #[trigger] final(self).linked(a, b) == old(self).linked(a, b) by {
                if a < old(self).node_count() {
                    assert(self.downstream_sets@[a as int] == old(self).downstream_sets@[a as int]);
                } else if a < self.node_count() {
                    assert(self.downstream_sets@[a as int]@ == Seq::<usize>::empty());
                }
            }
            assert forall|a: usize, b: usize|
                #[trigger] final(self).up_linked(a, b) == old(self).up_linked(a, b) by {
                if b < old(self).node_count() {
                    assert(self.upstream_sets@[b as int] == old(self).upstream_sets@[b as int]);
                } else if b < self.node_count() {
                    assert(self.upstream_sets@[b as int]@ == Seq::<usize>::empty());
                }
            }
            assert forall|p: (usize, usize)| #[trigger] final(self).edges().contains(p)
                implies p.0 < final(self).node_count() && p.1 < final(self).node_count() by {
                assert(old(self).edges().contains(p));
            }
            assert forall|a: usize, b: usize| #[trigger] final(self).linked(a, b)
                <==> reaches(final(self).edges(), a, b) by {
                assert(final(self).linked(a, b) == old(self).linked(a, b));
                assert(old(self).linked(a, b) <==> reaches(old(self).edges(), a, b));
            }
            assert forall|a: usize, b: usize| #[trigger] final(self).linked(a, b)
                <==> final(self).up_linked(a, b) by {
                assert(final(self).linked(a, b) == old(self).linked(a, b));
                assert(final(self).up_linked(a, b) == old(self).up_linked(a, b));
            }
        }
        self.upstream_sets.len() - 1
    }

    /// Adds a new node by value, returning the modified graph and the
    /// identifier of the node.
    pub fn add_node(self) -> (r: (Self, usize))
        requires
            self.wf(),
        ensures
            r.0.wf(),
            r.1 == self.node_count(),
            r.0.node_count() == self.node_count() + 1,
            r.0.edges() == self.edges(),
            forall|a: usize, b: usize| #[trigger] r.0.linked(a, b) <==> self.linked(a, b),
    {
        let mut g = self;
        let new_id = g.add_node_mut();
        (g, new_id)
    }

    /// Queues `(u, y)` for every `u` in node `x`'s upstream set.
    fn queue_upstream(&self, x: usize, y: usize, work: &mut Vec<(usize, usize)>)
        requires
            x < self.upstream_sets@.len(),
        ensures
            final(work)@.len() == old(work)@.len() + self.up_seq(x as int).len(),
            forall|k: int| 0 <= k < old(work)@.len() ==> final(work)@[k] == old(work)@[k],
            forall|j: int| 0 <= j < self.up_seq(x as int).len()
                ==> final(work)@[old(work)@.len() + j] == (self.up_seq(x as int)[j], y),
    {
        let mut i: usize = 0;
        let count = self.upstream_sets[x].len();
        while i < count
            invariant
                x < self.upstream_sets@.len(),
                count == self.up_seq(x as int).len(),
                i <= count,
                work@.len() == old(work)@.len() + i,
                forall|k: int| 0 <= k < old(work)@.len() ==> work@[k] == old(work)@[k],
                forall|j: int| 0 <= j < i
                    ==> work@[old(work)@.len() + j] == (self.up_seq(x as int)[j], y),
            decreases count - i,
        {
            work.push((self.upstream_sets[x].index(i), y));
            i += 1;
        }
    }

    /// Queues `(x, v)` for every `v` in node `y`'s downstream set.
    fn queue_downstream(&self, x: usize, y: usize, work: &mut Vec<(usize, usize)>)
        requires
            y < self.downstream_sets@.len(),
        ensures
            final(work)@.len() == old(work)@.len() + self.down_seq(y as int).len(),
            forall|k: int| 0 <= k < old(work)@.len() ==> final(work)@[k] == old(work)@[k],
            forall|j: int| 0 <= j < self.down_seq(y as int).len()
                ==> final(work)@[old(work)@.len() + j] == (x, self.down_seq(y as int)[j]),
    {
        let mut i: usize = 0;
        let count = self.downstream_sets[y].len();
        while i < count
            invariant
                y < self.downstream_sets@.len(),
                count == self.down_seq(y as int).len(),
                i <= count,
                work@.len() == old(work)@.len() + i,
                forall|k: int| 0 <= k < old(work)@.len() ==> work@[k] == old(work)@[k],
                forall|j: int| 0 <= j < i
                    ==> work@[old(work)@.len() + j] == (x, self.down_seq(y as int)[j]),
            decreases count - i,
        {
            work.push((x, self.downstream_sets[y].index(i)));
            i += 1;
        }
    }

    /// Adds a new edge, updating existing edges to maintain transitivity.
    ///
    /// A worklist seeded with `(lhs, rhs)` inserts every pair the new edge
    /// implies; the returned vector reports exactly those pairs, in
    /// discovery order and without duplicates — empty when the edge was
    /// already implied, and holding `(lhs, rhs)` itself when it was not.
    #[verifier::rlimit(100)]
    pub fn add_edge_mut(&mut self, lhs: usize, rhs: usize) -> (new_edges: Vec<(usize, usize)>)
        requires
            old(self).wf(),
            lhs < old(self).node_count(),
            rhs < old(self).node_count(),
        ensures
            final(self).wf(),
            final(self).node_count() == old(self).node_count(),
            final(self).edges() == old(self).edges().insert((lhs, rhs)),
            forall|p: (usize, usize)| #[trigger] new_edges@.contains(p)
                <==> newly_implied(old(self).edges(), lhs, rhs).contains(p),
            new_edges@.no_duplicates(),
            final(self).down_total() == old(self).down_total() + new_edges@.len(),
            forall|a: usize, b: usize|
                #[trigger] old(self).linked(a, b) ==> final(self).linked(a, b),
            !reaches(old(self).edges(), lhs, rhs) ==> new_edges@.contains((lhs, rhs)),
            reaches(old(self).edges(), lhs, rhs) ==> new_edges@.len() == 0,
    {
        let ghost g0 = *old(self);
        let ghost e0 = g0.edges();
        let ghost e1 = e0.insert((lhs, rhs));
        let ghost n = g0.node_count();

        self.requested = Ghost(e1);

        let mut work: Vec<(usize, usize)> = Vec::new();
        work.push((lhs, rhs));
        let mut new_edges: Vec<(usize, usize)> = Vec::new();

        proof {
            lemma_edge_reaches(e1, lhs, rhs);
            lemma_same_link_structure(g0, *self);
            assert forall|p: (usize, usize)| #[trigger] self.edges().contains(p)
                implies p.0 < self.node_count() && p.1 < self.node_count() by {
                if p != (lhs, rhs) {
                    assert(g0.edges().contains(p));
                }
            }
            assert forall|a: usize, b: usize| #[trigger] self.linked(a, b)
                implies reaches(e1, a, b) by {
                assert(g0.linked(a, b));
                lemma_reaches_mono(e0, e1, a, b);
            }
            assert forall|a: usize, b: usize, c: usize|
                #![trigger self.linked(a, b), self.linked(b, c)]
                self.linked(a, b) && self.linked(b, c)
                    implies self.linked(a, c) || work@.contains((a, c)) by {
                assert(g0.linked(a, b) && g0.linked(b, c));
                lemma_reaches_trans(e0, a, b, c);
                assert(g0.linked(a, c));
            }
            assert(work@[0] == (lhs, rhs));
            assert(work@.contains((lhs, rhs)));
            self.lemma_down_total_bound();
        }

        while work.len() > 0
            invariant
                self.sets_ok(),
                self.node_count() == n,
                self.edges() == e1,
                lhs < n,
                rhs < n,
                g0.sets_ok(),
                g0.closure_ok(),
                g0.node_count() == n,
                g0.edges() == e0,
                e1 == e0.insert((lhs, rhs)),
                forall|a: usize, b: usize|
                    #[trigger] g0.linked(a, b) ==> self.linked(a, b),
                forall|a: usize, b: usize|
                    #[trigger] self.linked(a, b) ==> reaches(e1, a, b),
                forall|k: int| 0 <= k < work@.len() ==> self.pair_ok(e1, #[trigger] work@[k]),
                forall|a: usize, b: usize, c: usize|
                    #![trigger self.linked(a, b), self.linked(b, c)]
                    self.linked(a, b) && self.linked(b, c)
                        ==> self.linked(a, c) || work@.contains((a, c)),
                self.linked(lhs, rhs) || work@.contains((lhs, rhs)),
                forall|a: usize, b: usize| #[trigger] self.linked(a, b)
                    <==> g0.linked(a, b) || new_edges@.contains((a, b)),
                forall|k: int| 0 <= k < new_edges@.len()
                    ==> !g0.linked((#[trigger] new_edges@[k]).0, new_edges@[k].1),
                new_edges@.no_duplicates(),
                self.down_total() == g0.down_total() + new_edges@.len(),
                self.down_total() <= n * n,
            decreases n * n - self.down_total(), work@.len(),
        {
            let ghost w_pre = work@;
            let ghost s0 = *self;
            let p = work.pop().unwrap();
            let (x, y) = p;
            proof {
                assert(s0.pair_ok(e1, w_pre[w_pre.len() - 1]));
                assert forall|q: (usize, usize)| w_pre.contains(q)
                    implies work@.contains(q) || q == (x, y) by {
                    lemma_unpop_contains(w_pre, q);
                }
            }
            let added = self.downstream_sets[x].insert(y);
            if added {
                proof {
                    assert(!s0.linked(x, y));
                    assert(!s0.up_linked(x, y));
                }
                let up_added = self.upstream_sets[y].insert(x);
                let ghost ne0 = new_edges@;
                new_edges.push((x, y));
                let ghost s1 = *self;
                let ghost w1 = work@;
                proof {
                    assert(up_added);
                    lemma_insert_pair(s0, s1, x, y, n);
                    lemma_report_grows(g0, s0, s1, x, y, ne0, new_edges@);
                    s1.lemma_down_total_bound();
                }
                self.queue_upstream(x, y, &mut work);
                let ghost w_mid = work@;
                self.queue_downstream(x, y, &mut work);
                proof {
                    let w2 = work@;
                    assert forall|q: (usize, usize)| w1.contains(q) implies w2.contains(q) by {
                        let k = choose|k: int| 0 <= k < w1.len() && w1[k] == q;
                        assert(w_mid[k] == q);
                        assert(w2[k] == q);
                    }
                    assert forall|u: usize| s1.up_seq(x as int).contains(u)
                        implies w2.contains((u, y)) by {
                        let j = choose|j: int|
                            0 <= j < s1.up_seq(x as int).len() && s1.up_seq(x as int)[j] == u;
                        assert(w_mid[w1.len() + j] == (u, y));
                        assert(w2[w1.len() + j] == (u, y));
                    }
                    assert forall|v: usize| s1.down_seq(y as int).contains(v)
                        implies w2.contains((x, v)) by {
                        let j = choose|j: int|
                            0 <= j < s1.down_seq(y as int).len() && s1.down_seq(y as int)[j] == v;
                        assert(w2[w_mid.len() + j] == (x, v));
                    }
                    assert forall|k: int| 0 <= k < w2.len()
                        implies s1.pair_ok(e1, #[trigger] w2[k]) by {
                        if k < w1.len() {
                            assert(w2[k] == w_pre[k]);
                            assert(s0.pair_ok(e1, w_pre[k]));
                        } else if k < w_mid.len() {
                            let j = k - w1.len();
                            let u = s1.up_seq(x as int)[j];
                            assert(w2[k] == (u, y));
                            assert(s1.up_seq(x as int).contains(u));
                            assert(s1.up_linked(u, x));
                            if s0.up_linked(u, x) {
                                assert(s0.linked(u, x));
                                lemma_reaches_trans(e1, u, x, y);
                            } else {
                                assert(u == x && x == y);
                            }
                        } else {
                            let j = k - w_mid.len();
                            let v = s1.down_seq(y as int)[j];
                            assert(w2[k] == (x, v));
                            assert(s1.down_seq(y as int).contains(v));
                            assert(s1.linked(y, v));
                            if s0.linked(y, v) {
                                lemma_reaches_trans(e1, x, y, v);
                            } else {
                                assert(y == x && v == y);
                            }
                        }
                    }
                    lemma_trans_mod_work(s0, s1, x, y, w_pre, work@);
                    if !s1.linked(lhs, rhs) {
                        assert(w_pre.contains((lhs, rhs)));
                        assert((lhs, rhs) != (x, y));
                        assert(w1.contains((lhs, rhs)));
                        assert(w2.contains((lhs, rhs)));
                    }
                }
            } else {
                proof {
                    assert(s0.linked(x, y));
                    assert(self.downstream_sets@
                        == s0.downstream_sets@.update(x as int, self.downstream_sets@[x as int]));
                    assert forall|i: int| 0 <= i < s0.downstream_sets@.len()
                        implies (#[trigger] self.downstream_sets@[i])@
                            == s0.downstream_sets@[i]@ by {
                        if i != x as int {
                            assert(self.downstream_sets@[i] == s0.downstream_sets@[i]);
                        }
                    }
                    lemma_same_link_structure(s0, *self);
                    assert forall|a: usize, b: usize, c: usize|
                        #![trigger self.linked(a, b), self.linked(b, c)]
                        self.linked(a, b) && self.linked(b, c)
                            implies self.linked(a, c) || work@.contains((a, c)) by {
                        assert(s0.linked(a, b) && s0.linked(b, c));
                        assert(s0.linked(a, c) || w_pre.contains((a, c)));
                        if w_pre.contains((a, c)) && !work@.contains((a, c)) {
                            assert((a, c) == (x, y));
                            assert(s0.linked(x, y));
                        }
                    }
                    if !self.linked(lhs, rhs) {
                        assert(w_pre.contains((lhs, rhs)));
                        assert((lhs, rhs) != (x, y));
                    }
                }
            }
        }

        proof {
            lemma_closure_complete(g0, *self, lhs, rhs, new_edges@);
        }
        new_edges
    }

    /// Adds a new edge by value, returning the modified graph and all newly
    /// implied edges.
    pub fn add_edge(self, lhs: usize, rhs: usize) -> (r: (Self, Vec<(usize, usize)>))
        requires
            self.wf(),
            lhs < self.node_count(),
            rhs < self.node_count(),
        ensures
            r.0.wf(),
            r.0.node_count() == self.node_count(),
            r.0.edges() == self.edges().insert((lhs, rhs)),
            forall|p: (usize, usize)| #[trigger] r.1@.contains(p)
                <==> newly_implied(self.edges(), lhs, rhs).contains(p),
            r.1@.no_duplicates(),
            !reaches(self.edges(), lhs, rhs) ==> r.1@.contains((lhs, rhs)),
            reaches(self.edges(), lhs, rhs) ==> r.1@.len() == 0,
    {
        let mut g = self;
        let new_edges = g.add_edge_mut(lhs, rhs);
        (g, new_edges)
    }
}

proof fn lemma_sets_total_congruence(s0: Seq<OrderedSet>, s1: Seq<OrderedSet>)
    requires
        s1.len() == s0.len(),
        forall|i: int| 0 <= i < s0.len() ==> (#[trigger] s1[i])@ == s0[i]@,
    ensures
        sets_total(s1) == sets_total(s0),
    decreases s0.len(),
{
    if s0.len() > 0 {
        assert forall|i: int| 0 <= i < s0.drop_last().len()
            implies (#[trigger] s1.drop_last()[i])@ == s0.drop_last()[i]@ by {
            assert(s1[i]@ == s0[i]@);
        }
        lemma_sets_total_congruence(s0.drop_last(), s1.drop_last());
        assert(s1.last()@ == s0.last()@);
    }
}

impl Default for Graph {
    fn default() -> (r: Self)
        ensures
            r.wf(),
            r.node_count() == 0,
            r.edges() == Set::<(usize, usize)>::empty(),
            r.down_total() == 0,
    {
        Graph::new()
    }
}

/// Idempotence of edge insertion: requesting an edge that is not yet
/// implied reports at least the pair itself, and repeating the same request
/// with no other edges in between reports nothing, because the edge set
/// gains nothing and the first request already closed the graph over it.
pub proof fn lemma_add_edge_idempotent(e: Set<(usize, usize)>, a: usize, b: usize)
    ensures
        !reaches(e, a, b) ==> newly_implied(e, a, b).contains((a, b)),
        newly_implied(e.insert((a, b)), a, b) =~= Set::<(usize, usize)>::empty(),
{
    let e1 = e.insert((a, b));
    if !reaches(e, a, b) {
        lemma_edge_reaches(e1, a, b);
        assert(newly_implied(e, a, b).contains((a, b)));
    }
    lemma_edge_reaches(e1, a, b);
    lemma_insert_implied_edge(e1, a, b);
}

/// Two graphs whose edge-set arrays hold the same sequences agree on every
/// structural spec function.
proof fn lemma_same_link_structure(s0: Graph, s1: Graph)
    requires
        s1.downstream_sets@.len() == s0.downstream_sets@.len(),
        forall|i: int| 0 <= i < s0.downstream_sets@.len()
            ==> (#[trigger] s1.downstream_sets@[i])@ == s0.downstream_sets@[i]@,
        s1.upstream_sets@.len() == s0.upstream_sets@.len(),
        forall|i: int| 0 <= i < s0.upstream_sets@.len()
            ==> (#[trigger] s1.upstream_sets@[i])@ == s0.upstream_sets@[i]@,
    ensures
        forall|a: usize, b: usize| #[trigger] s1.linked(a, b) == s0.linked(a, b),
        forall|a: usize, b: usize| #[trigger] s1.up_linked(a, b) == s0.up_linked(a, b),
        s1.down_total() == s0.down_total(),
        s1.node_count() == s0.node_count(),
        s0.arrays_ok() ==> s1.arrays_ok(),
        s0.arrays_ok() && s1.edges() == s0.edges() && s0.edges_in_range()
            ==> s1.sets_ok(),
{
    lemma_sets_total_congruence(s0.downstream_sets@, s1.downstream_sets@);
    assert forall|a: usize, b: usize| #[trigger] s1.linked(a, b) == s0.linked(a, b) by {
        if a < s0.downstream_sets@.len() {
            assert(s1.downstream_sets@[a as int]@ == s0.downstream_sets@[a as int]@);
        }
    }
    assert forall|a: usize, b: usize| #[trigger] s1.up_linked(a, b) == s0.up_linked(a, b) by {
        if b < s0.upstream_sets@.len() {
            assert(s1.upstream_sets@[b as int]@ == s0.upstream_sets@[b as int]@);
        }
    }
    if s0.arrays_ok() {
        assert forall|i: int| 0 <= i < s1.downstream_sets@.len()
            implies (#[trigger] s1.downstream_sets@[i]).wf(s1.node_count()) by {
            assert(s0.downstream_sets@[i].wf(s0.node_count()));
        }
        assert forall|i: int| 0 <= i < s1.upstream_sets@.len()
            implies (#[trigger] s1.upstream_sets@[i]).wf(s1.node_count()) by {
            assert(s0.upstream_sets@[i].wf(s0.node_count()));
        }
        if s1.edges() == s0.edges() && s0.edges_in_range() {
            assert forall|p: (usize, usize)| #[trigger] s1.edges().contains(p)
                implies p.0 < s1.node_count() && p.1 < s1.node_count() by {
                assert(s0.edges().contains(p));
            }
        }
    }
}

/// Inserting the pair `(x, y)` into the downstream set of `x` and the
/// upstream set of `y` extends the link relation by exactly that pair and
/// keeps the arrays well formed.
proof fn lemma_insert_pair(s0: Graph, s1: Graph, x: usize, y: usize, n: nat)
    requires
        s0.sets_ok(),
        s0.node_count() == n,
        x < n,
        y < n,
        !s0.linked(x, y),
        s1.downstream_sets@ == s0.downstream_sets@.update(
            x as int,
            s1.downstream_sets@[x as int],
        ),
        s1.down_seq(x as int) == s0.down_seq(x as int).push(y),
        s1.upstream_sets@ == s0.upstream_sets@.update(y as int, s1.upstream_sets@[y as int]),
        s1.up_seq(y as int) == s0.up_seq(y as int).push(x),
        s1.edges() == s0.edges(),
    ensures
        s1.node_count() == n,
        forall|a: usize, b: usize| #[trigger] s1.linked(a, b)
            <==> s0.linked(a, b) || (a == x && b == y),
        forall|a: usize, b: usize| #[trigger] s1.up_linked(a, b)
            <==> s0.up_linked(a, b) || (a == x && b == y),
        s1.sets_ok(),
        s1.down_total() == s0.down_total() + 1,
{
    assert(!s0.down_seq(x as int).contains(y));
    assert(!s0.up_linked(x, y));
    assert(!s0.up_seq(y as int).contains(x));
    assert forall|a: usize, b: usize| #[trigger] s1.linked(a, b)
        <==> s0.linked(a, b) || (a == x && b == y) by {
        if a == x {
            lemma_push_contains(s0.down_seq(a as int), y, b);
        } else if a < n {
            assert(s1.downstream_sets@[a as int] == s0.downstream_sets@[a as int]);
        }
    }
    assert forall|a: usize, b: usize| #[trigger] s1.up_linked(a, b)
        <==> s0.up_linked(a, b) || (a == x && b == y) by {
        if b == y {
            lemma_push_contains(s0.up_seq(b as int), x, a);
        } else if b < n {
            assert(s1.upstream_sets@[b as int] == s0.upstream_sets@[b as int]);
        }
    }
    assert forall|i: int| 0 <= i < s1.downstream_sets@.len()
        implies (#[trigger] s1.downstream_sets@[i]).wf(n) by {
        if i == x as int {
            lemma_push_no_duplicates(s0.down_seq(i), y);
            assert forall|k: int| 0 <= k < s1.down_seq(i).len()
                implies (#[trigger] s1.down_seq(i)[k]) < n by {
                if k < s0.down_seq(i).len() {
                    assert(s0.down_seq(i)[k] < n);
                } else {
                    assert(s1.down_seq(i)[k] == y);
                }
            }
        } else {
            assert(s1.downstream_sets@[i] == s0.downstream_sets@[i]);
            assert(s0.downstream_sets@[i].wf(n));
        }
    }
    assert forall|i: int| 0 <= i < s1.upstream_sets@.len()
        implies (#[trigger] s1.upstream_sets@[i]).wf(n) by {
        if i == y as int {
            lemma_push_no_duplicates(s0.up_seq(i), x);
            assert forall|k: int| 0 <= k < s1.up_seq(i).len()
                implies (#[trigger] s1.up_seq(i)[k]) < n by {
                if k < s0.up_seq(i).len() {
                    assert(s0.up_seq(i)[k] < n);
                } else {
                    assert(s1.up_seq(i)[k] == x);
                }
            }
        } else {
            assert(s1.upstream_sets@[i] == s0.upstream_sets@[i]);
            assert(s0.upstream_sets@[i].wf(n));
        }
    }
    assert forall|a: usize, b: usize| #[trigger] s1.linked(a, b) <==> s1.up_linked(a, b) by {
        assert(s0.linked(a, b) <==> s0.up_linked(a, b));
    }
    assert forall|q: (usize, usize)| #[trigger] s1.edges().contains(q)
        implies q.0 < s1.node_count() && q.1 < s1.node_count() by {
        assert(s0.edges().contains(q));
    }
    lemma_sets_total_update(s0.downstream_sets@, x as int, s1.downstream_sets@[x as int]);
}

/// Pushing the newly inserted pair onto the report keeps the report an
/// exact, duplicate-free record of the growth since the call began.
proof fn lemma_report_grows(
    g0: Graph,
    s0: Graph,
    s1: Graph,
    x: usize,
    y: usize,
    ne0: Seq<(usize, usize)>,
    ne1: Seq<(usize, usize)>,
)
    requires
        forall|a: usize, b: usize| #[trigger] s0.linked(a, b)
            <==> g0.linked(a, b) || ne0.contains((a, b)),
        forall|k: int| 0 <= k < ne0.len()
            ==> !g0.linked((#[trigger] ne0[k]).0, ne0[k].1),
        ne0.no_duplicates(),
        !s0.linked(x, y),
        forall|a: usize, b: usize| #[trigger] s1.linked(a, b)
            <==> s0.linked(a, b) || (a == x && b == y),
        ne1 == ne0.push((x, y)),
    ensures
        forall|a: usize, b: usize| #[trigger] s1.linked(a, b)
            <==> g0.linked(a, b) || ne1.contains((a, b)),
        forall|k: int| 0 <= k < ne1.len()
            ==> !g0.linked((#[trigger] ne1[k]).0, ne1[k].1),
        ne1.no_duplicates(),
{
    assert(!ne0.contains((x, y)));
    assert(!g0.linked(x, y));
    lemma_push_no_duplicates(ne0, (x, y));
    assert forall|a: usize, b: usize| #[trigger] s1.linked(a, b)
        <==> g0.linked(a, b) || ne1.contains((a, b)) by {
        lemma_push_contains(ne0, (x, y), (a, b));
        assert(s0.linked(a, b) <==> g0.linked(a, b) || ne0.contains((a, b)));
    }
    assert forall|k: int| 0 <= k < ne1.len()
        implies !g0.linked((#[trigger] ne1[k]).0, ne1[k].1) by {
        if k < ne0.len() {
            assert(ne1[k] == ne0[k]);
        } else {
            assert(ne1[k] == (x, y));
        }
    }
}

/// After the insertion of `(x, y)` and the queuing of its neighbours, the
/// link relation is again transitive modulo the pairs left on the worklist.
proof fn lemma_trans_mod_work(
    s0: Graph,
    s1: Graph,
    x: usize,
    y: usize,
    w_pre: Seq<(usize, usize)>,
    w2: Seq<(usize, usize)>,
)
    requires
        s0.sets_ok(),
        forall|a: usize, b: usize, c: usize|
            #![trigger s0.linked(a, b), s0.linked(b, c)]
            s0.linked(a, b) && s0.linked(b, c) ==> s0.linked(a, c) || w_pre.contains((a, c)),
        forall|a: usize, b: usize| #[trigger] s1.linked(a, b)
            <==> s0.linked(a, b) || (a == x && b == y),
        forall|a: usize, b: usize| #[trigger] s1.up_linked(a, b)
            <==> s0.up_linked(a, b) || (a == x && b == y),
        s1.sets_ok(),
        x < s1.node_count(),
        y < s1.node_count(),
        forall|q: (usize, usize)| w_pre.contains(q) ==> w2.contains(q) || q == (x, y),
        forall|u: usize| s1.up_seq(x as int).contains(u) ==> w2.contains((u, y)),
        forall|v: usize| s1.down_seq(y as int).contains(v) ==> w2.contains((x, v)),
    ensures
        forall|a: usize, b: usize, c: usize|
            #![trigger s1.linked(a, b), s1.linked(b, c)]
            s1.linked(a, b) && s1.linked(b, c) ==> s1.linked(a, c) || w2.contains((a, c)),
{
    assert forall|a: usize, b: usize, c: usize|
        #![trigger s1.linked(a, b), s1.linked(b, c)]
        s1.linked(a, b) && s1.linked(b, c)
            implies s1.linked(a, c) || w2.contains((a, c)) by {
        if s0.linked(a, b) && s0.linked(b, c) {
            assert(s0.linked(a, c) || w_pre.contains((a, c)));
            if w_pre.contains((a, c)) && !w2.contains((a, c)) {
                assert((a, c) == (x, y));
                assert(s1.linked(x, y));
            }
        } else if !s0.linked(a, b) && !s0.linked(b, c) {
            assert(a == x && b == y && b == x && c == y);
            assert(s1.linked(x, y));
        } else if !s0.linked(a, b) {
            assert(a == x && b == y);
            assert(s1.linked(b, c));
            assert(s1.down_seq(b as int).contains(c));
            assert(w2.contains((x, c)));
        } else {
            assert(b == x && c == y);
            assert(s0.up_linked(a, b));
            assert(s1.up_linked(a, x));
            assert(s1.up_seq(x as int).contains(a));
            assert(w2.contains((a, y)));
        }
    }
}

/// With the worklist drained, the link relation is transitive and holds
/// every requested edge, so it is exactly the transitive closure; the
/// report is then exactly the set of newly implied pairs.
#[verifier::rlimit(100)]
proof fn lemma_closure_complete(
    g0: Graph,
    s: Graph,
    lhs: usize,
    rhs: usize,
    ne: Seq<(usize, usize)>,
)
    requires
        g0.sets_ok(),
        g0.closure_ok(),
        s.sets_ok(),
        s.edges() == g0.edges().insert((lhs, rhs)),
        forall|a: usize, b: usize| #[trigger] g0.linked(a, b) ==> s.linked(a, b),
        forall|a: usize, b: usize| #[trigger] s.linked(a, b) ==> reaches(s.edges(), a, b),
        forall|a: usize, b: usize, c: usize|
            #![trigger s.linked(a, b), s.linked(b, c)]
            s.linked(a, b) && s.linked(b, c) ==> s.linked(a, c),
        s.linked(lhs, rhs),
        forall|a: usize, b: usize| #[trigger] s.linked(a, b)
            <==> g0.linked(a, b) || ne.contains((a, b)),
        forall|k: int| 0 <= k < ne.len() ==> !g0.linked((#[trigger] ne[k]).0, ne[k].1),
    ensures
        s.closure_ok(),
        forall|q: (usize, usize)| #[trigger] ne.contains(q)
            <==> newly_implied(g0.edges(), lhs, rhs).contains(q),
        !reaches(g0.edges(), lhs, rhs) ==> ne.contains((lhs, rhs)),
        reaches(g0.edges(), lhs, rhs) ==> ne.len() == 0,
{
    let e0 = g0.edges();
    let e1 = s.edges();
    let t = s.down_rel();
    assert forall|a: usize, b: usize, c: usize|
        t.contains((a, b)) && t.contains((b, c)) implies t.contains((a, c)) by {
        assert(s.linked(a, b) && s.linked(b, c));
    }
    assert forall|q: (usize, usize)| e1.contains(q) implies t.contains(q) by {
        if e0.contains(q) {
            lemma_edge_reaches(e0, q.0, q.1);
            assert(g0.linked(q.0, q.1));
        } else {
            assert(q == (lhs, rhs));
        }
    }
    assert forall|a: usize, b: usize| #![trigger s.linked(a, b)]
        #![trigger reaches(s.edges(), a, b)]
        s.linked(a, b) <==> reaches(e1, a, b) by {
        if reaches(e1, a, b) {
            lemma_reaches_in_transitive(e1, t, a, b);
            assert(t.contains((a, b)));
        }
    }
    assert forall|q: (usize, usize)| #[trigger] ne.contains(q)
        <==> newly_implied(e0, lhs, rhs).contains(q) by {
        if ne.contains(q) {
            let k = choose|k: int| 0 <= k < ne.len() && ne[k] == q;
            assert(!g0.linked(q.0, q.1));
            assert(s.linked(q.0, q.1));
        }
        if newly_implied(e0, lhs, rhs).contains(q) {
            assert(reaches(e1, q.0, q.1) && !reaches(e0, q.0, q.1));
            assert(s.linked(q.0, q.1));
            assert(!g0.linked(q.0, q.1));
        }
    }
    if !reaches(e0, lhs, rhs) {
        lemma_edge_reaches(e1, lhs, rhs);
        assert(newly_implied(e0, lhs, rhs).contains((lhs, rhs)));
    } else {
        lemma_insert_implied_edge(e0, lhs, rhs);
        if ne.len() > 0 {
            assert(ne.contains(ne[0]));
            assert(newly_implied(e0, lhs, rhs).contains(ne[0]));
        }
    }
}

} // verus!

