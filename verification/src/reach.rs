//! The mathematical model of directed reachability: paths over a set of
//! requested edges, and the lemmas the incremental closure proof needs.

use vstd::prelude::*;

verus! {

/// A walk through the edge set `e`: at least two nodes, each consecutive
/// pair joined by an edge.
pub open spec fn is_path(e: Set<(usize, usize)>, p: Seq<usize>) -> bool {
    &&& p.len() >= 2
    &&& forall|i: int| 0 <= i < p.len() - 1 ==> e.contains((#[trigger] p[i], p[i + 1]))
}

/// `b` is reachable from `a` by a path of length at least one in `e`.
pub open spec fn reaches(e: Set<(usize, usize)>, a: usize, b: usize) -> bool {
    exists|p: Seq<usize>| is_path(e, p) && p.first() == a && p.last() == b
}

/// The pairs that inserting the edge `(a, b)` into `e` newly implies: the
/// pairs reachable afterwards but not before.
pub open spec fn newly_implied(e: Set<(usize, usize)>, a: usize, b: usize) -> Set<(usize, usize)> {
    Set::new(
        |p: (usize, usize)| reaches(e.insert((a, b)), p.0, p.1) && !reaches(e, p.0, p.1),
    )
}

/// A single edge is a path of length one.
pub proof fn lemma_edge_reaches(e: Set<(usize, usize)>, a: usize, b: usize)
    requires
        e.contains((a, b)),
    ensures
        reaches(e, a, b),
{
    let p = seq![a, b];
    assert(is_path(e, p));
    assert(p.first() == a && p.last() == b);
}

/// Reachability is transitive: paths concatenate.
pub proof fn lemma_reaches_trans(e: Set<(usize, usize)>, a: usize, b: usize, c: usize)
    requires
        reaches(e, a, b),
        reaches(e, b, c),
    ensures
        reaches(e, a, c),
{
    let p1 = choose|p: Seq<usize>| is_path(e, p) && p.first() == a && p.last() == b;
    let p2 = choose|p: Seq<usize>| is_path(e, p) && p.first() == b && p.last() == c;
    let p = p1 + p2.drop_first();
    assert forall|i: int| 0 <= i < p.len() - 1 implies e.contains((#[trigger] p[i], p[i + 1])) by {
        if i < p1.len() - 1 {
            assert(p[i] == p1[i] && p[i + 1] == p1[i + 1]);
        } else if i == p1.len() - 1 {
            assert(p[i] == p1.last() && p[i + 1] == p2[1]);
            assert(e.contains((p2[0], p2[1])));
        } else {
            let j = i - p1.len();
            assert(p[i] == p2[j + 1] && p[i + 1] == p2[j + 2]);
            assert(e.contains((p2[j + 1], p2[j + 2])));
        }
    }
    assert(is_path(e, p));
    assert(p.first() == a && p.last() == c);
}

/// A path in a smaller edge set is a path in any larger one.
pub proof fn lemma_reaches_mono(e1: Set<(usize, usize)>, e2: Set<(usize, usize)>, a: usize, b: usize)
    requires
        e1.subset_of(e2),
        reaches(e1, a, b),
    ensures
        reaches(e2, a, b),
{
    let p = choose|q: Seq<usize>| is_path(e1, q) && q.first() == a && q.last() == b;
    assert(is_path(e2, p));
}

/// A reachable pair has an edge leaving its source and an edge entering its
/// target; a node no edge touches reaches nothing and is reached by nothing.
pub proof fn lemma_reaches_endpoints(e: Set<(usize, usize)>, a: usize, b: usize)
    requires
        reaches(e, a, b),
    ensures
        exists|x: usize| #[trigger] e.contains((a, x)),
        exists|x: usize| #[trigger] e.contains((x, b)),
{
    let p = choose|q: Seq<usize>| is_path(e, q) && q.first() == a && q.last() == b;
    assert(e.contains((p[0], p[1])));
    assert(e.contains((p[p.len() - 2], p[p.len() - 1])));
}

/// A transitive relation that contains every edge contains every path's
/// endpoints: reachability is the least such relation.
pub proof fn lemma_reaches_in_transitive(
    e: Set<(usize, usize)>,
    t: Set<(usize, usize)>,
    a: usize,
    b: usize,
)
    requires
        forall|x: usize, y: usize| e.contains((x, y)) ==> t.contains((x, y)),
        forall|x: usize, y: usize, z: usize|
            t.contains((x, y)) && t.contains((y, z)) ==> t.contains((x, z)),
        reaches(e, a, b),
    ensures
        t.contains((a, b)),
{
    let p = choose|q: Seq<usize>| is_path(e, q) && q.first() == a && q.last() == b;
    lemma_path_in_transitive(e, t, p);
}

/// A node aliased as both an edge's target and another edge's source joins
/// the two flows: anything flowing into it reaches anything flowing out of
/// it. This is what makes a placeholder, whose value role and use role
/// share one node, behave as a single point in the graph.
pub proof fn lemma_flow_through_node(e: Set<(usize, usize)>, v: usize, p: usize, u: usize)
    requires
        e.contains((v, p)),
        e.contains((p, u)),
    ensures
        reaches(e, v, u),
{
    lemma_edge_reaches(e, v, p);
    lemma_edge_reaches(e, p, u);
    lemma_reaches_trans(e, v, p, u);
}

/// Inserting an edge whose target was already reachable from its source
/// changes nothing about reachability, so such an insertion implies no new
/// pairs.
pub proof fn lemma_insert_implied_edge(e: Set<(usize, usize)>, a: usize, b: usize)
    requires
        reaches(e, a, b),
    ensures
        forall|x: usize, y: usize|
            #[trigger] reaches(e.insert((a, b)), x, y) <==> reaches(e, x, y),
        newly_implied(e, a, b) =~= Set::<(usize, usize)>::empty(),
{
    let e1 = e.insert((a, b));
    let t = Set::new(|p: (usize, usize)| reaches(e, p.0, p.1));
    assert forall|x: usize, y: usize, z: usize|
        t.contains((x, y)) && t.contains((y, z)) implies t.contains((x, z)) by {
        lemma_reaches_trans(e, x, y, z);
    }
    assert forall|x: usize, y: usize| e1.contains((x, y)) implies t.contains((x, y)) by {
        if e.contains((x, y)) {
            lemma_edge_reaches(e, x, y);
        }
    }
    assert forall|x: usize, y: usize|
        #[trigger] reaches(e1, x, y) <==> reaches(e, x, y) by {
        if reaches(e1, x, y) {
            lemma_reaches_in_transitive(e1, t, x, y);
        }
        if reaches(e, x, y) {
            lemma_reaches_mono(e, e1, x, y);
        }
    }
}

proof fn lemma_path_in_transitive(e: Set<(usize, usize)>, t: Set<(usize, usize)>, p: Seq<usize>)
    requires
        forall|x: usize, y: usize| e.contains((x, y)) ==> t.contains((x, y)),
        forall|x: usize, y: usize, z: usize|
            t.contains((x, y)) && t.contains((y, z)) ==> t.contains((x, z)),
        is_path(e, p),
    ensures
        t.contains((p.first(), p.last())),
    decreases p.len(),
{
    if p.len() == 2 {
        assert(e.contains((p[0], p[1])));
    } else {
        let q = p.drop_last();
        assert forall|i: int| 0 <= i < q.len() - 1 implies e.contains((#[trigger] q[i], q[i + 1])) by {
            assert(e.contains((p[i], p[i + 1])));
        }
        lemma_path_in_transitive(e, t, q);
        assert(e.contains((p[p.len() - 2], p[p.len() - 1])));
        assert(t.contains((q.first(), q.last())));
        assert(t.contains((q.last(), p.last())));
    }
}

} // verus!
