//! Reachability over a dependency store: names, edge chains, and the
//! transitive-closure relation.

use vstd::prelude::*;

use crate::model::{deps_of, is_edge, key_index, lemma_key_index_in_range, GraphModel};

verus! {

/// Every name a store mentions, keys and targets alike, as one sequence.
pub open spec fn names_seq(g: GraphModel) -> Seq<Seq<char>>
    decreases g.len(),
{
    if g.len() == 0 {
        Seq::<Seq<char>>::empty()
    } else {
        names_seq(g.drop_last()) + seq![g.last().0] + g.last().1
    }
}

/// The (finite) set of names a store mentions.
pub open spec fn names_of(g: GraphModel) -> Set<Seq<char>> {
    names_seq(g).to_set()
}

/// A name is mentioned exactly when it is a key or appears in some list.
pub proof fn lemma_names_of(g: GraphModel)
    ensures
        names_of(g).finite(),
        forall|n: Seq<char>| #[trigger] names_of(g).contains(n) <==> exists|i: int|
            0 <= i < g.len() && ((#[trigger] g[i]).0 == n || g[i].1.contains(n)),
    decreases g.len(),
{
    broadcast use vstd::seq_lib::seq_to_set_is_finite;
    broadcast use vstd::seq_lib::group_seq_properties;

    if g.len() == 0 {
        assert forall|n: Seq<char>| #[trigger] names_of(g).contains(n) implies exists|i: int|
            0 <= i < g.len() && ((#[trigger] g[i]).0 == n || g[i].1.contains(n)) by {
            assert(names_seq(g).contains(n));
        }
    } else {
        let h = g.drop_last();
        lemma_names_of(h);
        assert forall|n: Seq<char>| #[trigger] names_of(g).contains(n) implies exists|i: int|
            0 <= i < g.len() && ((#[trigger] g[i]).0 == n || g[i].1.contains(n)) by {
            assert(names_seq(g).contains(n));
            if names_seq(h).contains(n) {
                assert(names_of(h).contains(n));
                let i = choose|i: int|
                    0 <= i < h.len() && ((#[trigger] h[i]).0 == n || h[i].1.contains(n));
                assert(g[i].0 == n || g[i].1.contains(n));
            } else if seq![g.last().0].contains(n) {
                assert(g[g.len() - 1].0 == n);
            } else {
                assert(g.last().1.contains(n));
                assert(g[g.len() - 1].1.contains(n));
            }
        }
        assert forall|n: Seq<char>| (exists|i: int|
            0 <= i < g.len() && ((#[trigger] g[i]).0 == n || g[i].1.contains(n)))
            implies #[trigger] names_of(g).contains(n) by {
            let i = choose|i: int|
                0 <= i < g.len() && ((#[trigger] g[i]).0 == n || g[i].1.contains(n));
            if i < g.len() - 1 {
                assert(h[i].0 == n || h[i].1.contains(n));
                assert(names_of(h).contains(n));
                assert(names_seq(h).contains(n));
                assert(names_seq(g).contains(n));
            } else {
                if g[i].0 == n {
                    assert(seq![g.last().0][0] == n);
                    assert((names_seq(h) + seq![g.last().0]).contains(n));
                    assert(names_seq(g).contains(n));
                } else {
                    assert(g.last().1.contains(n));
                    assert(names_seq(g).contains(n));
                }
            }
        }
    }
}

/// A key is always among the store's names.
pub proof fn lemma_key_in_names(g: GraphModel, a: Seq<char>, i: int)
    requires
        0 <= i < g.len(),
        g[i].0 == a,
    ensures
        names_of(g).contains(a),
{
    lemma_names_of(g);
}

/// Every dependency target is among the store's names.
pub proof fn lemma_target_in_names(g: GraphModel, a: Seq<char>, d: Seq<char>)
    requires
        deps_of(g, a).contains(d),
    ensures
        names_of(g).contains(d),
{
    lemma_names_of(g);
    let i = key_index(g, a);
    lemma_key_index_in_range(g, a);
    assert(g[i].1.contains(d));
}

/// The sequence is a chain of dependency edges through the store.
pub open spec fn is_chain(g: GraphModel, p: Seq<Seq<char>>) -> bool {
    forall|i: int| 0 <= i < p.len() - 1 ==> is_edge(g, #[trigger] p[i], p[i + 1])
}

/// `to` is reachable from `from` by following at least one dependency edge.
pub open spec fn reaches(g: GraphModel, from: Seq<char>, to: Seq<char>) -> bool {
    exists|p: Seq<Seq<char>>|
        #![trigger is_chain(g, p)]
        p.len() >= 2 && p[0] == from && p.last() == to && is_chain(g, p)
}

/// The sequence closes on itself: each consecutive pair is an edge, and so
/// is the wrap-around pair from the last element back to the first.
pub open spec fn is_cycle(g: GraphModel, c: Seq<Seq<char>>) -> bool {
    &&& c.len() >= 1
    &&& forall|i: int| 0 <= i < c.len() - 1 ==> is_edge(g, #[trigger] c[i], c[i + 1])
    &&& is_edge(g, c.last(), c[0])
}

/// A single edge is a reachability witness.
pub proof fn lemma_reaches_step(g: GraphModel, a: Seq<char>, d: Seq<char>)
    requires
        is_edge(g, a, d),
    ensures
        reaches(g, a, d),
{
    let p: Seq<Seq<char>> = seq![a, d];
    assert(p.len() == 2 && p[0] == a && p.last() == d);
    assert(is_chain(g, p));
}

/// Reachability is extended by one more edge.
pub proof fn lemma_reaches_extend(g: GraphModel, a: Seq<char>, b: Seq<char>, c: Seq<char>)
    requires
        reaches(g, a, b),
        is_edge(g, b, c),
    ensures
        reaches(g, a, c),
{
    let p = choose|p: Seq<Seq<char>>|
        #![trigger is_chain(g, p)]
        p.len() >= 2 && p[0] == a && p.last() == b && is_chain(g, p);
    let q = p.push(c);
    assert forall|i: int| 0 <= i < q.len() - 1 implies is_edge(g, #[trigger] q[i], q[i + 1]) by {
        if i < p.len() - 1 {
            assert(is_edge(g, p[i], p[i + 1]));
        } else {
            assert(q[i] == b && q[i + 1] == c);
        }
    }
    assert(q.len() >= 2 && q[0] == a && q.last() == c && is_chain(g, q));
}

/// Anything reachable from `root` lies in a set that contains `root`'s
/// direct dependencies and is closed under dependency edges.
pub proof fn lemma_closed_set_covers(
    g: GraphModel,
    root: Seq<char>,
    s: Set<Seq<char>>,
    p: Seq<Seq<char>>,
)
    requires
        p.len() >= 2,
        p[0] == root,
        is_chain(g, p),
        forall|d: Seq<char>| is_edge(g, root, d) ==> s.contains(d),
        forall|x: Seq<char>, d: Seq<char>|
            s.contains(x) && is_edge(g, x, d) ==> s.contains(d),
    ensures
        s.contains(p.last()),
    decreases p.len(),
{
    if p.len() == 2 {
        assert(is_edge(g, p[0], p[1]));
    } else {
        let q = p.drop_last();
        assert forall|i: int| 0 <= i < q.len() - 1 implies is_edge(g, #[trigger] q[i], q[i + 1]) by {
            assert(is_edge(g, p[i], p[i + 1]));
        }
        lemma_closed_set_covers(g, root, s, q);
        assert(is_edge(g, p[p.len() - 2], p[p.len() - 1]));
        assert(q.last() == p[p.len() - 2]);
    }
}

} // verus!
