//! The mathematical model of a dependency store.
//!
//! A store is modelled as an association sequence from asset name to its
//! ordered list of dependency names.  Keys are unique; the order of the
//! entries is the order in which the assets first received an edge.

use vstd::prelude::*;

verus! {

/// Model of a store: each entry pairs an asset name with its dependency list.
pub type GraphModel = Seq<(Seq<char>, Seq<Seq<char>>)>;

/// No two entries share an asset name.
pub open spec fn distinct_keys(g: GraphModel) -> bool {
    forall|i: int, j: int| 0 <= i < j < g.len() ==> (#[trigger] g[i]).0 != (#[trigger] g[j]).0
}

/// The store has an entry for asset `a`.
pub open spec fn has_key(g: GraphModel, a: Seq<char>) -> bool {
    exists|i: int| 0 <= i < g.len() && (#[trigger] g[i]).0 == a
}

/// Index of the entry for asset `a`; meaningful only when `has_key` holds.
pub open spec fn key_index(g: GraphModel, a: Seq<char>) -> int {
    choose|i: int| 0 <= i < g.len() && (#[trigger] g[i]).0 == a
}

/// The dependency list recorded for `a`, or the empty sequence if absent.
pub open spec fn deps_of(g: GraphModel, a: Seq<char>) -> Seq<Seq<char>> {
    if has_key(g, a) {
        g[key_index(g, a)].1
    } else {
        Seq::<Seq<char>>::empty()
    }
}

/// There is a (directed) dependency edge from `a` to `d`.
pub open spec fn is_edge(g: GraphModel, a: Seq<char>, d: Seq<char>) -> bool {
    deps_of(g, a).contains(d)
}

/// The store after appending edge `a -> d`: the dependency is appended to
/// `a`'s list, and a fresh entry is appended when `a` has none yet.
pub open spec fn add_edge(g: GraphModel, a: Seq<char>, d: Seq<char>) -> GraphModel {
    if has_key(g, a) {
        let i = key_index(g, a);
        g.update(i, (a, g[i].1.push(d)))
    } else {
        g.push((a, seq![d]))
    }
}

/// The predicate that keeps every name other than `d`.
pub open spec fn keeps_other(d: Seq<char>) -> spec_fn(Seq<char>) -> bool {
    |x: Seq<char>| x != d
}

/// The store after removing every `a -> d` edge: all occurrences of `d`
/// leave `a`'s list, and the entry is dropped entirely when it empties.
pub open spec fn remove_edge(g: GraphModel, a: Seq<char>, d: Seq<char>) -> GraphModel {
    if has_key(g, a) {
        let i = key_index(g, a);
        let kept = g[i].1.filter(keeps_other(d));
        if kept.len() == 0 {
            g.remove(i)
        } else {
            g.update(i, (a, kept))
        }
    } else {
        g
    }
}

/// The predicate over entries that holds when the entry's list mentions `a`.
pub open spec fn mentions(a: Seq<char>) -> spec_fn((Seq<char>, Seq<Seq<char>>)) -> bool {
    |p: (Seq<char>, Seq<Seq<char>>)| p.1.contains(a)
}

/// Projection of an entry to its asset name.
pub open spec fn entry_name() -> spec_fn((Seq<char>, Seq<Seq<char>>)) -> Seq<char> {
    |p: (Seq<char>, Seq<Seq<char>>)| p.0
}

/// The assets that depend on `a`: every key whose list contains `a`, in
/// entry order.
pub open spec fn reverse_deps(g: GraphModel, a: Seq<char>) -> Seq<Seq<char>> {
    g.filter(mentions(a)).map_values(entry_name())
}

/// With unique keys, any entry whose name is `a` sits at `key_index(g, a)`.
pub proof fn lemma_key_index_unique(g: GraphModel, a: Seq<char>, i: int)
    requires
        distinct_keys(g),
        0 <= i < g.len(),
        g[i].0 == a,
    ensures
        has_key(g, a),
        key_index(g, a) == i,
        deps_of(g, a) == g[i].1,
{
    assert(has_key(g, a));
    let j = key_index(g, a);
    if i < j {
        assert(g[i].0 != g[j].0);
    } else if j < i {
        assert(g[j].0 != g[i].0);
    }
}

/// `key_index` picks a real entry whenever the key is present.
pub proof fn lemma_key_index_in_range(g: GraphModel, a: Seq<char>)
    requires
        has_key(g, a),
    ensures
        0 <= key_index(g, a) < g.len(),
        g[key_index(g, a)].0 == a,
{
}

/// If `g2` differs from `g` only in entries named `a` (with all other
/// entries kept at their indices), then every other asset keeps its
/// presence and its dependency list.
pub proof fn lemma_other_keys_unchanged(g: GraphModel, g2: GraphModel, a: Seq<char>)
    requires
        distinct_keys(g),
        distinct_keys(g2),
        forall|p: int|
            0 <= p < g.len() && (#[trigger] g[p]).0 != a ==> p < g2.len() && g2[p] == g[p],
        forall|q: int|
            0 <= q < g2.len() && (#[trigger] g2[q]).0 != a ==> q < g.len() && g2[q] == g[q],
    ensures
        forall|b: Seq<char>| b != a ==> (#[trigger] has_key(g2, b) <==> has_key(g, b)),
        forall|b: Seq<char>| b != a ==> #[trigger] deps_of(g2, b) == deps_of(g, b),
{
    assert forall|b: Seq<char>| b != a implies (#[trigger] has_key(g2, b) <==> has_key(g, b)) by {
        if has_key(g, b) {
            let j = key_index(g, b);
            lemma_key_index_in_range(g, b);
            assert(g2[j].0 == b);
        }
        if has_key(g2, b) {
            let j = key_index(g2, b);
            lemma_key_index_in_range(g2, b);
            assert(g[j].0 == b);
        }
    }
    assert forall|b: Seq<char>| b != a implies #[trigger] deps_of(g2, b) == deps_of(g, b) by {
        if has_key(g, b) {
            let j = key_index(g, b);
            lemma_key_index_in_range(g, b);
            assert(g2[j] == g[j]);
            lemma_key_index_unique(g2, b, j);
        } else {
            assert(!has_key(g2, b));
        }
    }
}

/// Appending an edge keeps the keys unique, appends `d` to `a`'s list, and
/// leaves every other asset's list untouched.
pub proof fn lemma_add_edge_wf(g: GraphModel, a: Seq<char>, d: Seq<char>)
    requires
        distinct_keys(g),
    ensures
        distinct_keys(add_edge(g, a, d)),
        has_key(add_edge(g, a, d), a),
        deps_of(add_edge(g, a, d), a) == deps_of(g, a).push(d),
        forall|b: Seq<char>| b != a ==> #[trigger] deps_of(add_edge(g, a, d), b) == deps_of(g, b),
        forall|b: Seq<char>| b != a ==> (#[trigger] has_key(add_edge(g, a, d), b) <==> has_key(
            g,
            b,
        )),
{
    let g2 = add_edge(g, a, d);
    if has_key(g, a) {
        let i = key_index(g, a);
        lemma_key_index_in_range(g, a);
        assert(forall|p: int| 0 <= p < g2.len() ==> (#[trigger] g2[p]).0 == g[p].0);
        lemma_key_index_unique(g2, a, i);
    } else {
        assert(forall|p: int| 0 <= p < g.len() ==> (#[trigger] g2[p]).0 == g[p].0);
        assert(g2[g.len() as int].0 == a);
        assert forall|p: int, q: int| 0 <= p < q < g2.len() implies (#[trigger] g2[p]).0
            != (#[trigger] g2[q]).0 by {
            if q < g.len() {
                assert(g[p].0 != g[q].0);
            } else {
                assert(g2[q].0 == a);
                if g2[p].0 == a {
                    assert(has_key(g, a));
                }
            }
        }
        lemma_key_index_unique(g2, a, g.len() as int);
        assert(deps_of(g2, a) =~= deps_of(g, a).push(d));
    }
    lemma_other_keys_unchanged(g, g2, a);
}

/// Dropping the entry at index `i` keeps the keys unique, makes `g[i].0`
/// absent, and leaves every other asset's presence and list untouched.
pub proof fn lemma_remove_entry_keys(g: GraphModel, i: int)
    requires
        distinct_keys(g),
        0 <= i < g.len(),
    ensures
        distinct_keys(g.remove(i)),
        !has_key(g.remove(i), g[i].0),
        forall|b: Seq<char>| b != g[i].0 ==> (#[trigger] has_key(g.remove(i), b) <==> has_key(
            g,
            b,
        )),
        forall|b: Seq<char>| b != g[i].0 ==> #[trigger] deps_of(g.remove(i), b) == deps_of(g, b),
{
    let g2 = g.remove(i);
    let a = g[i].0;
    assert(forall|j: int| 0 <= j < i ==> g2[j] == g[j]);
    assert(forall|j: int| i <= j < g2.len() ==> g2[j] == g[j + 1]);
    assert forall|p: int, q: int| 0 <= p < q < g2.len() implies (#[trigger] g2[p]).0
        != (#[trigger] g2[q]).0 by {
        let p1 = if p < i { p } else { p + 1 };
        let q1 = if q < i { q } else { q + 1 };
        assert(g[p1].0 != g[q1].0);
    }
    assert forall|j: int| 0 <= j < g2.len() implies (#[trigger] g2[j]).0 != a by {
        let j1 = if j < i { j } else { j + 1 };
        assert(g[j1].0 != g[i].0 || j1 == i);
    }
    assert forall|b: Seq<char>| b != a implies (#[trigger] has_key(g2, b) <==> has_key(g, b)) by {
        if has_key(g, b) {
            let j = key_index(g, b);
            lemma_key_index_in_range(g, b);
            let j2 = if j < i { j } else { j - 1 };
            assert(g2[j2].0 == b);
        }
        if has_key(g2, b) {
            let j = key_index(g2, b);
            lemma_key_index_in_range(g2, b);
            let j1 = if j < i { j } else { j + 1 };
            assert(g[j1].0 == b);
        }
    }
    assert forall|b: Seq<char>| b != a implies #[trigger] deps_of(g2, b) == deps_of(g, b) by {
        if has_key(g, b) {
            let j = key_index(g, b);
            lemma_key_index_in_range(g, b);
            let j2 = if j < i { j } else { j - 1 };
            assert(g2[j2] == g[j]);
            lemma_key_index_unique(g2, b, j2);
        } else {
            assert(!has_key(g2, b));
        }
    }
}

/// Removing an edge keeps the keys unique, filters `a`'s list (dropping the
/// entry entirely when it empties), and leaves every other asset untouched.
pub proof fn lemma_remove_edge_wf(g: GraphModel, a: Seq<char>, d: Seq<char>)
    requires
        distinct_keys(g),
    ensures
        distinct_keys(remove_edge(g, a, d)),
        ({
            let kept = deps_of(g, a).filter(keeps_other(d));
            if !has_key(g, a) {
                remove_edge(g, a, d) == g
            } else if kept.len() == 0 {
                !has_key(remove_edge(g, a, d), a)
            } else {
                has_key(remove_edge(g, a, d), a) && deps_of(remove_edge(g, a, d), a) == kept
            }
        }),
        forall|b: Seq<char>| b != a ==> #[trigger] deps_of(remove_edge(g, a, d), b) == deps_of(
            g,
            b,
        ),
        forall|b: Seq<char>| b != a ==> (#[trigger] has_key(remove_edge(g, a, d), b) <==> has_key(
            g,
            b,
        )),
{
    let g2 = remove_edge(g, a, d);
    if has_key(g, a) {
        let i = key_index(g, a);
        lemma_key_index_in_range(g, a);
        let kept = g[i].1.filter(keeps_other(d));
        if kept.len() == 0 {
            lemma_remove_entry_keys(g, i);
        } else {
            assert(forall|p: int| 0 <= p < g2.len() ==> (#[trigger] g2[p]).0 == g[p].0);
            lemma_key_index_unique(g2, a, i);
            lemma_other_keys_unchanged(g, g2, a);
        }
    }
}

/// `reverse_deps` holds exactly the keys whose lists contain `a`.
pub proof fn lemma_reverse_deps_iff(g: GraphModel, a: Seq<char>)
    requires
        distinct_keys(g),
    ensures
        forall|b: Seq<char>| #[trigger] reverse_deps(g, a).contains(b) <==> (has_key(g, b)
            && deps_of(g, b).contains(a)),
{
    broadcast use vstd::seq_lib::group_filter_ensures;

    let pred = mentions(a);
    let f = entry_name();
    let kept = g.filter(pred);
    assert forall|b: Seq<char>| #[trigger] reverse_deps(g, a).contains(b) implies (has_key(g, b)
        && deps_of(g, b).contains(a)) by {
        let j = choose|j: int| 0 <= j < kept.len() && kept.map_values(f)[j] == b;
        assert(kept[j].0 == b && pred(kept[j]));
        assert(kept.contains(kept[j]));
        g.lemma_filter_contains_rev(pred, kept[j]);
        assert(g.contains(kept[j]));
        let i = choose|i: int| 0 <= i < g.len() && g[i] == kept[j];
        lemma_key_index_unique(g, b, i);
    }
    assert forall|b: Seq<char>| has_key(g, b) && deps_of(g, b).contains(a)
        implies #[trigger] reverse_deps(g, a).contains(b) by {
        let i = key_index(g, b);
        lemma_key_index_in_range(g, b);
        assert(pred(g[i]));
        g.lemma_filter_contains(pred, i);
        let j = choose|j: int| 0 <= j < kept.len() && kept[j] == g[i];
        assert(kept.map_values(f)[j] == b);
    }
}

/// With unique keys, an edge is exactly an entry whose list mentions the
/// target.
pub proof fn lemma_edge_entry_iff(g: GraphModel, x: Seq<char>, y: Seq<char>)
    requires
        distinct_keys(g),
    ensures
        is_edge(g, x, y) <==> exists|e: int|
            0 <= e < g.len() && (#[trigger] g[e]).0 == x && g[e].1.contains(y),
{
    if is_edge(g, x, y) {
        lemma_key_index_in_range(g, x);
        let e = key_index(g, x);
        assert(g[e].0 == x && g[e].1.contains(y));
    }
    if exists|e: int| 0 <= e < g.len() && (#[trigger] g[e]).0 == x && g[e].1.contains(y) {
        let e = choose|e: int| 0 <= e < g.len() && (#[trigger] g[e]).0 == x && g[e].1.contains(y);
        lemma_key_index_unique(g, x, e);
    }
}

/// Appending one edge adds exactly that edge.
pub proof fn lemma_add_edge_edges(g: GraphModel, a: Seq<char>, d: Seq<char>)
    requires
        distinct_keys(g),
    ensures
        forall|x: Seq<char>, y: Seq<char>|
            is_edge(#[trigger] add_edge(g, a, d), x, y) <==> (is_edge(g, x, y) || (x == a && y
                == d)),
{
    lemma_add_edge_wf(g, a, d);
    let g2 = add_edge(g, a, d);
    assert forall|x: Seq<char>, y: Seq<char>|
        is_edge(#[trigger] add_edge(g, a, d), x, y) <==> (is_edge(g, x, y) || (x == a && y
            == d)) by {
        if x == a {
            assert(deps_of(g2, a) == deps_of(g, a).push(d));
            assert(deps_of(g, a).push(d).contains(y) <==> (deps_of(g, a).contains(y) || y == d))
                by {
                if deps_of(g, a).push(d).contains(y) {
                    let k = choose|k: int|
                        0 <= k < deps_of(g, a).push(d).len() && deps_of(g, a).push(d)[k] == y;
                    if k < deps_of(g, a).len() {
                        assert(deps_of(g, a)[k] == y);
                    }
                }
                if deps_of(g, a).contains(y) {
                    let k = choose|k: int| 0 <= k < deps_of(g, a).len() && deps_of(g, a)[k] == y;
                    assert(deps_of(g, a).push(d)[k] == y);
                }
                if y == d {
                    assert(deps_of(g, a).push(d).last() == d);
                }
            }
        } else {
            assert(deps_of(g2, x) == deps_of(g, x));
        }
    }
}

/// Law: after `add_dependency(a, d)`, `d` is among `get_dependencies(a)` and
/// `a` is among `get_reverse_dependencies(d)`.
pub proof fn lemma_edge_round_trip(g: GraphModel, a: Seq<char>, d: Seq<char>)
    requires
        distinct_keys(g),
    ensures
        deps_of(add_edge(g, a, d), a).contains(d),
        reverse_deps(add_edge(g, a, d), d).contains(a),
{
    lemma_add_edge_wf(g, a, d);
    let g2 = add_edge(g, a, d);
    let l = deps_of(g2, a);
    assert(l == deps_of(g, a).push(d));
    assert(l[l.len() - 1] == d);
    assert(l.contains(d));
    lemma_reverse_deps_iff(g2, d);
}

} // verus!

