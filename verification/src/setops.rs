//! Combining and restricting stores: merge with normalization, and
//! filtering by case-insensitive name fragments.

use vstd::prelude::*;

use crate::model::{
    add_edge, is_edge, lemma_add_edge_edges, lemma_edge_entry_iff, GraphModel,
};
use crate::normalize::{
    lemma_optimize_edges, lemma_optimize_idempotent, optimize_spec, strictly_sorted,
};
use vstd::string::StrSliceExecFns;

use crate::text::{lower_of, lowercase};

use crate::store::DependencyMap;

verus! {

broadcast use vstd::seq_lib::group_seq_properties;

/// Some store among the first `m` has the edge `x -> y`.
pub open spec fn edge_in_any(ms: Seq<DependencyMap>, m: int, x: Seq<char>, y: Seq<char>) -> bool {
    exists|k: int| 0 <= k < m && is_edge((#[trigger] ms[k])@, x, y)
}

/// The store after replaying the first `j` dependencies of one list.
pub open spec fn replay_list(g: GraphModel, a: Seq<char>, l: Seq<Seq<char>>, j: int) -> GraphModel
    decreases j,
{
    if j <= 0 {
        g
    } else {
        add_edge(replay_list(g, a, l, j - 1), a, l[j - 1])
    }
}

/// The store after replaying the first `i` entries of another store.
pub open spec fn replay_entries(g: GraphModel, es: GraphModel, i: int) -> GraphModel
    decreases i,
{
    if i <= 0 {
        g
    } else {
        let e = es[i - 1];
        replay_list(replay_entries(g, es, i - 1), e.0, e.1, e.1.len() as int)
    }
}

/// The store after replaying every edge of the first `m` input stores
/// into an empty one.
pub open spec fn replay_maps(ms: Seq<DependencyMap>, m: int) -> GraphModel
    decreases m,
{
    if m <= 0 {
        Seq::empty()
    } else {
        let es = ms[m - 1]@;
        replay_entries(replay_maps(ms, m - 1), es, es.len() as int)
    }
}

/// Some entry among the first `upto` is named `x` with `y` in its list.
pub open spec fn edge_in_entries(g: GraphModel, upto: int, x: Seq<char>, y: Seq<char>) -> bool {
    exists|e: int| 0 <= e < upto && (#[trigger] g[e]).0 == x && g[e].1.contains(y)
}

/// Unions the edges of all the given stores into a fresh store, replaying
/// every edge, then normalizes it: the result holds an edge exactly when
/// some input does, every list sorted without duplicates, no empty entry.
pub fn merge_dependency_maps(maps: Vec<DependencyMap>) -> (r: DependencyMap)
    requires
        forall|k: int| 0 <= k < maps@.len() ==> (#[trigger] maps@[k]).wf(),
    ensures
        r.wf(),
        r@ == optimize_spec(replay_maps(maps@, maps@.len() as int)),
        forall|x: Seq<char>, y: Seq<char>|
            #[trigger] is_edge(r@, x, y) <==> edge_in_any(maps@, maps@.len() as int, x, y),
        forall|i: int|
            0 <= i < r@.len() ==> strictly_sorted((#[trigger] r@[i]).1) && r@[i].1.len() > 0,
    {
    let mut merged = DependencyMap::new();
    let total = maps.len();
    let mut m: usize = 0;
    while m < total
        invariant
            forall|k: int| 0 <= k < maps@.len() ==> (#[trigger] maps@[k]).wf(),
            total == maps@.len(),
            m <= total,
            merged.wf(),
            merged@ == replay_maps(maps@, m as int),
            forall|x: Seq<char>, y: Seq<char>|
                #[trigger] is_edge(merged@, x, y) <==> edge_in_any(maps@, m as int, x, y),
        decreases total - m,
    {
        let cur = &maps[m];
        let ghost g = cur@;
        let n = cur.entry_count();
        let mut i: usize = 0;
        while i < n
            invariant
                forall|k: int| 0 <= k < maps@.len() ==> (#[trigger] maps@[k]).wf(),
                total == maps@.len(),
                m < total,
                g == maps@[m as int]@,
                cur@ == g,
                n == g.len(),
                i <= n,
                merged.wf(),
                merged@ == replay_entries(replay_maps(maps@, m as int), g, i as int),
                forall|x: Seq<char>, y: Seq<char>|
                    #[trigger] is_edge(merged@, x, y) <==> (edge_in_any(maps@, m as int, x, y)
                        || edge_in_entries(g, i as int, x, y)),
            decreases n - i,
        {
            let key = cur.entry_key(i).clone();
            let list = cur.entry_list(i);
            let ghost cl = g[i as int].1;
            proof {
                assert(list.deep_view() == cl);
            }
            let ln = list.len();
            let mut j: usize = 0;
            while j < ln
                invariant
                    forall|k: int| 0 <= k < maps@.len() ==> (#[trigger] maps@[k]).wf(),
                    total == maps@.len(),
                    m < total,
                    g == maps@[m as int]@,
                    0 <= i < g.len(),
                    cl == g[i as int].1,
                    list.deep_view() == cl,
                    key@ == g[i as int].0,
                    ln == cl.len(),
                    j <= ln,
                    merged.wf(),
                    merged@ == replay_list(
                        replay_entries(replay_maps(maps@, m as int), g, i as int),
                        g[i as int].0,
                        cl,
                        j as int,
                    ),
                    forall|x: Seq<char>, y: Seq<char>|
                        #[trigger] is_edge(merged@, x, y) <==> (edge_in_any(maps@, m as int, x, y)
                            || edge_in_entries(g, i as int, x, y) || (x == g[i as int].0
                            && cl.take(j as int).contains(y))),
                decreases ln - j,
            {
                let dep = list[j].clone();
                let ghost before = merged@;
                proof {
                    lemma_add_edge_edges(before, key@, dep@);
                    assert(dep@ == cl[j as int]);
                    assert(cl.take(j as int + 1) =~= cl.take(j as int).push(cl[j as int]));
                }
                merged.add_dependency(key.as_str(), dep.as_str());
                proof {
                    assert(merged@ == crate::model::add_edge(before, key@, dep@));
                    assert forall|x: Seq<char>, y: Seq<char>| #[trigger] is_edge(merged@, x, y)
                        <==> (edge_in_any(maps@, m as int, x, y) || edge_in_entries(
                        g,
                        i as int,
                        x,
                        y,
                    ) || (x == g[i as int].0 && cl.take(j as int + 1).contains(y))) by {
                        assert(is_edge(crate::model::add_edge(before, key@, dep@), x, y) <==> (
                        is_edge(before, x, y) || (x == key@ && y == dep@)));
                        if x == g[i as int].0 && cl.take(j as int + 1).contains(y) {
                            if y == cl[j as int] {
                            } else {
                                let t = choose|t: int|
                                    0 <= t < cl.take(j as int + 1).len() && #[trigger] cl.take(
                                        j as int + 1,
                                    )[t] == y;
                                assert(cl.take(j as int)[t] == y);
                            }
                        }
                        if x == g[i as int].0 && cl.take(j as int).contains(y) {
                            let t = choose|t: int|
                                0 <= t < cl.take(j as int).len() && #[trigger] cl.take(
                                    j as int,
                                )[t] == y;
                            assert(cl.take(j as int + 1)[t] == y);
                        }
                        if is_edge(merged@, x, y) && !is_edge(before, x, y) {
                            assert(cl.take(j as int + 1)[j as int] == cl[j as int]);
                        }
                    }
                }
                j = j + 1;
            }
            proof {
                assert(cl.take(ln as int) =~= cl);
                assert forall|x: Seq<char>, y: Seq<char>| #[trigger] is_edge(merged@, x, y)
                    <==> (edge_in_any(maps@, m as int, x, y) || edge_in_entries(
                    g,
                    i as int + 1,
                    x,
                    y,
                )) by {
                    if edge_in_entries(g, i as int + 1, x, y) && !edge_in_entries(
                        g,
                        i as int,
                        x,
                        y,
                    ) {
                        let e = choose|e: int|
                            0 <= e < i as int + 1 && (#[trigger] g[e]).0 == x && g[e].1.contains(
                                y,
                            );
                        assert(e == i as int);
                    }
                }
            }
            i = i + 1;
        }
        proof {
            assert forall|x: Seq<char>, y: Seq<char>| #[trigger] is_edge(merged@, x, y)
                <==> edge_in_any(maps@, m as int + 1, x, y) by {
                lemma_edge_entry_iff(g, x, y);
                if edge_in_any(maps@, m as int + 1, x, y) && !edge_in_any(maps@, m as int, x, y) {
                    let k = choose|k: int| 0 <= k < m as int + 1 && is_edge((#[trigger] maps@[k])@, x, y);
                    assert(k == m as int);
                }
                if edge_in_any(maps@, m as int, x, y) {
                    let k = choose|k: int| 0 <= k < m as int && is_edge((#[trigger] maps@[k])@, x, y);
                    assert(0 <= k < m as int + 1 && is_edge(maps@[k]@, x, y));
                }
            }
        }
        m = m + 1;
    }
    let ghost pre = merged@;
    let _ = merged.optimize();
    proof {
        lemma_optimize_edges(pre);
        lemma_optimize_idempotent(pre);
        assert forall|x: Seq<char>, y: Seq<char>| #[trigger] is_edge(merged@, x, y)
            <==> edge_in_any(maps@, maps@.len() as int, x, y) by {
            assert(is_edge(optimize_spec(pre), x, y) <==> is_edge(pre, x, y));
        }
        assert forall|i: int| 0 <= i < merged@.len() implies strictly_sorted(
            (#[trigger] merged@[i]).1,
        ) && merged@[i].1.len() > 0 by {
            assert(merged@[i] == optimize_spec(pre)[i]);
        }
    }
    merged
}

/// `needle` occurs contiguously somewhere in `hay`.
pub open spec fn contains_sub(hay: Seq<char>, needle: Seq<char>) -> bool {
    exists|k: int|
        0 <= k && k + needle.len() <= hay.len() && #[trigger] hay.subrange(k, k + needle.len())
            == needle
}

/// Does `needle` match `hay` at position `k`?
fn match_at(hay: &str, needle: &str, k: usize) -> (r: bool)
    requires
        k + needle@.len() <= hay@.len(),
    ensures
        r == (hay@.subrange(k as int, k as int + needle@.len()) == needle@),
{
    let hn = hay.unicode_len();
    let nn = needle.unicode_len();
    let mut t: usize = 0;
    while t < nn
        invariant
            hn == hay@.len(),
            nn == needle@.len(),
            k + nn <= hay@.len(),
            t <= nn,
            forall|u: int| 0 <= u < t ==> hay@[k + u] == needle@[u],
        decreases nn - t,
    {
        let hc = hay.get_char(k + t);
        let nc = needle.get_char(t);
        if !(hc == nc) {
            proof {
                assert(hay@.subrange(k as int, k as int + needle@.len())[t as int]
                    == hay@[k + t]);
            }
            return false;
        }
        t = t + 1;
    }
    proof {
        assert(hay@.subrange(k as int, k as int + needle@.len()) =~= needle@);
    }
    true
}

/// Does `needle` occur anywhere in `hay`?
fn contains_str(hay: &str, needle: &str) -> (r: bool)
    ensures
        r == contains_sub(hay@, needle@),
{
    let hn = hay.unicode_len();
    let nn = needle.unicode_len();
    if nn > hn {
        return false;
    }
    if nn == 0 {
        proof {
            assert(hay@.subrange(0, 0 + needle@.len() as int) =~= needle@);
        }
        return true;
    }
    let mut k: usize = 0;
    while k <= hn - nn
        invariant
            hn == hay@.len(),
            nn == needle@.len(),
            1 <= nn <= hn,
            k <= hn - nn + 1,
            forall|k2: int|
                0 <= k2 < k ==> #[trigger] hay@.subrange(k2, k2 + needle@.len()) != needle@,
        decreases hn - nn - k + 1,
    {
        if match_at(hay, needle, k) {
            return true;
        }
        k = k + 1;
    }
    proof {
        if contains_sub(hay@, needle@) {
            let k2 = choose|k2: int|
                0 <= k2 && k2 + needle@.len() <= hay@.len() && #[trigger] hay@.subrange(
                    k2,
                    k2 + needle@.len(),
                ) == needle@;
            assert(k2 < k);
        }
    }
    false
}

/// The views of the given name fragments.
pub open spec fn type_views(ts: Seq<&str>) -> Seq<Seq<char>> {
    ts.map_values(|t: &str| t@)
}

/// The lowercase form of `name` contains the lowercase form of at least
/// one of the fragments.
pub open spec fn matches_any(ts: Seq<Seq<char>>, name: Seq<char>) -> bool {
    exists|t: int| 0 <= t < ts.len() && contains_sub(lower_of(name), lower_of(#[trigger] ts[t]))
}

/// The entry filter used by `filter_by_asset_type`: the name must match
/// and the list must be non-empty, since an entry is kept only by copying
/// its edges and an empty list has none.
pub open spec fn entry_matches(ts: Seq<Seq<char>>) -> spec_fn((Seq<char>, Seq<Seq<char>>)) -> bool {
    |p: (Seq<char>, Seq<Seq<char>>)| matches_any(ts, p.0) && p.1.len() > 0
}

/// Does `name`, lowercased, contain any of the lowercased fragments?
fn name_matches(name: &str, asset_types: &[&str]) -> (r: bool)
    ensures
        r == matches_any(type_views(asset_types@), name@),
{
    let ghost ts = type_views(asset_types@);
    let lname = lowercase(name);
    let n = asset_types.len();
    let mut t: usize = 0;
    while t < n
        invariant
            ts == type_views(asset_types@),
            lname@ == lower_of(name@),
            n == asset_types@.len(),
            t <= n,
            forall|u: int| 0 <= u < t ==> !contains_sub(lower_of(name@), lower_of(#[trigger] ts[u])),
        decreases n - t,
    {
        let lt = lowercase(asset_types[t]);
        proof {
            assert(ts[t as int] == asset_types@[t as int]@);
        }
        if contains_str(lname.as_str(), lt.as_str()) {
            return true;
        }
        t = t + 1;
    }
    false
}

/// Keeps only the entries whose asset name case-insensitively contains at
/// least one of the given fragments; their dependency lists are copied
/// verbatim.  An entry with an empty list yields nothing, as replaying
/// its (zero) edges would.
pub fn filter_by_asset_type(map: &DependencyMap, asset_types: &[&str]) -> (r: DependencyMap)
    requires
        map.wf(),
    ensures
        r.wf(),
        r@ == map@.filter(entry_matches(type_views(asset_types@))),
{
    let ghost g = map@;
    let ghost pred = entry_matches(type_views(asset_types@));
    let mut out: Vec<(String, Vec<String>)> = Vec::new();
    let n = map.entry_count();
    let mut i: usize = 0;
    proof {
        assert(g.take(0) =~= Seq::<(Seq<char>, Seq<Seq<char>>)>::empty());
        assert(out.deep_view() =~= g.take(0).filter(pred));
    }
    while i < n
        invariant
            map.wf(),
            map@ == g,
            pred == entry_matches(type_views(asset_types@)),
            n == g.len(),
            i <= n,
            out.deep_view() =~= g.take(i as int).filter(pred),
        decreases n - i,
    {
        proof {
            assert(g.take(i as int + 1) =~= g.take(i as int).push(g[i as int]));
            g.take(i as int).lemma_filter_push(g[i as int], pred);
        }
        let key = map.entry_key(i);
        if map.entry_list(i).len() > 0 && name_matches(key.as_str(), asset_types) {
            let ghost ob = out.deep_view();
            let list = crate::store::clone_names(map.entry_list(i));
            out.push((key.clone(), list));
            proof {
                assert(pred(g[i as int]));
                assert(out.deep_view() =~= ob.push((g[i as int].0, g[i as int].1)));
                assert((g[i as int].0, g[i as int].1) == g[i as int]);
            }
        } else {
            proof {
                assert(!pred(g[i as int]));
            }
        }
        i = i + 1;
    }
    proof {
        assert(g.take(n as int) =~= g);
        crate::normalize::lemma_filter_distinct(g, pred);
    }
    let mut r = DependencyMap::new();
    r.replace_entries(out);
    r
}

} // verus!
