//! Statistics over a store and a caller-supplied roster: orphans,
//! most-referenced ranking, and the aggregate snapshot.

use vstd::prelude::*;

use vstd::string::StringExecFns;

use crate::depth::{capped, depth_spec, nat_max};
use crate::model::{deps_of, has_key, reverse_deps, GraphModel};
use crate::reach::is_cycle;
use crate::store::{names_contain, DependencyMap};
use crate::tree::{tree_model, tree_spec, DependencyTree};

verus! {

broadcast use vstd::seq_lib::group_seq_properties, vstd::set::group_set_axioms;

/// The views of a list of names.
pub open spec fn names_view(s: Seq<String>) -> Seq<Seq<char>> {
    s.map_values(|x: String| x@)
}

/// `n` appears in some dependency list of the store.
pub open spec fn is_referenced(g: GraphModel, n: Seq<char>) -> bool {
    exists|i: int| 0 <= i < g.len() && (#[trigger] g[i]).1.contains(n)
}

/// An asset from the roster is orphaned when it has no outgoing edges (it
/// is not a key) and no incoming edges (no list mentions it).
pub open spec fn is_orphan(g: GraphModel, n: Seq<char>) -> bool {
    !has_key(g, n) && !is_referenced(g, n)
}

/// The orphan test as a predicate over names.
pub open spec fn orphan_pred(g: GraphModel) -> spec_fn(Seq<char>) -> bool {
    |n: Seq<char>| is_orphan(g, n)
}

/// The predicate that a name equals `n`.
pub open spec fn eq_name(n: Seq<char>) -> spec_fn(Seq<char>) -> bool {
    |x: Seq<char>| x == n
}

/// How many times `n` occurs in one dependency list.
pub open spec fn count_in(l: Seq<Seq<char>>, n: Seq<char>) -> int {
    l.filter(eq_name(n)).len() as int
}

/// How many times `n` occurs as a target across the whole store: its
/// in-degree, duplicate edges counted.
pub open spec fn in_degree(g: GraphModel, n: Seq<char>) -> int
    decreases g.len(),
{
    if g.len() == 0 {
        0
    } else {
        in_degree(g.drop_last(), n) + count_in(g.last().1, n)
    }
}

/// The set of names that occur in some dependency list.
pub open spec fn referenced_set(g: GraphModel) -> Set<Seq<char>> {
    Set::new(|n: Seq<char>| is_referenced(g, n))
}

/// A count clamped into the range of the counter that reports it.
pub open spec fn capped_usize(n: int) -> int {
    if n > usize::MAX as int {
        usize::MAX as int
    } else {
        n
    }
}

/// The smaller of two integers.
pub open spec fn min_int(a: int, b: int) -> int {
    if a <= b {
        a
    } else {
        b
    }
}

/// Reference counts are never negative.
pub proof fn lemma_in_degree_nonneg(g: GraphModel, n: Seq<char>)
    ensures
        in_degree(g, n) >= 0,
    decreases g.len(),
{
    if g.len() > 0 {
        lemma_in_degree_nonneg(g.drop_last(), n);
    }
}

/// A name has a positive in-degree exactly when some list mentions it.
pub proof fn lemma_in_degree_pos(g: GraphModel, n: Seq<char>)
    ensures
        in_degree(g, n) > 0 <==> is_referenced(g, n),
    decreases g.len(),
{
    broadcast use vstd::seq_lib::group_filter_ensures;

    if g.len() > 0 {
        let dl = g.drop_last();
        lemma_in_degree_pos(dl, n);
        lemma_in_degree_nonneg(dl, n);
        assert(count_in(g.last().1, n) >= 0);
        assert(g.last().1.contains(n) ==> count_in(g.last().1, n) > 0) by {
            if g.last().1.contains(n) {
                let k = choose|k: int| 0 <= k < g.last().1.len() && g.last().1[k] == n;
                g.last().1.lemma_filter_contains(eq_name(n), k);
            }
        }
        assert(count_in(g.last().1, n) > 0 ==> g.last().1.contains(n)) by {
            if count_in(g.last().1, n) > 0 {
                let f = g.last().1.filter(eq_name(n));
                assert(eq_name(n)(f[0]));
                assert(f.contains(f[0]));
                g.last().1.lemma_filter_contains_rev(eq_name(n), f[0]);
            }
        }
        assert(is_referenced(g, n) <==> (is_referenced(dl, n) || g.last().1.contains(n))) by {
            if is_referenced(g, n) {
                let i = choose|i: int| 0 <= i < g.len() && (#[trigger] g[i]).1.contains(n);
                if i < g.len() - 1 {
                    assert(dl[i].1.contains(n));
                }
            }
            if is_referenced(dl, n) {
                let i = choose|i: int| 0 <= i < dl.len() && (#[trigger] dl[i]).1.contains(n);
                assert(g[i].1.contains(n));
            }
            if g.last().1.contains(n) {
                assert(g[g.len() - 1].1.contains(n));
            }
        }
    }
}

/// Descending order of reference counts.
pub open spec fn sorted_desc(s: Seq<(Seq<char>, usize)>) -> bool {
    forall|a: int, b: int| 0 <= a < b < s.len() ==> (#[trigger] s[a]).1 >= (#[trigger] s[b]).1
}

/// Pairwise-distinct names among the ranked pairs.
pub open spec fn distinct_names(s: Seq<(Seq<char>, usize)>) -> bool {
    forall|a: int, b: int| 0 <= a < b < s.len() ==> (#[trigger] s[a]).0 != (#[trigger] s[b]).0
}

/// `n` is among the ranked names.
pub open spec fn among(s: Seq<(Seq<char>, usize)>, n: Seq<char>) -> bool {
    exists|k: int| 0 <= k < s.len() && (#[trigger] s[k]).0 == n
}

/// Occurrence counts over a prefix grow one dependency at a time.
proof fn lemma_count_take_step(l: Seq<Seq<char>>, j: int, n: Seq<char>)
    requires
        0 <= j < l.len(),
    ensures
        count_in(l.take(j + 1), n) == count_in(l.take(j), n) + (if l[j] == n {
            1int
        } else {
            0int
        }),
{
    assert(l.take(j + 1) =~= l.take(j).push(l[j]));
    l.take(j).lemma_filter_push(l[j], eq_name(n));
}

/// Occurrence counts are never negative.
proof fn lemma_count_in_nonneg(l: Seq<Seq<char>>, n: Seq<char>)
    ensures
        count_in(l, n) >= 0,
{
}

/// Finds the position of `name` among the ranked pairs.
fn find_pair(pairs: &Vec<(String, usize)>, name: &str) -> (r: Option<usize>)
    ensures
        match r {
            Some(k) => k < pairs.deep_view().len() && pairs.deep_view()[k as int].0 == name@,
            None => !among(pairs.deep_view(), name@),
        },
{
    let key = String::from_str(name);
    let n = pairs.len();
    let mut i: usize = 0;
    while i < n
        invariant
            n == pairs@.len(),
            i <= n,
            key@ == name@,
            forall|j: int| 0 <= j < i ==> (#[trigger] pairs.deep_view()[j]).0 != name@,
        decreases n - i,
    {
        if pairs[i].0 == key {
            proof {
                assert(pairs.deep_view()[i as int].0 == name@);
            }
            return Some(i);
        }
        i = i + 1;
    }
    None
}

/// The total number of edges: the sum of every list's length, duplicates
/// included, in whatever phase the store is currently in.
pub open spec fn total_edges(g: GraphModel) -> int
    decreases g.len(),
{
    if g.len() == 0 {
        0
    } else {
        total_edges(g.drop_last()) + g.last().1.len()
    }
}

/// The deepest dependency chain over a roster of names.
pub open spec fn roster_max_depth(g: GraphModel, roster: Seq<Seq<char>>) -> nat
    decreases roster.len(),
{
    if roster.len() == 0 {
        0
    } else {
        nat_max(
            roster_max_depth(g, roster.drop_last()),
            depth_spec(g, roster.last(), Set::<Seq<char>>::empty()),
        )
    }
}

/// What `get_most_referenced_assets` owes: counts exact (clamped), names
/// distinct and actually referenced, counts descending, as many entries
/// as the limit allows, and nothing better left out.
pub open spec fn ranking_ok(g: GraphModel, limit: int, s: Seq<(Seq<char>, usize)>) -> bool {
    &&& sorted_desc(s)
    &&& distinct_names(s)
    &&& forall|k: int|
        0 <= k < s.len() ==> (#[trigger] s[k]).1 as int == capped_usize(in_degree(g, s[k].0))
            && is_referenced(g, s[k].0)
    &&& s.len() == min_int(limit, referenced_set(g).len() as int)
    &&& forall|n: Seq<char>|
        is_referenced(g, n) && !among(s, n) ==> s.len() == limit && (limit > 0 ==> capped_usize(
            in_degree(g, n),
        ) <= (s[limit - 1]).1 as int)
}

/// The first position whose count is smaller than `c`; inserting there
/// keeps the list sorted and, among equal counts, keeps earlier arrivals
/// first.
fn insert_pos_desc(v: &Vec<(String, usize)>, c: usize) -> (pos: usize)
    ensures
        pos <= v.deep_view().len(),
        forall|k: int| 0 <= k < pos ==> (#[trigger] v.deep_view()[k]).1 >= c,
        pos < v.deep_view().len() ==> v.deep_view()[pos as int].1 < c,
{
    let n = v.len();
    let mut pos: usize = 0;
    while pos < n
        invariant
            n == v@.len(),
            pos <= n,
            forall|k: int| 0 <= k < pos ==> (#[trigger] v.deep_view()[k]).1 >= c,
        decreases n - pos,
    {
        if v[pos].1 < c {
            return pos;
        }
        pos = pos + 1;
    }
    pos
}

/// Sorts ranked pairs by descending count: a stable insertion sort, so
/// equal counts keep their first-occurrence order.
fn sort_pairs_desc(pairs: &Vec<(String, usize)>) -> (out: Vec<(String, usize)>)
    ensures
        out.deep_view().to_multiset() == pairs.deep_view().to_multiset(),
        sorted_desc(out.deep_view()),
{
    broadcast use vstd::multiset::group_multiset_axioms;

    let ghost src = pairs.deep_view();
    let mut out: Vec<(String, usize)> = Vec::new();
    let n = pairs.len();
    let mut i: usize = 0;
    proof {
        assert(src.take(0) =~= Seq::<(Seq<char>, usize)>::empty());
        assert(out.deep_view().to_multiset() =~= src.take(0).to_multiset());
    }
    while i < n
        invariant
            n == pairs@.len(),
            src == pairs.deep_view(),
            i <= n,
            sorted_desc(out.deep_view()),
            out.deep_view().to_multiset() == src.take(i as int).to_multiset(),
        decreases n - i,
    {
        broadcast use vstd::multiset::group_multiset_axioms;

        let p = (pairs[i].0.clone(), pairs[i].1);
        let ghost pv = src[i as int];
        let pos = insert_pos_desc(&out, p.1);
        let ghost ob = out.deep_view();
        out.insert(pos, p);
        proof {
            let ov = out.deep_view();
            assert(ov.len() == ob.len() + 1);
            assert(ov[pos as int] == pv);
            assert(forall|k: int| 0 <= k < pos ==> ov[k] == ob[k]);
            assert(forall|k: int| pos < k < ov.len() ==> ov[k] == ob[k - 1]);
            assert forall|a: int, b: int| 0 <= a < b < ov.len() implies (#[trigger] ov[a]).1
                >= (#[trigger] ov[b]).1 by {
                if a == pos as int {
                    assert(ob[pos as int].1 < pv.1);
                    if b - 1 > pos {
                        assert(ob[pos as int].1 >= ob[b - 1].1);
                    }
                } else if b == pos as int {
                    assert(ob[a].1 >= pv.1);
                } else if a < pos && b > pos {
                    if b - 1 == pos as int {
                        assert(ov[b] == ob[pos as int]);
                        assert(ob[pos as int].1 < pv.1);
                        assert(ob[a].1 >= pv.1);
                    } else {
                        assert(ob[a].1 >= ob[b - 1].1);
                    }
                } else if b < pos {
                    assert(ob[a].1 >= ob[b].1);
                } else {
                    assert(ob[a - 1].1 >= ob[b - 1].1);
                }
            }
            assert(ov.remove(pos as int) =~= ob);
            assert(ob.to_multiset() == ov.to_multiset().remove(pv));
            assert(ov.contains(pv)) by {
                assert(ov[pos as int] == pv);
            }
            assert(ov.to_multiset().count(pv) > 0);
            assert(ov.to_multiset() =~= ob.to_multiset().insert(pv));
            assert(src.take(i as int + 1) =~= src.take(i as int).push(pv));
            assert(src.take(i as int + 1).to_multiset() =~= src.take(
                i as int,
            ).to_multiset().insert(pv));
        }
        i = i + 1;
    }
    proof {
        assert(src.take(n as int) =~= src);
    }
    out
}

/// A permutation of pairs with pairwise-distinct names keeps the names
/// pairwise distinct.
proof fn lemma_perm_distinct(a: Seq<(Seq<char>, usize)>, b: Seq<(Seq<char>, usize)>)
    requires
        a.to_multiset() == b.to_multiset(),
        distinct_names(a),
    ensures
        distinct_names(b),
{
    broadcast use vstd::multiset::group_multiset_axioms;

    assert forall|x: int, y: int| 0 <= x < y < b.len() implies (#[trigger] b[x]).0
        != (#[trigger] b[y]).0 by {
        if b[x].0 == b[y].0 {
            if b[x] == b[y] {
                let p = b[x];
                assert(b.remove(x).to_multiset() == b.to_multiset().remove(p));
                assert(b.remove(x)[y - 1] == p);
                assert(b.remove(x).contains(p));
                assert(b.remove(x).to_multiset().count(p) > 0);
                assert(a.to_multiset().count(p) >= 2);
                assert(a.contains(p)) by {
                    assert(a.to_multiset().count(p) > 0);
                }
                let i1 = choose|i1: int| 0 <= i1 < a.len() && a[i1] == p;
                assert(a.remove(i1).to_multiset() == a.to_multiset().remove(p));
                assert(a.remove(i1).to_multiset().count(p) > 0);
                assert(a.remove(i1).contains(p));
                let i2 = choose|i2: int| 0 <= i2 < a.remove(i1).len() && a.remove(i1)[i2] == p;
                let i3 = if i2 < i1 {
                    i2
                } else {
                    i2 + 1
                };
                assert(a[i3] == p);
                assert(i3 != i1);
                assert(a[i1].0 == a[i3].0);
                assert(false);
            } else {
                assert(b.contains(b[x]));
                assert(b.contains(b[y]));
                assert(a.to_multiset().count(b[x]) > 0);
                assert(a.to_multiset().count(b[y]) > 0);
                assert(a.contains(b[x]));
                assert(a.contains(b[y]));
                let ia = choose|ia: int| 0 <= ia < a.len() && a[ia] == b[x];
                let ib = choose|ib: int| 0 <= ib < a.len() && a[ib] == b[y];
                assert(ia != ib);
                assert(a[ia].0 == a[ib].0);
                assert(false);
            }
        }
    }
}

impl DependencyMap {
    /// Does any dependency list mention `name`?
    fn is_referenced_exec(&self, name: &str) -> (r: bool)
        ensures
            r == is_referenced(self@, name@),
    {
        let n = self.entry_count();
        let mut i: usize = 0;
        while i < n
            invariant
                n == self@.len(),
                i <= n,
                forall|j: int| 0 <= j < i ==> !(#[trigger] self@[j]).1.contains(name@),
            decreases n - i,
        {
            if names_contain(self.entry_list(i), name) {
                return true;
            }
            i = i + 1;
        }
        false
    }

    /// Returns the roster entries that are orphaned: no entry of their own
    /// and not mentioned in any dependency list.  The roster is mandatory:
    /// the store alone cannot enumerate assets with no edges at all.
    pub fn find_orphaned_assets(&self, all_assets: &[String]) -> (r: Vec<String>)
        requires
            self.wf(),
        ensures
            r.deep_view() == names_view(all_assets@).filter(orphan_pred(self@)),
    {
        let ghost roster = names_view(all_assets@);
        let mut r: Vec<String> = Vec::new();
        let n = all_assets.len();
        let mut i: usize = 0;
        proof {
            assert(roster.take(0) =~= Seq::<Seq<char>>::empty());
            assert(r.deep_view() =~= roster.take(0).filter(orphan_pred(self@)));
        }
        while i < n
            invariant
                self.wf(),
                n == all_assets@.len(),
                roster == names_view(all_assets@),
                i <= n,
                r.deep_view() =~= roster.take(i as int).filter(orphan_pred(self@)),
            decreases n - i,
        {
            proof {
                assert(roster.take(i as int + 1) =~= roster.take(i as int).push(
                    roster[i as int],
                ));
                roster.take(i as int).lemma_filter_push(roster[i as int], orphan_pred(self@));
                assert(roster[i as int] == all_assets@[i as int]@);
            }
            let name = &all_assets[i];
            let has_deps = match self.find_key(name.as_str()) {
                Some(_) => true,
                None => false,
            };
            let referenced = self.is_referenced_exec(name.as_str());
            if !has_deps && !referenced {
                let ghost rb = r.deep_view();
                r.push(name.clone());
                proof {
                    assert(is_orphan(self@, roster[i as int]));
                    assert(r.deep_view() =~= rb.push(roster[i as int]));
                }
            } else {
                proof {
                    assert(!is_orphan(self@, roster[i as int]));
                }
            }
            i = i + 1;
        }
        proof {
            assert(roster.take(n as int) =~= roster);
        }
        r
    }

    /// One pair per name that occurs in any list, with its clamped
    /// in-degree, in first-occurrence order.
    fn count_references(&self) -> (pairs: Vec<(String, usize)>)
        requires
            self.wf(),
        ensures
            distinct_names(pairs.deep_view()),
            forall|k: int|
                0 <= k < pairs.deep_view().len() ==> (#[trigger] pairs.deep_view()[k]).1 as int
                    == capped_usize(in_degree(self@, pairs.deep_view()[k].0)),
            forall|n: Seq<char>|
                in_degree(self@, n) > 0 ==> among(pairs.deep_view(), n),
            forall|k: int|
                0 <= k < pairs.deep_view().len() ==> in_degree(
                    self@,
                    (#[trigger] pairs.deep_view()[k]).0,
                ) > 0,
    {
        let ghost g = self@;
        let mut pairs: Vec<(String, usize)> = Vec::new();
        let n = self.entry_count();
        let mut i: usize = 0;
        proof {
            assert(g.take(0) =~= Seq::<(Seq<char>, Seq<Seq<char>>)>::empty());
        }
        while i < n
            invariant
                self.wf(),
                self@ == g,
                n == g.len(),
                i <= n,
                distinct_names(pairs.deep_view()),
                forall|k: int|
                    0 <= k < pairs.deep_view().len() ==> (#[trigger] pairs.deep_view()[k]).1 >= 1,
                forall|k: int|
                    0 <= k < pairs.deep_view().len() ==> (#[trigger] pairs.deep_view()[k]).1 as int
                        == capped_usize(in_degree(g.take(i as int), pairs.deep_view()[k].0)),
                forall|n2: Seq<char>|
                    in_degree(g.take(i as int), n2) > 0 ==> among(pairs.deep_view(), n2),
            decreases n - i,
        {
            let ghost base = g.take(i as int);
            let list = self.entry_list(i);
            let ghost cur = g[i as int].1;
            proof {
                assert(list.deep_view() == cur);
                assert(cur.take(0) =~= Seq::<Seq<char>>::empty());
                assert(g.take(i as int + 1) =~= base.push(g[i as int]));
                assert(g.take(i as int + 1).drop_last() =~= base);
            }
            let m = list.len();
            let mut j: usize = 0;
            while j < m
                invariant
                    self.wf(),
                    self@ == g,
                    0 <= i < g.len(),
                    base == g.take(i as int),
                    cur == g[i as int].1,
                    list.deep_view() == cur,
                    m == cur.len(),
                    j <= m,
                    distinct_names(pairs.deep_view()),
                    forall|k: int|
                        0 <= k < pairs.deep_view().len() ==> (#[trigger] pairs.deep_view()[k]).1
                            >= 1,
                    forall|k: int|
                        0 <= k < pairs.deep_view().len() ==> (
                        #[trigger] pairs.deep_view()[k]).1 as int == capped_usize(
                            in_degree(base, pairs.deep_view()[k].0) + count_in(
                                cur.take(j as int),
                                pairs.deep_view()[k].0,
                            ),
                        ),
                    forall|n2: Seq<char>|
                        in_degree(base, n2) + count_in(cur.take(j as int), n2) > 0 ==> among(
                            pairs.deep_view(),
                            n2,
                        ),
                decreases m - j,
            {
                let d = list[j].clone();
                proof {
                    assert(d@ == cur[j as int]);
                    assert forall|n2: Seq<char>| true implies count_in(cur.take(j as int + 1), n2)
                        == count_in(cur.take(j as int), n2) + (if cur[j as int] == n2 {
                        1int
                    } else {
                        0int
                    }) by {
                        lemma_count_take_step(cur, j as int, n2);
                    }
                }
                match find_pair(&pairs, d.as_str()) {
                    Some(k) => {
                        let ghost pb = pairs.deep_view();
                        let name = pairs[k].0.clone();
                        let c = pairs[k].1;
                        let c2 = if c == usize::MAX {
                            c
                        } else {
                            c + 1
                        };
                        pairs[k] = (name, c2);
                        proof {
                            assert(pairs.deep_view() =~= pb.update(k as int, (d@, c2)));
                            lemma_in_degree_nonneg(base, d@);
                            lemma_count_in_nonneg(cur.take(j as int), d@);
                            assert forall|k2: int|
                                0 <= k2 < pairs.deep_view().len() implies (
                            #[trigger] pairs.deep_view()[k2]).1 as int == capped_usize(
                                in_degree(base, pairs.deep_view()[k2].0) + count_in(
                                    cur.take(j as int + 1),
                                    pairs.deep_view()[k2].0,
                                ),
                            ) by {
                                if k2 != k as int {
                                    assert(pairs.deep_view()[k2] == pb[k2]);
                                    assert(pb[k2].0 != d@);
                                }
                            }
                            assert forall|n2: Seq<char>|
                                in_degree(base, n2) + count_in(cur.take(j as int + 1), n2)
                                    > 0 implies among(pairs.deep_view(), n2) by {
                                if n2 == d@ {
                                    assert(pairs.deep_view()[k as int].0 == d@);
                                } else {
                                    assert(among(pb, n2));
                                    let k3 = choose|k3: int|
                                        0 <= k3 < pb.len() && (#[trigger] pb[k3]).0 == n2;
                                    if k3 == k as int {
                                        assert(pairs.deep_view()[k3].0 == d@);
                                        assert(false);
                                    } else {
                                        assert(pairs.deep_view()[k3].0 == n2);
                                    }
                                }
                            }
                        }
                    },
                    None => {
                        let ghost pb = pairs.deep_view();
                        pairs.push((d, 1));
                        proof {
                            let d2 = cur[j as int];
                            assert(pairs.deep_view() =~= pb.push((d2, 1)));
                            lemma_in_degree_nonneg(base, d2);
                            lemma_count_in_nonneg(cur.take(j as int), d2);
                            assert(in_degree(base, d2) + count_in(cur.take(j as int), d2) <= 0) by {
                                if in_degree(base, d2) + count_in(cur.take(j as int), d2) > 0 {
                                    assert(among(pb, d2));
                                }
                            }
                            assert forall|k2: int|
                                0 <= k2 < pairs.deep_view().len() implies (
                            #[trigger] pairs.deep_view()[k2]).1 as int == capped_usize(
                                in_degree(base, pairs.deep_view()[k2].0) + count_in(
                                    cur.take(j as int + 1),
                                    pairs.deep_view()[k2].0,
                                ),
                            ) by {
                                if k2 < pb.len() {
                                    assert(pairs.deep_view()[k2] == pb[k2]);
                                    assert(pb[k2].0 != d2);
                                }
                            }
                            assert forall|k2: int, k3: int|
                                0 <= k2 < k3 < pairs.deep_view().len() implies (
                            #[trigger] pairs.deep_view()[k2]).0 != (
                            #[trigger] pairs.deep_view()[k3]).0 by {
                                if k3 == pb.len() {
                                    assert(pairs.deep_view()[k2] == pb[k2]);
                                    assert(!among(pb, d2));
                                }
                            }
                            assert forall|n2: Seq<char>|
                                in_degree(base, n2) + count_in(cur.take(j as int + 1), n2)
                                    > 0 implies among(pairs.deep_view(), n2) by {
                                if n2 == d2 {
                                    assert(pairs.deep_view()[pb.len() as int].0 == d2);
                                } else {
                                    assert(among(pb, n2));
                                    let k3 = choose|k3: int|
                                        0 <= k3 < pb.len() && (#[trigger] pb[k3]).0 == n2;
                                    assert(pairs.deep_view()[k3].0 == n2);
                                }
                            }
                        }
                    },
                }
                j = j + 1;
            }
            proof {
                assert(cur.take(m as int) =~= cur);
                assert(g.take(i as int + 1).last() == g[i as int]);
                assert forall|n2: Seq<char>| true implies in_degree(g.take(i as int + 1), n2)
                    == in_degree(base, n2) + count_in(cur, n2) by {
                    assert(g.take(i as int + 1).drop_last() =~= base);
                }
            }
            i = i + 1;
        }
        proof {
            assert(g.take(n as int) =~= g);
            assert forall|k: int|
                0 <= k < pairs.deep_view().len() implies in_degree(
                g,
                (#[trigger] pairs.deep_view()[k]).0,
            ) > 0 by {
                lemma_in_degree_nonneg(g, pairs.deep_view()[k].0);
                assert(pairs.deep_view()[k].1 >= 1);
            }
        }
        pairs
    }

    /// Ranks the assets by how many times they appear as a dependency
    /// target (duplicate edges counted), descending, truncated to `limit`
    /// entries.  Equal counts keep their first-occurrence order.
    pub fn get_most_referenced_assets(&self, limit: usize) -> (r: Vec<(String, usize)>)
        requires
            self.wf(),
        ensures
            ranking_ok(self@, limit as int, r.deep_view()),
    {
        broadcast use vstd::multiset::group_multiset_axioms;

        let ghost g = self@;
        let pairs = self.count_references();
        let ghost pv = pairs.deep_view();
        let mut sorted = sort_pairs_desc(&pairs);
        let ghost sv = sorted.deep_view();
        proof {
            lemma_perm_distinct(pv, sv);
            assert(sv.len() == pv.len()) by {
                assert(sv.to_multiset().len() == sv.len());
                assert(pv.to_multiset().len() == pv.len());
            }
            assert forall|k: int| 0 <= k < sv.len() implies pv.contains(#[trigger] sv[k]) by {
                assert(sv.contains(sv[k]));
                assert(pv.to_multiset().count(sv[k]) > 0);
            }
            assert forall|k: int| 0 <= k < sv.len() implies (#[trigger] sv[k]).1 as int
                == capped_usize(in_degree(g, sv[k].0)) && in_degree(g, sv[k].0) > 0 by {
                assert(pv.contains(sv[k]));
                let m = choose|m: int| 0 <= m < pv.len() && pv[m] == sv[k];
                assert(pv[m].1 as int == capped_usize(in_degree(g, pv[m].0)));
            }
            // the distinct ranked names are exactly the referenced names
            let ns = Seq::new(pv.len(), |k: int| pv[k].0);
            assert(ns.no_duplicates());
            ns.unique_seq_to_set();
            assert(referenced_set(g) =~= ns.to_set()) by {
                assert forall|n: Seq<char>| #[trigger] referenced_set(g).contains(n) implies ns
                    .to_set()
                    .contains(n) by {
                    lemma_in_degree_pos(g, n);
                    assert(among(pv, n));
                    let k = choose|k: int| 0 <= k < pv.len() && (#[trigger] pv[k]).0 == n;
                    assert(ns[k] == n);
                }
                assert forall|n: Seq<char>| #[trigger] ns.to_set().contains(n) implies
                    referenced_set(g).contains(n) by {
                    let k = choose|k: int| 0 <= k < ns.len() && ns[k] == n;
                    lemma_in_degree_pos(g, n);
                }
            }
            assert(referenced_set(g).len() == pv.len());
        }
        sorted.truncate(limit);
        proof {
            let rv = sorted.deep_view();
            if limit <= sv.len() {
                assert(sorted@ == sorted@.subrange(0, limit as int) || true);
                assert(rv =~= sv.subrange(0, limit as int));
            } else {
                assert(rv =~= sv);
            }
            assert forall|k: int| 0 <= k < rv.len() implies (#[trigger] rv[k]).1 as int
                == capped_usize(in_degree(g, rv[k].0)) && is_referenced(g, rv[k].0) by {
                assert(rv[k] == sv[k]);
                lemma_in_degree_pos(g, sv[k].0);
            }
            assert forall|n: Seq<char>|
                is_referenced(g, n) && !among(rv, n) implies rv.len() == limit && (limit > 0
                ==> capped_usize(in_degree(g, n)) <= (rv[limit - 1]).1 as int) by {
                lemma_in_degree_pos(g, n);
                assert(among(pv, n));
                let m = choose|m: int| 0 <= m < pv.len() && (#[trigger] pv[m]).0 == n;
                let q = pv[m];
                assert(pv.contains(q));
                assert(sv.to_multiset().count(q) > 0);
                assert(sv.contains(q));
                let ms = choose|ms: int| 0 <= ms < sv.len() && sv[ms] == q;
                assert(ms >= rv.len()) by {
                    if ms < rv.len() {
                        assert(rv[ms] == sv[ms]);
                        assert(among(rv, n));
                    }
                }
                assert(rv.len() == limit);
                if limit > 0 {
                    assert(sv[limit - 1].1 >= sv[ms].1);
                    assert(rv[limit - 1] == sv[limit - 1]);
                    assert(q.1 as int == capped_usize(in_degree(g, q.0)));
                }
            }
        }
        sorted
    }

    /// The total edge count (sum of every list's length), clamped to the
    /// counter's range.
    fn total_dependencies_exec(&self) -> (t: usize)
        ensures
            t as int == capped_usize(total_edges(self@)),
    {
        let ghost g = self@;
        let mut t: usize = 0;
        let n = self.entry_count();
        let mut i: usize = 0;
        proof {
            assert(g.take(0) =~= Seq::<(Seq<char>, Seq<Seq<char>>)>::empty());
        }
        while i < n
            invariant
                self@ == g,
                n == g.len(),
                i <= n,
                t as int == capped_usize(total_edges(g.take(i as int))),
            decreases n - i,
        {
            proof {
                assert(g.take(i as int + 1).drop_last() =~= g.take(i as int));
                assert(g.take(i as int + 1).last() == g[i as int]);
                lemma_total_edges_nonneg(g.take(i as int));
            }
            let len = self.entry_list(i).len();
            if t <= usize::MAX - len {
                t = t + len;
            } else {
                t = usize::MAX;
            }
            i = i + 1;
        }
        proof {
            assert(g.take(n as int) =~= g);
        }
        t
    }

    /// The deepest chain over the roster, clamped to the counter's range.
    fn roster_max_depth_exec(&self, all_assets: &[String]) -> (d: u32)
        requires
            self.wf(),
        ensures
            d as nat == capped(roster_max_depth(self@, names_view(all_assets@))),
    {
        let ghost g = self@;
        let ghost roster = names_view(all_assets@);
        let mut best: u32 = 0;
        let n = all_assets.len();
        let mut i: usize = 0;
        proof {
            assert(roster.take(0) =~= Seq::<Seq<char>>::empty());
        }
        while i < n
            invariant
                self.wf(),
                self@ == g,
                roster == names_view(all_assets@),
                n == all_assets@.len(),
                i <= n,
                best as nat == capped(roster_max_depth(g, roster.take(i as int))),
            decreases n - i,
        {
            let d = self.calculate_max_depth(all_assets[i].as_str());
            if d > best {
                best = d;
            }
            proof {
                assert(roster.take(i as int + 1).drop_last() =~= roster.take(i as int));
                assert(roster.take(i as int + 1).last() == roster[i as int]);
                assert(roster[i as int] == all_assets@[i as int]@);
            }
            i = i + 1;
        }
        proof {
            assert(roster.take(n as int) =~= roster);
        }
        best
    }

    /// The aggregate snapshot for a store and a roster: total edge count,
    /// deepest chain over the roster, every discovered cycle, the orphans,
    /// and the ten most-referenced assets.
    pub fn generate_statistics(&self, all_assets: &[String]) -> (s: DependencyStatistics)
        requires
            self.wf(),
        ensures
            statistics_ok(self@, names_view(all_assets@), s),
    {
        let circular_references = self.detect_circular_dependencies();
        let orphaned_assets = self.find_orphaned_assets(all_assets);
        let most_referenced = self.get_most_referenced_assets(10);
        let max_depth = self.roster_max_depth_exec(all_assets);
        let total_dependencies = self.total_dependencies_exec();
        DependencyStatistics {
            total_dependencies,
            max_depth,
            circular_references,
            orphaned_assets,
            most_referenced,
        }
    }

    /// The full per-asset report: direct and reverse dependencies, a tree
    /// unrolled to five levels, and the roster-wide statistics snapshot.
    pub fn analyze_asset_dependencies(&self, asset: &str, all_assets: &[String]) -> (a:
        DependencyAnalysis)
        requires
            self.wf(),
        ensures
            a.asset_name@ == asset@,
            a.direct_dependencies.deep_view() == deps_of(self@, asset@),
            a.reverse_dependencies.deep_view() == reverse_deps(self@, asset@),
            tree_model(a.dependency_tree) == tree_spec(
                self@,
                asset@,
                0,
                5,
                Set::<Seq<char>>::empty(),
            ),
            statistics_ok(self@, names_view(all_assets@), a.statistics),
    {
        let direct_dependencies = self.get_dependencies(asset);
        let reverse_dependencies = self.get_reverse_dependencies(asset);
        let dependency_tree = self.build_dependency_tree(asset, 5);
        let statistics = self.generate_statistics(all_assets);
        DependencyAnalysis {
            asset_name: String::from_str(asset),
            direct_dependencies,
            reverse_dependencies,
            dependency_tree,
            statistics,
        }
    }
}

/// Edge totals are never negative.
proof fn lemma_total_edges_nonneg(g: GraphModel)
    ensures
        total_edges(g) >= 0,
    decreases g.len(),
{
    if g.len() > 0 {
        lemma_total_edges_nonneg(g.drop_last());
    }
}

/// Statistics about the store's dependency structure.
#[derive(Debug, Clone)]
pub struct DependencyStatistics {
    pub total_dependencies: usize,
    pub max_depth: u32,
    pub circular_references: Vec<Vec<String>>,
    pub orphaned_assets: Vec<String>,
    pub most_referenced: Vec<(String, usize)>,
}

/// What `generate_statistics` owes of every field of the snapshot.
pub open spec fn statistics_ok(
    g: GraphModel,
    roster: Seq<Seq<char>>,
    s: DependencyStatistics,
) -> bool {
    &&& s.total_dependencies as int == capped_usize(total_edges(g))
    &&& s.max_depth as nat == capped(roster_max_depth(g, roster))
    &&& forall|j: int|
        0 <= j < s.circular_references.deep_view().len() ==> is_cycle(
            g,
            #[trigger] s.circular_references.deep_view()[j],
        ) && s.circular_references.deep_view()[j].no_duplicates()
    &&& s.circular_references.deep_view().len() == 0 ==> forall|c: Seq<Seq<char>>| !is_cycle(g, c)
    &&& s.orphaned_assets.deep_view() == roster.filter(orphan_pred(g))
    &&& ranking_ok(g, 10, s.most_referenced.deep_view())
}

/// The full dependency report for one asset.
#[derive(Debug)]
pub struct DependencyAnalysis {
    pub asset_name: String,
    pub direct_dependencies: Vec<String>,
    pub reverse_dependencies: Vec<String>,
    pub dependency_tree: DependencyTree,
    pub statistics: DependencyStatistics,
}

/// A whole store packaged for transport to a presentation layer.
#[derive(Debug, Clone)]
pub struct DependencyResponse {
    pub dependencies: DependencyMap,
}

} // verus!
