//! Whole-graph cycle detection by three-colour depth-first search.

use vstd::prelude::*;
use vstd::string::StringExecFns;

use crate::model::{deps_of, has_key, is_edge, GraphModel};
use crate::reach::{
    is_chain, is_cycle, lemma_key_in_names, lemma_names_of, lemma_target_in_names, names_of,
};
use crate::store::{clone_names, names_contain, DependencyMap};

verus! {

broadcast use
    vstd::set::group_set_axioms,
    vstd::set_lib::group_set_lib_default,
    vstd::seq_lib::group_seq_properties;

/// Finds the first index of `needle` in `v`, if any.
fn position_of(v: &Vec<String>, needle: &str) -> (r: Option<usize>)
    ensures
        match r {
            Some(i) => i < v.deep_view().len() && v.deep_view()[i as int] == needle@,
            None => !v.deep_view().contains(needle@),
        },
{
    let key = String::from_str(needle);
    let mut i: usize = 0;
    while i < v.len()
        invariant
            i <= v@.len(),
            key@ == needle@,
            forall|j: int| 0 <= j < i ==> v.deep_view()[j] != needle@,
        decreases v@.len() - i,
    {
        if v[i] == key {
            return Some(i);
        }
        i = i + 1;
    }
    proof {
        assert forall|j: int| 0 <= j < v.deep_view().len() implies v.deep_view()[j] != needle@ by {}
    }
    None
}

/// Copies `v` from index `from` to the end.
fn clone_suffix(v: &Vec<String>, from: usize) -> (r: Vec<String>)
    requires
        from <= v@.len(),
    ensures
        r.deep_view() == v.deep_view().subrange(from as int, v.deep_view().len() as int),
{
    let mut r: Vec<String> = Vec::new();
    let mut i: usize = from;
    while i < v.len()
        invariant
            from <= i <= v@.len(),
            r@.len() == i - from,
            forall|j: int| 0 <= j < r@.len() ==> r.deep_view()[j] == v.deep_view()[from + j],
        decreases v@.len() - i,
    {
        let ghost rb = r.deep_view();
        r.push(v[i].clone());
        proof {
            assert(r.deep_view() =~= rb.push(v.deep_view()[i as int]));
        }
        i = i + 1;
    }
    proof {
        assert(r.deep_view() =~= v.deep_view().subrange(from as int, v.deep_view().len() as int));
    }
    r
}

/// The visited set is exactly the union of the active path and the
/// finished assets.
pub open spec fn covers(vis: Seq<Seq<char>>, path: Seq<Seq<char>>, fin: Seq<Seq<char>>) -> bool {
    forall|x: Seq<char>| #[trigger] vis.contains(x) <==> (path.contains(x) || fin.contains(x))
}

/// The finish order is topological: every dependency of a finished asset
/// finished strictly earlier.
pub open spec fn topo_order(g: GraphModel, fin: Seq<Seq<char>>) -> bool {
    forall|i: int, d: Seq<char>|
        0 <= i < fin.len() && #[trigger] deps_of(g, fin[i]).contains(d) ==> exists|j: int|
            0 <= j < i && fin[j] == d
}

/// The position of `x` in a duplicate-free finish order.
pub open spec fn pos_in(fin: Seq<Seq<char>>, x: Seq<char>) -> int {
    choose|j: int| 0 <= j < fin.len() && fin[j] == x
}

/// `pos_in` finds the one position of a present name.
proof fn lemma_pos_in(fin: Seq<Seq<char>>, x: Seq<char>)
    requires
        fin.no_duplicates(),
        fin.contains(x),
    ensures
        0 <= pos_in(fin, x) < fin.len(),
        fin[pos_in(fin, x)] == x,
        forall|j: int| 0 <= j < fin.len() && fin[j] == x ==> j == pos_in(fin, x),
{
    assert forall|j: int| 0 <= j < fin.len() && fin[j] == x implies j == pos_in(fin, x) by {
        if j != pos_in(fin, x) {
            assert(fin[j] != fin[pos_in(fin, x)]);
        }
    }
}

/// Along an edge, the target finished strictly earlier than the source.
proof fn lemma_topo_edge_step(g: GraphModel, fin: Seq<Seq<char>>, a: Seq<char>, b: Seq<char>)
    requires
        fin.no_duplicates(),
        topo_order(g, fin),
        fin.contains(a),
        fin.contains(b),
        is_edge(g, a, b),
    ensures
        pos_in(fin, b) < pos_in(fin, a),
{
    lemma_pos_in(fin, a);
    lemma_pos_in(fin, b);
    let i = pos_in(fin, a);
    assert(deps_of(g, fin[i]).contains(b));
    let j = choose|j: int| 0 <= j < i && fin[j] == b;
    assert(j == pos_in(fin, b));
}

/// Positions strictly descend along a cycle's chain.
proof fn lemma_cycle_desc(g: GraphModel, fin: Seq<Seq<char>>, c: Seq<Seq<char>>, k: int)
    requires
        fin.no_duplicates(),
        topo_order(g, fin),
        is_cycle(g, c),
        forall|x: Seq<char>| has_key(g, x) ==> fin.contains(x),
        0 <= k < c.len(),
    ensures
        fin.contains(c[k]),
        pos_in(fin, c[k]) <= pos_in(fin, c[0]) - k,
    decreases k,
{
    assert(fin.contains(c[k])) by {
        if k < c.len() - 1 {
            assert(is_edge(g, c[k], c[k + 1]));
        } else {
            assert(is_edge(g, c.last(), c[0]));
            assert(c.last() == c[k]);
        }
        assert(deps_of(g, c[k]).len() > 0);
        assert(has_key(g, c[k]));
    }
    if k > 0 {
        lemma_cycle_desc(g, fin, c, k - 1);
        assert(is_edge(g, c[k - 1], c[k]));
        lemma_topo_edge_step(g, fin, c[k - 1], c[k]);
    }
}

/// A topologically finished store, with every key finished, has no cycle.
proof fn lemma_topo_no_cycle(g: GraphModel, fin: Seq<Seq<char>>, c: Seq<Seq<char>>)
    requires
        fin.no_duplicates(),
        topo_order(g, fin),
        forall|x: Seq<char>| has_key(g, x) ==> fin.contains(x),
    ensures
        !is_cycle(g, c),
{
    if is_cycle(g, c) {
        let n = c.len() as int;
        lemma_cycle_desc(g, fin, c, n - 1);
        assert(is_edge(g, c.last(), c[0]));
        assert(c.last() == c[n - 1]);
        lemma_cycle_desc(g, fin, c, 0);
        lemma_topo_edge_step(g, fin, c[n - 1], c[0]);
    }
}

impl DependencyMap {
    /// Reports the cycles found by a depth-first search over every entry.
    /// Every reported sequence closes on itself through real edges, one
    /// entry per back-edge discovered, without canonicalization; and when
    /// nothing is reported the store has no cycle at all.
    pub fn detect_circular_dependencies(&self) -> (r: Vec<Vec<String>>)
        requires
            self.wf(),
        ensures
            forall|j: int|
                0 <= j < r.deep_view().len() ==> is_cycle(self@, #[trigger] r.deep_view()[j])
                    && r.deep_view()[j].no_duplicates(),
            r.deep_view().len() == 0 ==> forall|c: Seq<Seq<char>>| !is_cycle(self@, c),
    {
        let ghost g = self@;
        let mut cycles: Vec<Vec<String>> = Vec::new();
        let mut visited: Vec<String> = Vec::new();
        let mut path: Vec<String> = Vec::new();
        let mut done: Vec<String> = Vec::new();
        let ghost u = names_of(self@);
        proof {
            lemma_names_of(self@);
        }
        let n = self.entry_count();
        let mut i: usize = 0;
        while i < n
            invariant
                self.wf(),
                u.finite(),
                u == names_of(self@),
                n == self@.len(),
                i <= n,
                forall|x: Seq<char>| visited.deep_view().contains(x) ==> u.contains(x),
                path.deep_view() =~= Seq::<Seq<char>>::empty(),
                covers(visited.deep_view(), path.deep_view(), done.deep_view()),
                done.deep_view().no_duplicates(),
                forall|k: int|
                    0 <= k < i ==> visited.deep_view().contains((#[trigger] self@[k]).0),
                cycles.deep_view().len() == 0 ==> topo_order(self@, done.deep_view()),
                forall|j: int|
                    0 <= j < cycles.deep_view().len() ==> is_cycle(
                        self@,
                        #[trigger] cycles.deep_view()[j],
                    ) && cycles.deep_view()[j].no_duplicates(),
            decreases n - i,
        {
            let key = self.entry_key(i).clone();
            proof {
                lemma_key_in_names(self@, key@, i as int);
            }
            if !names_contain(&visited, key.as_str()) {
                self.cycles_dfs(
                    key.as_str(),
                    &mut visited,
                    &mut path,
                    &mut done,
                    &mut cycles,
                    Ghost(u),
                );
            }
            i = i + 1;
        }
        proof {
            if cycles.deep_view().len() == 0 {
                assert forall|x: Seq<char>| has_key(g, x) implies done.deep_view().contains(x) by {
                    let k = choose|k: int| 0 <= k < g.len() && (#[trigger] g[k]).0 == x;
                    assert(visited.deep_view().contains(g[k].0));
                    assert(!path.deep_view().contains(x));
                }
                assert forall|c: Seq<Seq<char>>| !is_cycle(self@, c) by {
                    if is_cycle(g, c) {
                        lemma_topo_no_cycle(g, done.deep_view(), c);
                    }
                }
            }
        }
        cycles
    }

    /// One depth-first visit: `visited` is the global set, `path` the
    /// chain of assets on the active recursion stack, and `done` the
    /// assets whose exploration has finished, in finish order.  An edge
    /// back into `path` closes a cycle, which is recorded as the suffix
    /// of `path` from the target onward.
    #[verifier::loop_isolation(false)]
    fn cycles_dfs(
        &self,
        asset: &str,
        visited: &mut Vec<String>,
        path: &mut Vec<String>,
        done: &mut Vec<String>,
        cycles: &mut Vec<Vec<String>>,
        Ghost(u): Ghost<Set<Seq<char>>>,
    )
        requires
            self.wf(),
            u.finite(),
            u == names_of(self@),
            u.contains(asset@),
            forall|x: Seq<char>| old(visited).deep_view().contains(x) ==> u.contains(x),
            !old(visited).deep_view().contains(asset@),
            is_chain(self@, old(path).deep_view()),
            old(path).deep_view().no_duplicates(),
            old(path).deep_view().len() > 0 ==> is_edge(
                self@,
                old(path).deep_view().last(),
                asset@,
            ),
            covers(old(visited).deep_view(), old(path).deep_view(), old(done).deep_view()),
            old(done).deep_view().no_duplicates(),
            old(cycles).deep_view().len() == 0 ==> topo_order(self@, old(done).deep_view()),
            forall|j: int|
                0 <= j < old(cycles).deep_view().len() ==> is_cycle(
                    self@,
                    #[trigger] old(cycles).deep_view()[j],
                ) && old(cycles).deep_view()[j].no_duplicates(),
        ensures
            forall|x: Seq<char>|
                old(visited).deep_view().contains(x) ==> final(visited).deep_view().contains(x),
            final(visited).deep_view().contains(asset@),
            forall|x: Seq<char>| final(visited).deep_view().contains(x) ==> u.contains(x),
            final(path).deep_view() == old(path).deep_view(),
            forall|x: Seq<char>|
                old(done).deep_view().contains(x) ==> final(done).deep_view().contains(x),
            forall|x: Seq<char>|
                final(done).deep_view().contains(x) ==> old(done).deep_view().contains(x)
                    || !old(visited).deep_view().contains(x),
            final(done).deep_view().contains(asset@),
            final(done).deep_view().no_duplicates(),
            covers(final(visited).deep_view(), old(path).deep_view(), final(done).deep_view()),
            final(cycles).deep_view().len() >= old(cycles).deep_view().len(),
            final(cycles).deep_view().len() == 0 ==> topo_order(self@, final(done).deep_view()),
            forall|j: int|
                0 <= j < final(cycles).deep_view().len() ==> is_cycle(
                    self@,
                    #[trigger] final(cycles).deep_view()[j],
                ) && final(cycles).deep_view()[j].no_duplicates(),
        decreases u.difference(visited.deep_view().to_set()).len(),
    {
        let ghost g = self@;
        let ghost v0 = visited.deep_view();
        let ghost p0 = path.deep_view();
        let ghost d0 = done.deep_view();
        visited.push(String::from_str(asset));
        path.push(String::from_str(asset));
        proof {
            assert(visited.deep_view() =~= v0.push(asset@));
            assert(path.deep_view() =~= p0.push(asset@));
        }
        let ghost v1 = visited.deep_view();
        let ghost p1 = path.deep_view();
        proof {
            assert forall|x: Seq<char>| #[trigger] v0.contains(x) implies v1.contains(x) by {
                let j = choose|j: int| 0 <= j < v0.len() && v0[j] == x;
                assert(v1[j] == x);
            }
            assert forall|x: Seq<char>| #[trigger] v1.contains(x) implies (v0.contains(x) || x
                == asset@) by {
                let j = choose|j: int| 0 <= j < v1.len() && v1[j] == x;
                if j < v0.len() {
                    assert(v0[j] == x);
                }
            }
            assert forall|x: Seq<char>| #[trigger] p1.contains(x) implies (p0.contains(x) || x
                == asset@) by {
                let j = choose|j: int| 0 <= j < p1.len() && p1[j] == x;
                if j < p0.len() {
                    assert(p0[j] == x);
                }
            }
            assert forall|x: Seq<char>| #[trigger] p0.contains(x) implies p1.contains(x) by {
                let j = choose|j: int| 0 <= j < p0.len() && p0[j] == x;
                assert(p1[j] == x);
            }
            assert(v1[v0.len() as int] == asset@);
            assert(v1.contains(asset@));
            assert(p1[p0.len() as int] == asset@);
            assert(p1.contains(asset@));
            assert(covers(v1, p1, d0));
            assert(!d0.contains(asset@));
            assert forall|k: int| 0 <= k < p1.len() - 1 implies is_edge(
                g,
                #[trigger] p1[k],
                p1[k + 1],
            ) by {
                if k < p0.len() - 1 {
                    assert(is_edge(g, p0[k], p0[k + 1]));
                } else {
                    assert(p1[k] == p0.last() && p1[k + 1] == asset@);
                }
            }
            assert(is_chain(g, p1));
            assert(p1.last() == asset@);
            assert(!p0.contains(asset@)) by {
                assert(!v0.contains(asset@));
            }
            assert(p1.no_duplicates()) by {
                assert forall|a: int, b: int| 0 <= a < b < p1.len() implies p1[a] != p1[b] by {
                    if b < p0.len() {
                        assert(p0[a] != p0[b]);
                    } else {
                        assert(p1[b] == asset@);
                        assert(p1[a] == p0[a]);
                        assert(p0.contains(p0[a]));
                    }
                }
            }
        }
        match self.find_key(asset) {
            None => {
                proof {
                    assert forall|x: Seq<char>| !deps_of(g, asset@).contains(x) by {}
                }
            },
            Some(idx) => {
                let deps = clone_names(self.entry_list(idx));
                proof {
                    assert(deps.deep_view() == deps_of(g, asset@));
                }
                let num = deps.len();
                let mut i: usize = 0;
                while i < num
                    invariant
                        forall|x: Seq<char>| v1.contains(x) ==> visited.deep_view().contains(x),
                        forall|x: Seq<char>| visited.deep_view().contains(x) ==> u.contains(x),
                        path.deep_view() == p1,
                        forall|x: Seq<char>| d0.contains(x) ==> done.deep_view().contains(x),
                        forall|x: Seq<char>|
                            done.deep_view().contains(x) ==> d0.contains(x) || !v1.contains(x),
                        done.deep_view().no_duplicates(),
                        covers(visited.deep_view(), p1, done.deep_view()),
                        cycles.deep_view().len() >= old(cycles).deep_view().len(),
                        cycles.deep_view().len() == 0 ==> topo_order(self@, done.deep_view()),
                        cycles.deep_view().len() == 0 ==> forall|t: int|
                            0 <= t < i ==> done.deep_view().contains(
                                #[trigger] deps.deep_view()[t],
                            ),
                        forall|j: int|
                            0 <= j < cycles.deep_view().len() ==> is_cycle(
                                self@,
                                #[trigger] cycles.deep_view()[j],
                            ) && cycles.deep_view()[j].no_duplicates(),
                    decreases num - i,
                {
                    let dep = deps[i].clone();
                    proof {
                        assert(dep@ == deps_of(g, asset@)[i as int]);
                        assert(deps_of(g, asset@).contains(dep@));
                        assert(is_edge(g, asset@, dep@));
                        lemma_target_in_names(g, asset@, dep@);
                    }
                    if !names_contain(visited, dep.as_str()) {
                        proof {
                            let vset = visited.deep_view().to_set();
                            assert(!v0.to_set().contains(asset@));
                            assert(vset.subset_of(u));
                            assert forall|x: Seq<char>|
                                v0.to_set().insert(asset@).contains(x) implies vset.contains(
                                x,
                            ) by {
                                assert(v1.contains(x));
                            }
                            assert(v0.to_set().insert(asset@).subset_of(vset));
                            u.lemma_set_insert_diff_decreases(v0.to_set(), asset@);
                            vstd::set_lib::lemma_len_subset(
                                u.difference(vset),
                                u.difference(v0.to_set().insert(asset@)),
                            );
                        }
                        let ghost db = done.deep_view();
                        let ghost vb = visited.deep_view();
                        self.cycles_dfs(dep.as_str(), visited, path, done, cycles, Ghost(u));
                        proof {
                            assert forall|x: Seq<char>|
                                done.deep_view().contains(x) implies d0.contains(x)
                                || !v1.contains(x) by {
                                if !db.contains(x) {
                                    assert(!vb.contains(x));
                                }
                            }
                        }
                    } else {
                        match position_of(path, dep.as_str()) {
                            Some(pos) => {
                                let cyc = clone_suffix(path, pos);
                                let ghost cb = cycles.deep_view();
                                cycles.push(cyc);
                                proof {
                                    let c = cyc.deep_view();
                                    assert(c == p1.subrange(pos as int, p1.len() as int));
                                    assert(c.len() >= 1);
                                    assert(c[0] == p1[pos as int]);
                                    assert(c[0] == dep@);
                                    assert(c.last() == p1.last());
                                    assert forall|k: int| 0 <= k < c.len() - 1 implies is_edge(
                                        g,
                                        #[trigger] c[k],
                                        c[k + 1],
                                    ) by {
                                        assert(c[k] == p1[pos + k]);
                                        assert(c[k + 1] == p1[pos + k + 1]);
                                        assert(is_edge(g, p1[pos + k], p1[pos + k + 1]));
                                    }
                                    assert(is_edge(g, c.last(), c[0]));
                                    assert(is_cycle(g, c));
                                    assert(c.no_duplicates()) by {
                                        assert forall|a: int, b: int|
                                            0 <= a < b < c.len() implies c[a] != c[b] by {
                                            assert(c[a] == p1[pos + a]);
                                            assert(c[b] == p1[pos + b]);
                                        }
                                    }
                                    assert(cycles.deep_view() =~= cb.push(c));
                                }
                            },
                            None => {
                                proof {
                                    assert(visited.deep_view().contains(dep@));
                                    assert(done.deep_view().contains(dep@));
                                }
                            },
                        }
                    }
                    i = i + 1;
                }
                proof {
                    assert(deps.deep_view().take(num as int) =~= deps.deep_view());
                }
            },
        }
        let _ = path.pop();
        proof {
            assert(path@.len() == p1.len() - 1);
            assert forall|j: int| 0 <= j < path.deep_view().len() implies path.deep_view()[j]
                == p0[j] by {
                assert(path.deep_view()[j] == p1[j]);
            }
            assert(path.deep_view() =~= p0);
        }
        let ghost dpre = done.deep_view();
        done.push(String::from_str(asset));
        proof {
            assert(done.deep_view() =~= dpre.push(asset@));
            let dfin = done.deep_view();
            assert(!dpre.contains(asset@)) by {
                assert(v1.contains(asset@));
            }
            assert forall|x: Seq<char>| #[trigger] dfin.contains(x) implies (dpre.contains(x) || x
                == asset@) by {
                let j = choose|j: int| 0 <= j < dfin.len() && dfin[j] == x;
                if j < dpre.len() {
                    assert(dpre[j] == x);
                }
            }
            assert forall|x: Seq<char>| #[trigger] dpre.contains(x) implies dfin.contains(x) by {
                let j = choose|j: int| 0 <= j < dpre.len() && dpre[j] == x;
                assert(dfin[j] == x);
            }
            assert(dfin[dpre.len() as int] == asset@);
            assert(dfin.contains(asset@));
            assert(covers(visited.deep_view(), p0, dfin)) by {
                assert forall|x: Seq<char>| #[trigger] visited.deep_view().contains(x) implies (
                p0.contains(x) || dfin.contains(x)) by {
                    assert(p1.contains(x) || dpre.contains(x));
                    if p1.contains(x) && x != asset@ {
                        assert(p0.contains(x));
                    }
                }
                assert forall|x: Seq<char>| p0.contains(x) || dfin.contains(x)
                    implies #[trigger] visited.deep_view().contains(x) by {
                    if p0.contains(x) {
                        assert(p1.contains(x));
                    } else if dfin.contains(x) && x != asset@ {
                        assert(dpre.contains(x));
                    }
                    assert(v1.contains(x) || visited.deep_view().contains(x));
                }
            }
            if cycles.deep_view().len() == 0 {
                assert(topo_order(g, dfin)) by {
                    assert forall|i2: int, d: Seq<char>|
                        0 <= i2 < dfin.len() && #[trigger] deps_of(g, dfin[i2]).contains(
                            d,
                        ) implies exists|j: int| 0 <= j < i2 && dfin[j] == d by {
                        if i2 < dpre.len() {
                            assert(dfin[i2] == dpre[i2]);
                            assert(deps_of(g, dpre[i2]).contains(d));
                            let j = choose|j: int| 0 <= j < i2 && dpre[j] == d;
                            assert(dfin[j] == d);
                        } else {
                            assert(dfin[i2] == asset@);
                            assert(dpre.contains(d));
                            let j = choose|j: int| 0 <= j < dpre.len() && dpre[j] == d;
                            assert(dfin[j] == d);
                        }
                    }
                }
            }
        }
    }
}

} // verus!
