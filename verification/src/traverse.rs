//! Transitive closure: all assets reachable from a root, each reported once.

use vstd::prelude::*;
use vstd::string::StringExecFns;

use crate::model::{deps_of, has_key, is_edge, GraphModel};
use crate::reach::{
    lemma_closed_set_covers, lemma_names_of, lemma_reaches_extend, lemma_reaches_step,
    lemma_target_in_names, names_of, reaches,
};
use crate::store::{clone_names, names_contain, DependencyMap};

verus! {

broadcast use
    vstd::set::group_set_axioms,
    vstd::set_lib::group_set_lib_default,
    vstd::seq_lib::group_seq_properties;

/// How many names the pending dependency lists still hold.
pub open spec fn agenda_items(agenda: Seq<Seq<Seq<char>>>) -> int
    decreases agenda.len(),
{
    if agenda.len() == 0 {
        0
    } else {
        agenda[0].len() + agenda_items(agenda.drop_first())
    }
}

proof fn lemma_agenda_items_nonneg(agenda: Seq<Seq<Seq<char>>>)
    ensures
        agenda_items(agenda) >= 0,
    decreases agenda.len(),
{
    if agenda.len() > 0 {
        lemma_agenda_items_nonneg(agenda.drop_first());
    }
}

/// The depth-first walk, one pending name at a time: the front list's
/// head is appended to the discovery order unless already discovered,
/// and its own dependency list is pushed in front unless the name was
/// already expanded.  Returns the final expanded set and the discovery
/// order.
pub open spec fn dfs_walk(
    g: GraphModel,
    agenda: Seq<Seq<Seq<char>>>,
    visited: Set<Seq<char>>,
    acc: Seq<Seq<char>>,
) -> (Set<Seq<char>>, Seq<Seq<char>>)
    decreases names_of(g).difference(visited).len(), agenda_items(agenda), agenda.len(),
    via dfs_walk_dec
{
    if agenda.len() == 0 {
        (visited, acc)
    } else if agenda[0].len() == 0 {
        dfs_walk(g, agenda.drop_first(), visited, acc)
    } else {
        let d = agenda[0][0];
        let rest = agenda.update(0, agenda[0].drop_first());
        let acc2 = if acc.contains(d) {
            acc
        } else {
            acc.push(d)
        };
        if visited.contains(d) {
            dfs_walk(g, rest, visited, acc2)
        } else {
            dfs_walk(g, seq![deps_of(g, d)] + rest, visited.insert(d), acc2)
        }
    }
}

#[via_fn]
proof fn dfs_walk_dec(
    g: GraphModel,
    agenda: Seq<Seq<Seq<char>>>,
    visited: Set<Seq<char>>,
    acc: Seq<Seq<char>>,
) {
    lemma_names_of(g);
    if agenda.len() > 0 {
        lemma_agenda_items_nonneg(agenda.drop_first());
        if agenda[0].len() > 0 {
            let d = agenda[0][0];
            let rest = agenda.update(0, agenda[0].drop_first());
            assert(rest.drop_first() =~= agenda.drop_first());
            assert(agenda_items(rest) == agenda_items(agenda) - 1);
            lemma_agenda_items_nonneg(rest);
            if !visited.contains(d) {
                if names_of(g).contains(d) {
                    names_of(g).lemma_set_insert_diff_decreases(visited, d);
                    vstd::set_lib::lemma_len_subset(
                        names_of(g).difference(visited.insert(d)),
                        names_of(g).difference(visited),
                    );
                } else {
                    assert(names_of(g).difference(visited.insert(d)) =~= names_of(g).difference(
                        visited,
                    ));
                    assert(!has_key(g, d)) by {
                        if has_key(g, d) {
                            let i = choose|i: int| 0 <= i < g.len() && (#[trigger] g[i]).0 == d;
                            assert(names_of(g).contains(d));
                        }
                    }
                    assert(deps_of(g, d).len() == 0);
                    let expanded = seq![deps_of(g, d)] + rest;
                    assert(expanded.drop_first() =~= rest);
                    assert(agenda_items(expanded) == agenda_items(rest));
                }
            }
        }
    }
}

/// The discovery order owed for a root: the walk started on the root's
/// direct dependency list, with the root already expanded.
pub open spec fn closure_from(g: GraphModel, root: Seq<char>) -> Seq<Seq<char>> {
    dfs_walk(g, seq![deps_of(g, root)], Set::<Seq<char>>::empty().insert(root), Seq::empty()).1
}

/// One step of the walk simulation: after the head of the front list has
/// been discovered and expanded, the walk continues from the next index.
proof fn lemma_walk_step(
    g: GraphModel,
    dv: Seq<Seq<char>>,
    i: int,
    base_v: Set<Seq<char>>,
    base_r: Seq<Seq<char>>,
    va: Seq<Seq<char>>,
    rb: Seq<Seq<char>>,
    rmid: Seq<Seq<char>>,
    vnew: Seq<Seq<char>>,
    rnew: Seq<Seq<char>>,
)
    requires
        0 <= i < dv.len(),
        rmid == (if rb.contains(dv[i]) {
            rb
        } else {
            rb.push(dv[i])
        }),
        va.contains(dv[i]) ==> vnew == va && rnew == rmid,
        !va.contains(dv[i]) ==> forall|rest: Seq<Seq<Seq<char>>>|
            #[trigger] dfs_walk(
                g,
                seq![deps_of(g, dv[i])] + rest,
                va.to_set().insert(dv[i]),
                rmid,
            ) == dfs_walk(g, rest, vnew.to_set(), rnew),
        forall|rest: Seq<Seq<Seq<char>>>|
            #[trigger] dfs_walk(g, seq![dv] + rest, base_v, base_r) == dfs_walk(
                g,
                seq![dv.skip(i)] + rest,
                va.to_set(),
                rb,
            ),
    ensures
        forall|rest: Seq<Seq<Seq<char>>>|
            #[trigger] dfs_walk(g, seq![dv] + rest, base_v, base_r) == dfs_walk(
                g,
                seq![dv.skip(i + 1)] + rest,
                vnew.to_set(),
                rnew,
            ),
{
    let d = dv[i];
    assert forall|rest: Seq<Seq<Seq<char>>>|
        #[trigger] dfs_walk(g, seq![dv] + rest, base_v, base_r) == dfs_walk(
            g,
            seq![dv.skip(i + 1)] + rest,
            vnew.to_set(),
            rnew,
        ) by {
        let agenda = seq![dv.skip(i)] + rest;
        assert(dfs_walk(g, seq![dv] + rest, base_v, base_r) == dfs_walk(
            g,
            agenda,
            va.to_set(),
            rb,
        ));
        assert(agenda[0] == dv.skip(i));
        assert(agenda[0][0] == d);
        assert(agenda[0].len() > 0);
        let rest0 = agenda.update(0, agenda[0].drop_first());
        assert(dv.skip(i).drop_first() =~= dv.skip(i + 1));
        assert(rest0 =~= seq![dv.skip(i + 1)] + rest);
        if va.to_set().contains(d) {
            assert(va.contains(d));
            assert(dfs_walk(g, agenda, va.to_set(), rb) == dfs_walk(g, rest0, va.to_set(), rmid));
        } else {
            assert(!va.contains(d));
            assert(dfs_walk(g, agenda, va.to_set(), rb) == dfs_walk(
                g,
                seq![deps_of(g, d)] + rest0,
                va.to_set().insert(d),
                rmid,
            ));
            assert(seq![deps_of(g, d)] + rest0 =~= seq![deps_of(g, d)] + (seq![dv.skip(i + 1)]
                + rest));
            assert(dfs_walk(
                g,
                seq![deps_of(g, d)] + (seq![dv.skip(i + 1)] + rest),
                va.to_set().insert(d),
                rmid,
            ) == dfs_walk(g, seq![dv.skip(i + 1)] + rest, vnew.to_set(), rnew));
        }
    }
}

impl DependencyMap {
    /// Returns every asset reachable from `asset` through one or more
    /// dependency edges, deduplicated, in first-discovery depth-first
    /// order.  Cycles are safe: each asset is expanded at most once.
    pub fn get_all_dependencies(&self, asset: &str) -> (r: Vec<String>)
        requires
            self.wf(),
        ensures
            r.deep_view() == closure_from(self@, asset@),
            r.deep_view().no_duplicates(),
            forall|x: Seq<char>| #[trigger] r.deep_view().contains(x) <==> reaches(
                self@,
                asset@,
                x,
            ),
    {
        let mut visited: Vec<String> = Vec::new();
        let mut result: Vec<String> = Vec::new();
        let ghost u = names_of(self@).insert(asset@);
        proof {
            lemma_names_of(self@);
        }
        let ghost ev: Seq<Seq<char>> = Seq::empty();
        proof {
            assert(visited.deep_view() =~= ev);
            assert(result.deep_view() =~= ev);
            assert(!visited.deep_view().contains(asset@));
        }
        self.collect_rec(asset, &mut visited, &mut result, Ghost(asset@), Ghost(u));
        proof {
            let g = self@;
            assert(ev.to_set() =~= Set::<Seq<char>>::empty());
            let none: Seq<Seq<Seq<char>>> = Seq::empty();
            assert(dfs_walk(
                self@,
                seq![deps_of(self@, asset@)] + none,
                ev.to_set().insert(asset@),
                ev,
            ) == dfs_walk(self@, none, visited.deep_view().to_set(), result.deep_view()));
            assert(seq![deps_of(g, asset@)] + none =~= seq![deps_of(g, asset@)]);
            assert(dfs_walk(g, none, visited.deep_view().to_set(), result.deep_view()) == (
            visited.deep_view().to_set(),
            result.deep_view(),
            ));
            assert(closure_from(g, asset@) == result.deep_view());
            let rset = result.deep_view().to_set();
            assert forall|x: Seq<char>| reaches(g, asset@, x) implies #[trigger] result
                .deep_view()
                .contains(x) by {
                let p = choose|p: Seq<Seq<char>>|
                    #![trigger crate::reach::is_chain(g, p)]
                    p.len() >= 2 && p[0] == asset@ && p.last() == x && crate::reach::is_chain(g, p);
                lemma_closed_set_covers(g, asset@, rset, p);
            }
        }
        result
    }

    /// Depth-first expansion with one global visited set: a revisit is a
    /// no-op, so every asset is expanded at most once.
    #[verifier::loop_isolation(false)]
    #[verifier::rlimit(60)]
    fn collect_rec(
        &self,
        asset: &str,
        visited: &mut Vec<String>,
        result: &mut Vec<String>,
        Ghost(root): Ghost<Seq<char>>,
        Ghost(u): Ghost<Set<Seq<char>>>,
    )
        requires
            self.wf(),
            u.finite(),
            u == names_of(self@).insert(root),
            forall|x: Seq<char>| old(visited).deep_view().contains(x) ==> u.contains(x),
            u.contains(asset@),
            asset@ == root || reaches(self@, root, asset@),
            forall|x: Seq<char>| old(result).deep_view().contains(x) ==> reaches(self@, root, x),
            old(result).deep_view().no_duplicates(),
            forall|x: Seq<char>|
                old(result).deep_view().contains(x) ==> old(visited).deep_view().contains(x) || x
                    == asset@,
        ensures
            forall|x: Seq<char>|
                old(visited).deep_view().contains(x) ==> final(visited).deep_view().contains(x),
            final(visited).deep_view().contains(asset@),
            forall|x: Seq<char>| final(visited).deep_view().contains(x) ==> u.contains(x),
            forall|x: Seq<char>|
                old(result).deep_view().contains(x) ==> final(result).deep_view().contains(x),
            final(result).deep_view().no_duplicates(),
            forall|x: Seq<char>| final(result).deep_view().contains(x) ==> reaches(self@, root, x),
            forall|x: Seq<char>|
                final(result).deep_view().contains(x) ==> final(visited).deep_view().contains(x),
            forall|v: Seq<char>, x: Seq<char>|
                final(visited).deep_view().contains(v) && !old(visited).deep_view().contains(v)
                    && deps_of(self@, v).contains(x) ==> final(result).deep_view().contains(x),
            old(visited).deep_view().contains(asset@) ==> final(visited)@ == old(visited)@
                && final(result)@ == old(result)@,
            !old(visited).deep_view().contains(asset@) ==> forall|rest: Seq<Seq<Seq<char>>>|
                #[trigger] dfs_walk(
                    self@,
                    seq![deps_of(self@, asset@)] + rest,
                    old(visited).deep_view().to_set().insert(asset@),
                    old(result).deep_view(),
                ) == dfs_walk(
                    self@,
                    rest,
                    final(visited).deep_view().to_set(),
                    final(result).deep_view(),
                ),
        decreases u.difference(visited.deep_view().to_set()).len(),
    {
        let ghost g = self@;
        let ghost v0 = visited.deep_view();
        let ghost r0 = result.deep_view();
        if names_contain(visited, asset) {
            return ;
        }
        visited.push(String::from_str(asset));
        proof {
            assert(visited.deep_view() =~= v0.push(asset@));
        }
        let ghost v1 = visited.deep_view();
        proof {
            assert forall|x: Seq<char>| #[trigger] v0.contains(x) implies v1.contains(x) by {
                let j = choose|j: int| 0 <= j < v0.len() && v0[j] == x;
                assert(v1[j] == x);
            }
            assert forall|x: Seq<char>| #[trigger] v1.contains(x) implies (v0.contains(x) || x
                == asset@) by {
                let j = choose|j: int| 0 <= j < v1.len() && v1[j] == x;
                if j < v0.len() {
                    assert(v0[j] == x);
                }
            }
            assert(v1[v0.len() as int] == asset@);
            assert(v1.contains(asset@));
            assert(v1.to_set() =~= v0.to_set().insert(asset@));
        }
        match self.find_key(asset) {
            None => {
                proof {
                    assert forall|x: Seq<char>| !deps_of(g, asset@).contains(x) by {}
                    assert forall|rest: Seq<Seq<Seq<char>>>|
                        #[trigger] dfs_walk(
                            g,
                            seq![deps_of(g, asset@)] + rest,
                            v0.to_set().insert(asset@),
                            r0,
                        ) == dfs_walk(g, rest, visited.deep_view().to_set(), r0) by {
                        let agenda = seq![deps_of(g, asset@)] + rest;
                        assert(agenda[0] =~= Seq::<Seq<char>>::empty());
                        assert(agenda.drop_first() =~= rest);
                        assert(visited.deep_view().to_set() == v1.to_set());
                    }
                }
            },
            Some(idx) => {
                let deps = clone_names(self.entry_list(idx));
                proof {
                    assert(deps.deep_view() == deps_of(g, asset@));
                }
                let n = deps.len();
                let mut i: usize = 0;
                proof {
                    assert(deps.deep_view().skip(0) =~= deps.deep_view());
                    assert(visited.deep_view().to_set() == v0.to_set().insert(asset@));
                }
                while i < n
                    invariant
                        i <= n,
                        n == deps.deep_view().len(),
                        visited.deep_view().contains(asset@),
                        forall|x: Seq<char>| v1.contains(x) ==> visited.deep_view().contains(x),
                        forall|x: Seq<char>| visited.deep_view().contains(x) ==> u.contains(x),
                        forall|x: Seq<char>| r0.contains(x) ==> result.deep_view().contains(x),
                        result.deep_view().no_duplicates(),
                        forall|x: Seq<char>|
                            result.deep_view().contains(x) ==> reaches(self@, root, x),
                        forall|x: Seq<char>|
                            result.deep_view().contains(x) ==> visited.deep_view().contains(x),
                        forall|j: int|
                            0 <= j < i ==> result.deep_view().contains(
                                #[trigger] deps.deep_view()[j],
                            ),
                        forall|v: Seq<char>, x: Seq<char>|
                            visited.deep_view().contains(v) && !v0.contains(v) && v != asset@
                                && deps_of(self@, v).contains(x) ==> result.deep_view().contains(
                                x,
                            ),
                        forall|rest: Seq<Seq<Seq<char>>>|
                            #[trigger] dfs_walk(
                                self@,
                                seq![deps.deep_view()] + rest,
                                v0.to_set().insert(asset@),
                                r0,
                            ) == dfs_walk(
                                self@,
                                seq![deps.deep_view().skip(i as int)] + rest,
                                visited.deep_view().to_set(),
                                result.deep_view(),
                            ),
                    decreases n - i,
                {
                    let ghost va = visited.deep_view();
                    let dep = deps[i].clone();
                    proof {
                        assert(dep@ == deps_of(g, asset@)[i as int]);
                        assert(deps_of(g, asset@).contains(dep@));
                        assert(is_edge(g, asset@, dep@));
                        lemma_target_in_names(g, asset@, dep@);
                        if asset@ == root {
                            lemma_reaches_step(g, root, dep@);
                        } else {
                            lemma_reaches_extend(g, root, asset@, dep@);
                        }
                    }
                    let ghost rb = result.deep_view();
                    if !names_contain(result, dep.as_str()) {
                        result.push(dep.clone());
                        proof {
                            assert(result.deep_view() =~= rb.push(dep@));
                        }
                    }
                    proof {
                        let vset = visited.deep_view().to_set();
                        assert(!v0.contains(asset@));
                        assert(!v0.to_set().contains(asset@));
                        assert(vset.subset_of(u));
                        assert forall|x: Seq<char>|
                            v0.to_set().insert(asset@).contains(x) implies vset.contains(x) by {
                            assert(v1.contains(x));
                            assert(visited.deep_view().contains(x));
                        }
                        assert(v0.to_set().insert(asset@).subset_of(vset));
                        assert(u.difference(vset).subset_of(
                            u.difference(v0.to_set().insert(asset@)),
                        ));
                        u.lemma_set_insert_diff_decreases(v0.to_set(), asset@);
                        vstd::set_lib::lemma_len_subset(
                            u.difference(vset),
                            u.difference(v0.to_set().insert(asset@)),
                        );
                    }
                    let ghost rmid = result.deep_view();
                    self.collect_rec(dep.as_str(), visited, result, Ghost(root), Ghost(u));
                    proof {
                        let dv = deps.deep_view();
                        assert(rmid == (if rb.contains(dv[i as int]) {
                            rb
                        } else {
                            rb.push(dv[i as int])
                        }));
                        lemma_walk_step(
                            g,
                            dv,
                            i as int,
                            v0.to_set().insert(asset@),
                            r0,
                            va,
                            rb,
                            rmid,
                            visited.deep_view(),
                            result.deep_view(),
                        );
                    }
                    i = i + 1;
                }
                proof {
                    let dv = deps.deep_view();
                    assert forall|rest: Seq<Seq<Seq<char>>>|
                        #[trigger] dfs_walk(
                            self@,
                            seq![deps_of(self@, asset@)] + rest,
                            v0.to_set().insert(asset@),
                            r0,
                        ) == dfs_walk(
                        self@,
                        rest,
                        visited.deep_view().to_set(),
                        result.deep_view(),
                    ) by {
                        assert(dv == deps_of(g, asset@));
                        let agenda = seq![dv.skip(n as int)] + rest;
                        assert(dfs_walk(
                            self@,
                            seq![deps.deep_view()] + rest,
                            v0.to_set().insert(asset@),
                            r0,
                        ) == dfs_walk(
                            self@,
                            seq![deps.deep_view().skip(n as int)] + rest,
                            visited.deep_view().to_set(),
                            result.deep_view(),
                        ));
                        assert(dfs_walk(g, seq![dv] + rest, v0.to_set().insert(asset@), r0)
                            == dfs_walk(g, agenda, visited.deep_view().to_set(), result.deep_view()));
                        assert(agenda[0] == dv.skip(n as int));
                        assert(agenda[0].len() == 0);
                        assert(agenda.drop_first() =~= rest);
                    }
                }
            },
        }
    }
}

} // verus!
