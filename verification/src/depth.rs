//! Dependency depth: a leaf counts 1, an internal node one more than its
//! deepest child, and a revisit along the current path counts 0 so that
//! cycles neither loop nor add depth.

use vstd::prelude::*;
use vstd::set_lib::lemma_len_subset;
use vstd::string::StringExecFns;

use crate::model::{deps_of, GraphModel};
use crate::reach::{lemma_names_of, lemma_target_in_names, names_of};
use crate::store::{clone_names, names_contain, DependencyMap};

verus! {

broadcast use
    vstd::set::group_set_axioms,
    vstd::set_lib::group_set_lib_default,
    vstd::seq_lib::group_seq_properties;

/// The larger of two naturals.
pub open spec fn nat_max(a: nat, b: nat) -> nat {
    if a >= b {
        a
    } else {
        b
    }
}

/// A depth clamped into the range of the counter that reports it.
pub open spec fn capped(n: nat) -> nat {
    if n > u32::MAX as nat {
        u32::MAX as nat
    } else {
        n
    }
}

/// Termination measure for `depth_spec`.
pub open spec fn depth_measure(g: GraphModel, asset: Seq<char>, path: Set<Seq<char>>) -> nat {
    names_of(g).insert(asset).difference(path).len()
}

/// Termination measure for `depth_children_max`.
pub open spec fn children_measure(g: GraphModel, names: Seq<Seq<char>>, path: Set<Seq<char>>) -> nat {
    names_of(g).union(names.to_set()).difference(path).len()
}

/// The depth charged to `asset`: 0 for a revisit along the current path,
/// otherwise one more than the deepest direct dependency.
pub open spec fn depth_spec(g: GraphModel, asset: Seq<char>, path: Set<Seq<char>>) -> nat
    decreases depth_measure(g, asset, path), 0int, 0int,
    via depth_spec_dec
{
    if path.contains(asset) {
        0
    } else {
        1 + depth_children_max(g, deps_of(g, asset), path.insert(asset))
    }
}

/// The deepest depth among a list of dependencies, 0 for an empty list.
pub open spec fn depth_children_max(
    g: GraphModel,
    names: Seq<Seq<char>>,
    path: Set<Seq<char>>,
) -> nat
    decreases children_measure(g, names, path), 1int, names.len(),
    via depth_children_max_dec
{
    if names.len() == 0 {
        0
    } else {
        nat_max(
            depth_spec(g, names[0], path),
            depth_children_max(g, names.drop_first(), path),
        )
    }
}

#[via_fn]
proof fn depth_spec_dec(g: GraphModel, asset: Seq<char>, path: Set<Seq<char>>) {
    lemma_names_of(g);
    if !path.contains(asset) {
        let names = names_of(g);
        let deps = deps_of(g, asset);
        let path2 = path.insert(asset);
        assert forall|x: Seq<char>| deps.to_set().contains(x) implies names.contains(x) by {
            lemma_target_in_names(g, asset, x);
        }
        assert(names.union(deps.to_set()) =~= names);
        let small = names.difference(path2);
        let big = names.insert(asset).difference(path);
        assert(small.subset_of(big));
        assert(!small.contains(asset));
        assert(big.contains(asset));
        small.lemma_subset_not_in_lt(big, asset);
    }
}

#[via_fn]
proof fn depth_children_max_dec(g: GraphModel, names: Seq<Seq<char>>, path: Set<Seq<char>>) {
    lemma_names_of(g);
    if names.len() > 0 {
        let base = names_of(g);
        let whole = base.union(names.to_set()).difference(path);
        let head = base.insert(names[0]).difference(path);
        assert(names.contains(names[0]));
        assert(head.subset_of(whole));
        lemma_len_subset(head, whole);
        let rest = base.union(names.drop_first().to_set()).difference(path);
        assert forall|x: Seq<char>| names.drop_first().to_set().contains(x) implies base.union(
            names.to_set(),
        ).contains(x) by {
            let j = choose|j: int|
                0 <= j < names.drop_first().len() && names.drop_first()[j] == x;
            assert(names[j + 1] == x);
        }
        assert(rest.subset_of(whole));
        lemma_len_subset(rest, whole);
    }
}

/// `depth_children_max` over a list extended on the right is the maximum
/// of the old value and the new element's depth.
pub proof fn lemma_children_max_push(
    g: GraphModel,
    s: Seq<Seq<char>>,
    x: Seq<char>,
    path: Set<Seq<char>>,
)
    ensures
        depth_children_max(g, s.push(x), path) == nat_max(
            depth_children_max(g, s, path),
            depth_spec(g, x, path),
        ),
    decreases s.len(),
{
    if s.len() == 0 {
        assert(s.push(x)[0] == x);
        assert(s.push(x).drop_first() =~= Seq::<Seq<char>>::empty());
    } else {
        assert(s.push(x).drop_first() =~= s.drop_first().push(x));
        lemma_children_max_push(g, s.drop_first(), x, path);
        assert(s.push(x)[0] == s[0]);
    }
}

impl DependencyMap {
    /// The maximum dependency depth reachable from `asset`, clamped to the
    /// counter's range.  A revisit along the current path counts 0 rather
    /// than propagating the cycle, so cyclic graphs stay bounded without
    /// inflating the depth.
    pub fn calculate_max_depth(&self, asset: &str) -> (d: u32)
        requires
            self.wf(),
        ensures
            d as nat == capped(depth_spec(self@, asset@, Set::<Seq<char>>::empty())),
    {
        let mut visited: Vec<String> = Vec::new();
        proof {
            assert(visited.deep_view().to_set() =~= Set::<Seq<char>>::empty());
        }
        self.depth_rec(asset, &mut visited)
    }

    /// Recursive depth computation; `visited` holds the current path and is
    /// restored before returning.
    #[verifier::loop_isolation(false)]
    fn depth_rec(&self, asset: &str, visited: &mut Vec<String>) -> (d: u32)
        requires
            self.wf(),
        ensures
            final(visited).deep_view() == old(visited).deep_view(),
            d as nat == capped(depth_spec(self@, asset@, old(visited).deep_view().to_set())),
        decreases depth_measure(self@, asset@, visited.deep_view().to_set()),
    {
        let ghost g = self@;
        let ghost v0 = visited.deep_view();
        proof {
            lemma_names_of(g);
        }
        if names_contain(visited, asset) {
            return 0;
        }
        visited.push(String::from_str(asset));
        proof {
            assert(visited.deep_view() =~= v0.push(asset@));
        }
        let ghost v1 = visited.deep_view();
        let ghost pset = v0.to_set().insert(asset@);
        proof {
            assert forall|x: Seq<char>| #[trigger] v1.contains(x) implies pset.contains(x) by {
                let j = choose|j: int| 0 <= j < v1.len() && v1[j] == x;
                if j < v0.len() {
                    assert(v0[j] == x);
                }
            }
            assert forall|x: Seq<char>| #[trigger] pset.contains(x) implies v1.contains(x) by {
                if x == asset@ {
                    assert(v1[v0.len() as int] == asset@);
                } else {
                    let j = choose|j: int| 0 <= j < v0.len() && v0[j] == x;
                    assert(v1[j] == x);
                }
            }
            assert(v1.to_set() =~= pset);
        }
        let mut best: u32 = 0;
        match self.find_key(asset) {
            None => {
                proof {
                    assert(deps_of(g, asset@) =~= Seq::<Seq<char>>::empty());
                    assert(depth_children_max(g, deps_of(g, asset@), pset) == 0);
                }
            },
            Some(idx) => {
                let deps = clone_names(self.entry_list(idx));
                proof {
                    assert(deps.deep_view() == deps_of(g, asset@));
                }
                let num = deps.len();
                let mut i: usize = 0;
                proof {
                    assert(deps.deep_view().take(0) =~= Seq::<Seq<char>>::empty());
                }
                while i < num
                    invariant
                        i <= num,
                        visited.deep_view() == v1,
                        best as nat == capped(
                            depth_children_max(g, deps.deep_view().take(i as int), pset),
                        ),
                    decreases num - i,
                {
                    let ghost dv = deps.deep_view();
                    proof {
                        assert(dv[i as int] == deps_of(g, asset@)[i as int]);
                        assert(deps_of(g, asset@).contains(dv[i as int]));
                        lemma_target_in_names(g, asset@, dv[i as int]);
                        let small = names_of(g).insert(dv[i as int]).difference(v1.to_set());
                        let big = names_of(g).insert(asset@).difference(v0.to_set());
                        assert(small.subset_of(big));
                        assert(!small.contains(asset@));
                        assert(big.contains(asset@));
                        small.lemma_subset_not_in_lt(big, asset@);
                    }
                    let child = self.depth_rec(deps[i].as_str(), visited);
                    if child > best {
                        best = child;
                    }
                    proof {
                        assert(dv.take(i as int + 1) =~= dv.take(i as int).push(dv[i as int]));
                        lemma_children_max_push(g, dv.take(i as int), dv[i as int], pset);
                    }
                    i = i + 1;
                }
                proof {
                    assert(deps.deep_view().take(num as int) =~= deps_of(g, asset@));
                }
            },
        }
        let _ = visited.pop();
        proof {
            assert forall|j: int| 0 <= j < visited.deep_view().len() implies visited.deep_view()[j]
                == v0[j] by {
                assert(visited.deep_view()[j] == v1[j]);
            }
            assert(visited.deep_view() =~= v0);
            assert(!v0.to_set().contains(asset@));
        }
        if best == u32::MAX {
            best
        } else {
            best + 1
        }
    }
}

} // verus!
