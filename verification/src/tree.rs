//! Bounded-depth dependency trees: a path-sensitive unrolling of the graph
//! rooted at one asset.

use vstd::prelude::*;
use vstd::string::StringExecFns;

use crate::model::{deps_of, GraphModel};
use crate::store::{clone_names, names_contain, DependencyMap};

verus! {

broadcast use
    vstd::set::group_set_axioms,
    vstd::seq_lib::group_seq_properties,
    vstd::std_specs::vec::group_vec_axioms,
    vstd::seq::axiom_seq_index_decreases;

/// A node of a dependency tree: the asset, its distance from the query
/// root, its children, and whether it closed a cycle on the current path.
#[derive(Debug)]
pub struct DependencyTree {
    pub asset: String,
    pub depth: u32,
    pub dependencies: Vec<DependencyTree>,
    pub is_circular: bool,
}

/// The mathematical shape of a dependency tree node.
pub ghost struct TreeModel {
    pub asset: Seq<char>,
    pub depth: nat,
    pub dependencies: Seq<TreeModel>,
    pub is_circular: bool,
}

/// The mathematical shape of an executable tree node.
pub open spec fn tree_model(t: DependencyTree) -> TreeModel
    decreases t,
{
    TreeModel {
        asset: t.asset@,
        depth: t.depth as nat,
        dependencies: forest_model(t.dependencies@),
        is_circular: t.is_circular,
    }
}

/// The mathematical shapes of a list of executable tree nodes.
pub open spec fn forest_model(s: Seq<DependencyTree>) -> Seq<TreeModel>
    decreases s,
{
    if s.len() == 0 {
        Seq::empty()
    } else {
        seq![tree_model(s[0])] + forest_model(s.drop_first())
    }
}

/// `forest_model` is the pointwise image of `tree_model`.
pub proof fn lemma_forest_model(s: Seq<DependencyTree>)
    ensures
        forest_model(s).len() == s.len(),
        forall|j: int| 0 <= j < s.len() ==> forest_model(s)[j] == tree_model(#[trigger] s[j]),
    decreases s.len(),
{
    if s.len() > 0 {
        lemma_forest_model(s.drop_first());
        assert forall|j: int| 0 <= j < s.len() implies forest_model(s)[j] == tree_model(
            #[trigger] s[j],
        ) by {
            if j > 0 {
                assert(s.drop_first()[j - 1] == s[j]);
            }
        }
    }
}

/// The tree the engine owes for `asset` at `depth`: a node that already
/// sits on the current path is a leaf flagged circular; past the depth
/// bound it is a plain leaf; otherwise its children unroll every direct
/// dependency with the node itself added to the path.
pub open spec fn tree_spec(
    g: GraphModel,
    asset: Seq<char>,
    depth: nat,
    max_depth: nat,
    path: Set<Seq<char>>,
) -> TreeModel
    decreases max_depth - depth, 0int, 0int,
{
    if path.contains(asset) {
        TreeModel { asset, depth, dependencies: Seq::empty(), is_circular: true }
    } else if depth >= max_depth {
        TreeModel { asset, depth, dependencies: Seq::empty(), is_circular: false }
    } else {
        TreeModel {
            asset,
            depth,
            dependencies: children_spec(
                g,
                deps_of(g, asset),
                (depth + 1) as nat,
                max_depth,
                path.insert(asset),
            ),
            is_circular: false,
        }
    }
}

/// The trees of one dependency list, all sharing the same path.
pub open spec fn children_spec(
    g: GraphModel,
    names: Seq<Seq<char>>,
    depth: nat,
    max_depth: nat,
    path: Set<Seq<char>>,
) -> Seq<TreeModel>
    decreases max_depth - depth, 1int, names.len(),
{
    if names.len() == 0 || depth > max_depth {
        Seq::empty()
    } else {
        seq![tree_spec(g, names[0], depth, max_depth, path)] + children_spec(
            g,
            names.drop_first(),
            depth,
            max_depth,
            path,
        )
    }
}

/// `children_spec` is the pointwise image of `tree_spec` over the list.
pub proof fn lemma_children_spec(
    g: GraphModel,
    names: Seq<Seq<char>>,
    depth: nat,
    max_depth: nat,
    path: Set<Seq<char>>,
)
    requires
        depth <= max_depth,
    ensures
        children_spec(g, names, depth, max_depth, path).len() == names.len(),
        forall|j: int|
            0 <= j < names.len() ==> children_spec(g, names, depth, max_depth, path)[j]
                == tree_spec(g, #[trigger] names[j], depth, max_depth, path),
    decreases names.len(),
{
    if names.len() > 0 {
        lemma_children_spec(g, names.drop_first(), depth, max_depth, path);
        assert forall|j: int|
            0 <= j < names.len() implies children_spec(g, names, depth, max_depth, path)[j]
            == tree_spec(g, #[trigger] names[j], depth, max_depth, path) by {
            if j > 0 {
                assert(names.drop_first()[j - 1] == names[j]);
            }
        }
    }
}

impl DependencyMap {
    /// Builds the dependency tree rooted at `asset`, unrolled to at most
    /// `max_depth` levels.  The visited set is path-local, so an asset
    /// reachable along several paths appears once per path; a node already
    /// on the current path becomes a leaf flagged circular, and the
    /// circularity test comes before the depth test.
    pub fn build_dependency_tree(&self, asset: &str, max_depth: u32) -> (t: DependencyTree)
        requires
            self.wf(),
        ensures
            tree_model(t) == tree_spec(
                self@,
                asset@,
                0,
                max_depth as nat,
                Set::<Seq<char>>::empty(),
            ),
    {
        let mut visited: Vec<String> = Vec::new();
        proof {
            assert(visited.deep_view().to_set() =~= Set::<Seq<char>>::empty());
        }
        self.build_tree_rec(asset, 0, max_depth, &mut visited)
    }

    /// Recursive tree construction; `visited` holds the assets on the
    /// current path and is restored before returning.
    #[verifier::loop_isolation(false)]
    fn build_tree_rec(
        &self,
        asset: &str,
        depth: u32,
        max_depth: u32,
        visited: &mut Vec<String>,
    ) -> (t: DependencyTree)
        requires
            self.wf(),
            depth <= max_depth,
        ensures
            final(visited).deep_view() == old(visited).deep_view(),
            tree_model(t) == tree_spec(
                self@,
                asset@,
                depth as nat,
                max_depth as nat,
                old(visited).deep_view().to_set(),
            ),
        decreases max_depth - depth,
    {
        let ghost g = self@;
        let ghost v0 = visited.deep_view();
        let circ = names_contain(visited, asset);
        if circ || depth >= max_depth {
            let t = DependencyTree {
                asset: String::from_str(asset),
                depth,
                dependencies: Vec::new(),
                is_circular: circ,
            };
            proof {
                assert(tree_model(t).dependencies =~= Seq::<TreeModel>::empty());
            }
            return t;
        }
        visited.push(String::from_str(asset));
        proof {
            assert(visited.deep_view() =~= v0.push(asset@));
        }
        let ghost v1 = visited.deep_view();
        let ghost pset = v0.to_set().insert(asset@);
        proof {
            assert forall|x: Seq<char>| #[trigger] v1.contains(x) implies pset.contains(x) by {
                let j = choose|j: int| 0 <= j < v1.len() && v1[j] == x;
                if j < v0.len() {
                    assert(v0[j] == x);
                }
            }
            assert forall|x: Seq<char>| #[trigger] pset.contains(x) implies v1.contains(x) by {
                if x == asset@ {
                    assert(v1[v0.len() as int] == asset@);
                } else {
                    let j = choose|j: int| 0 <= j < v0.len() && v0[j] == x;
                    assert(v1[j] == x);
                }
            }
            assert(v1.to_set() =~= pset);
        }
        let ghost want_children = children_spec(
            g,
            deps_of(g, asset@),
            (depth + 1) as nat,
            max_depth as nat,
            pset,
        );
        let mut children: Vec<DependencyTree> = Vec::new();
        match self.find_key(asset) {
            None => {
                proof {
                    lemma_children_spec(
                        g,
                        deps_of(g, asset@),
                        (depth + 1) as nat,
                        max_depth as nat,
                        pset,
                    );
                    assert(forest_model(children@) =~= want_children);
                }
            },
            Some(idx) => {
                let deps = clone_names(self.entry_list(idx));
                proof {
                    assert(deps.deep_view() == deps_of(g, asset@));
                    lemma_children_spec(
                        g,
                        deps.deep_view(),
                        (depth + 1) as nat,
                        max_depth as nat,
                        pset,
                    );
                }
                let num = deps.len();
                let mut i: usize = 0;
                while i < num
                    invariant
                        i <= num,
                        visited.deep_view() == v1,
                        children@.len() == i,
                        forall|j: int|
                            0 <= j < i ==> tree_model(#[trigger] children@[j]) == tree_spec(
                                g,
                                deps.deep_view()[j],
                                (depth + 1) as nat,
                                max_depth as nat,
                                pset,
                            ),
                    decreases num - i,
                {
                    let ghost cb = children@;
                    let c = self.build_tree_rec(deps[i].as_str(), depth + 1, max_depth, visited);
                    children.push(c);
                    proof {
                        assert(children@ =~= cb.push(c));
                    }
                    i = i + 1;
                }
                proof {
                    lemma_forest_model(children@);
                    assert forall|j: int|
                        0 <= j < children@.len() implies forest_model(children@)[j]
                        == want_children[j] by {
                        assert(forest_model(children@)[j] == tree_model(children@[j]));
                    }
                    assert(forest_model(children@) =~= want_children);
                }
            },
        }
        let _ = visited.pop();
        proof {
            assert forall|j: int| 0 <= j < visited.deep_view().len() implies visited.deep_view()[j]
                == v0[j] by {
                assert(visited.deep_view()[j] == v1[j]);
            }
            assert(visited.deep_view() =~= v0);
        }
        let t = DependencyTree {
            asset: String::from_str(asset),
            depth,
            dependencies: children,
            is_circular: false,
        };
        proof {
            let want = tree_spec(g, asset@, depth as nat, max_depth as nat, v0.to_set());
            assert(!v0.to_set().contains(asset@));
            assert(want.dependencies == want_children);
            assert(tree_model(t).dependencies == want.dependencies);
        }
        t
    }
}

/// Law: a tree built with a maximum depth of 0 is the single node of the
/// root itself, at depth 0, with no children and no circular flag.
pub proof fn lemma_tree_depth_zero(g: GraphModel, asset: Seq<char>)
    ensures
        tree_spec(g, asset, 0, 0, Set::<Seq<char>>::empty()) == (TreeModel {
            asset,
            depth: 0,
            dependencies: Seq::<TreeModel>::empty(),
            is_circular: false,
        }),
{
    broadcast use vstd::set::group_set_axioms;

}

} // verus!
