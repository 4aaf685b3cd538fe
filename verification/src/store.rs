//! The dependency store: owns the adjacency relation and its edge API.

use vstd::prelude::*;
use vstd::string::StringExecFns;

use crate::model::{
    add_edge, deps_of, distinct_keys, entry_name, has_key, keeps_other, key_index,
    lemma_add_edge_wf, lemma_key_index_unique, lemma_remove_edge_wf, mentions, remove_edge,
    reverse_deps, GraphModel,
};

verus! {

/// A directed dependency graph over named assets.
///
/// Each entry pairs an asset with its ordered list of dependency names.
/// Duplicate edges are kept until the store is normalized, and an edge may
/// point at a name that has no entry of its own (a dangling dependency).
#[derive(Debug, Clone)]
pub struct DependencyMap {
    entries: Vec<(String, Vec<String>)>,
}

impl View for DependencyMap {
    type V = GraphModel;

    closed spec fn view(&self) -> GraphModel {
        self.entries.deep_view()
    }
}

/// Copies a list of names.
pub(crate) fn clone_names(v: &Vec<String>) -> (r: Vec<String>)
    ensures
        r.deep_view() == v.deep_view(),
{
    let mut r: Vec<String> = Vec::new();
    let mut i: usize = 0;
    while i < v.len()
        invariant
            i <= v.len(),
            r@.len() == i,
            forall|j: int| 0 <= j < i ==> r.deep_view()[j] == v.deep_view()[j],
        decreases v.len() - i,
    {
        r.push(v[i].clone());
        i = i + 1;
    }
    assert(r.deep_view() =~= v.deep_view());
    r
}

/// Does the list of names contain `needle`?
pub(crate) fn names_contain(v: &Vec<String>, needle: &str) -> (r: bool)
    ensures
        r == v.deep_view().contains(needle@),
{
    let key = String::from_str(needle);
    let mut i: usize = 0;
    while i < v.len()
        invariant
            i <= v@.len(),
            key@ == needle@,
            forall|j: int| 0 <= j < i ==> v.deep_view()[j] != needle@,
        decreases v@.len() - i,
    {
        if v[i] == key {
            proof {
                assert(v.deep_view()[i as int] == needle@);
            }
            return true;
        }
        i = i + 1;
    }
    proof {
        assert forall|j: int| 0 <= j < v.deep_view().len() implies v.deep_view()[j] != needle@ by {}
    }
    false
}

/// Copies `v` without any occurrence of the name `d`.
fn filter_out(v: &Vec<String>, d: &str) -> (r: Vec<String>)
    ensures
        r.deep_view() == v.deep_view().filter(keeps_other(d@)),
{
    let key = String::from_str(d);
    let mut r: Vec<String> = Vec::new();
    let mut i: usize = 0;
    while i < v.len()
        invariant
            i <= v@.len(),
            key@ == d@,
            r.deep_view() =~= v.deep_view().take(i as int).filter(keeps_other(d@)),
        decreases v@.len() - i,
    {
        let ghost dv = v.deep_view();
        let ghost pred = keeps_other(d@);
        proof {
            assert(dv.take(i as int + 1) =~= dv.take(i as int).push(dv[i as int]));
            dv.take(i as int).lemma_filter_push(dv[i as int], pred);
        }
        if !(v[i] == key) {
            r.push(v[i].clone());
            proof {
                assert(r.deep_view() =~= dv.take(i as int).filter(pred).push(dv[i as int]));
            }
        }
        i = i + 1;
    }
    proof {
        assert(v.deep_view().take(v.deep_view().len() as int) =~= v.deep_view());
    }
    r
}

impl DependencyMap {
    /// The store's internal invariant: every asset has at most one entry.
    pub open spec fn wf(&self) -> bool {
        distinct_keys(self@)
    }

    /// Creates a new empty dependency store.
    pub fn new() -> (r: Self)
        ensures
            r.wf(),
            r@ == Seq::<(Seq<char>, Seq<Seq<char>>)>::empty(),
    {
        let r = DependencyMap { entries: Vec::new() };
        proof {
            assert(r@ =~= Seq::<(Seq<char>, Seq<Seq<char>>)>::empty());
        }
        r
    }

    /// The number of entries.
    pub(crate) fn entry_count(&self) -> (n: usize)
        ensures
            n == self@.len(),
    {
        self.entries.len()
    }

    /// Borrows the asset name of the entry at index `i`.
    pub(crate) fn entry_key(&self, i: usize) -> (r: &String)
        requires
            i < self@.len(),
        ensures
            r@ == self@[i as int].0,
    {
        &self.entries[i].0
    }

    /// Borrows the dependency list of the entry at index `i`.
    pub(crate) fn entry_list(&self, i: usize) -> (r: &Vec<String>)
        requires
            i < self@.len(),
        ensures
            r.deep_view() == self@[i as int].1,
    {
        &self.entries[i].1
    }

    /// Replaces the whole entry table.
    pub(crate) fn replace_entries(&mut self, e: Vec<(String, Vec<String>)>)
        ensures
            final(self)@ == e.deep_view(),
    {
        self.entries = e;
    }

    /// Finds the entry index for `asset`, if the store has one.
    pub(crate) fn find_key(&self, asset: &str) -> (r: Option<usize>)
        requires
            self.wf(),
        ensures
            match r {
                Some(i) => {
                    &&& i < self@.len()
                    &&& self@[i as int].0 == asset@
                    &&& has_key(self@, asset@)
                    &&& key_index(self@, asset@) == i as int
                },
                None => !has_key(self@, asset@),
            },
    {
        let key = String::from_str(asset);
        let n = self.entries.len();
        let mut i: usize = 0;
        while i < n
            invariant
                n == self.entries@.len(),
                i <= n,
                key@ == asset@,
                self.wf(),
                forall|j: int| 0 <= j < i ==> (#[trigger] self@[j]).0 != asset@,
            decreases n - i,
        {
            if self.entries[i].0 == key {
                proof {
                    assert(self@[i as int].0 == asset@);
                    lemma_key_index_unique(self@, asset@, i as int);
                }
                return Some(i);
            }
            proof {
                assert(self@[i as int].0 == self.entries@[i as int].0@);
            }
            i = i + 1;
        }
        assert(!has_key(self@, asset@));
        None
    }

    /// Appends `dependency` to `asset`'s list, creating the entry if absent.
    /// Duplicates are kept: the store has multiset semantics until it is
    /// normalized.
    pub fn add_dependency(&mut self, asset: &str, dependency: &str)
        requires
            old(self).wf(),
        ensures
            final(self).wf(),
            final(self)@ == add_edge(old(self)@, asset@, dependency@),
    {
        proof {
            lemma_add_edge_wf(self@, asset@, dependency@);
        }
        let ghost g0: GraphModel = self@;
        let ghost e0 = self.entries@;
        let dep = String::from_str(dependency);
        match self.find_key(asset) {
            Some(i) => {
                let k = self.entries[i].0.clone();
                let mut list = clone_names(&self.entries[i].1);
                list.push(dep);
                self.entries[i] = (k, list);
                proof {
                    let gi = i as int;
                    let tgt = g0.update(gi, (asset@, g0[gi].1.push(dependency@)));
                    assert forall|j: int| 0 <= j < self@.len() implies self@[j] == tgt[j] by {
                        if j == gi {
                            assert(self.entries@[j] == (k, list));
                            assert(self@[j].0 == asset@);
                            assert(self@[j].1 =~= g0[gi].1.push(dependency@));
                        } else {
                            assert(self.entries@[j] == e0[j]);
                            assert(self@[j] == g0[j]);
                        }
                    }
                    assert(self@ =~= tgt);
                }
            },
            None => {
                let mut list: Vec<String> = Vec::new();
                list.push(dep);
                self.entries.push((String::from_str(asset), list));
                proof {
                    let tgt = g0.push((asset@, seq![dependency@]));
                    assert forall|j: int| 0 <= j < self@.len() implies self@[j] == tgt[j] by {
                        if j == e0.len() {
                            assert(self@[j].0 == asset@);
                            assert(self@[j].1 =~= seq![dependency@]);
                        } else {
                            assert(self.entries@[j] == e0[j]);
                            assert(self@[j] == g0[j]);
                        }
                    }
                    assert(self@ =~= tgt);
                }
            },
        }
    }

    /// Removes every occurrence of `dependency` from `asset`'s list; if the
    /// list empties, the entry is removed with it.
    pub fn remove_dependency(&mut self, asset: &str, dependency: &str)
        requires
            old(self).wf(),
        ensures
            final(self).wf(),
            final(self)@ == remove_edge(old(self)@, asset@, dependency@),
    {
        proof {
            lemma_remove_edge_wf(self@, asset@, dependency@);
        }
        let ghost g0: GraphModel = self@;
        let ghost e0 = self.entries@;
        match self.find_key(asset) {
            Some(i) => {
                let kept = filter_out(&self.entries[i].1, dependency);
                let ghost gi = i as int;
                proof {
                    assert(g0[gi].1 == e0[gi].1.deep_view());
                    assert(kept.deep_view() == g0[gi].1.filter(keeps_other(dependency@)));
                }
                if kept.len() == 0 {
                    self.entries.remove(i);
                    proof {
                        assert(kept.deep_view().len() == 0);
                        assert forall|j: int| 0 <= j < self@.len() implies self@[j] == g0.remove(
                            gi,
                        )[j] by {
                            if j < gi {
                                assert(self.entries@[j] == e0[j]);
                            } else {
                                assert(self.entries@[j] == e0[j + 1]);
                            }
                        }
                        assert(self@ =~= g0.remove(gi));
                    }
                } else {
                    let k = self.entries[i].0.clone();
                    self.entries[i] = (k, kept);
                    proof {
                        let tgt = g0.update(gi, (asset@, g0[gi].1.filter(keeps_other(dependency@))));
                        assert forall|j: int| 0 <= j < self@.len() implies self@[j] == tgt[j] by {
                            if j != gi {
                                assert(self.entries@[j] == e0[j]);
                                assert(self@[j] == g0[j]);
                            }
                        }
                        assert(self@ =~= tgt);
                    }
                }
            },
            None => {},
        }
    }

    /// Returns a copy of `asset`'s direct dependency list, or an empty list
    /// if the store has no entry for it.  Never fails.
    pub fn get_dependencies(&self, asset: &str) -> (r: Vec<String>)
        requires
            self.wf(),
        ensures
            r.deep_view() == deps_of(self@, asset@),
    {
        match self.find_key(asset) {
            Some(i) => clone_names(&self.entries[i].1),
            None => {
                let r: Vec<String> = Vec::new();
                proof {
                    assert(r.deep_view() =~= deps_of(self@, asset@));
                }
                r
            },
        }
    }

    /// Returns every asset whose dependency list mentions `asset`, in entry
    /// order.  The store keeps no incoming-edge index, so this is a scan.
    pub fn get_reverse_dependencies(&self, asset: &str) -> (r: Vec<String>)
        requires
            self.wf(),
        ensures
            r.deep_view() == reverse_deps(self@, asset@),
    {
        let mut r: Vec<String> = Vec::new();
        let mut i: usize = 0;
        let n = self.entries.len();
        while i < n
            invariant
                n == self.entries@.len(),
                i <= n,
                self.wf(),
                r.deep_view() =~= reverse_deps(self@.take(i as int), asset@),
            decreases n - i,
        {
            let ghost g = self@;
            let ghost pred = mentions(asset@);
            proof {
                assert(g.take(i as int + 1) =~= g.take(i as int).push(g[i as int]));
                g.take(i as int).lemma_filter_push(g[i as int], pred);
                assert(g[i as int].1 == self.entries@[i as int].1.deep_view());
            }
            if names_contain(&self.entries[i].1, asset) {
                r.push(self.entries[i].0.clone());
                proof {
                    assert(pred(g[i as int]));
                    let prev = g.take(i as int).filter(pred);
                    assert(g.take(i as int + 1).filter(pred) == prev.push(g[i as int]));
                    assert(prev.push(g[i as int]).map_values(entry_name()) =~= prev.map_values(
                        entry_name(),
                    ).push(g[i as int].0));
                    assert(r.deep_view() =~= reverse_deps(g.take(i as int), asset@).push(
                        g[i as int].0,
                    ));
                }
            } else {
                proof {
                    assert(!pred(g[i as int]));
                }
            }
            i = i + 1;
        }
        proof {
            assert(self@.take(self@.len() as int) =~= self@);
        }
        r
    }
}

impl Default for DependencyMap {
    /// An empty store.
    fn default() -> (r: Self)
        ensures
            r.wf(),
            r@ == Seq::<(Seq<char>, Seq<Seq<char>>)>::empty(),
    {
        DependencyMap::new()
    }
}

} // verus!
