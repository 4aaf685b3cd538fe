//! Rendering a store to text formats: a graph description, tabular rows,
//! and structured serialization.

use vstd::prelude::*;
use vstd::string::{StringExecFns, StrSliceExecFns};

use crate::model::{distinct_keys, GraphModel};
use crate::order::{lemma_lex_connex_from, lemma_lex_trans_from, lex_less, lex_lt};
use crate::reach::names_seq;
use crate::store::{clone_names, names_contain, DependencyMap};
use crate::text::{lower_of, lowercase};

verus! {

broadcast use vstd::seq_lib::group_seq_properties;

/// The error of the export path: a format name outside the recognized
/// set.
#[derive(Debug, PartialEq, Eq, Structural, Clone, Copy)]
pub enum ExportError {
    UnsupportedFormat,
}

/// Each name kept at its first occurrence only.
pub open spec fn first_occurrences(s: Seq<Seq<char>>) -> Seq<Seq<char>>
    decreases s.len(),
{
    if s.len() == 0 {
        s
    } else {
        let rest = first_occurrences(s.drop_last());
        if s.drop_last().contains(s.last()) {
            rest
        } else {
            rest.push(s.last())
        }
    }
}

/// Deduplication keeps exactly the names that were there.
pub proof fn lemma_first_occurrences_contains(s: Seq<Seq<char>>)
    ensures
        forall|x: Seq<char>|
            #[trigger] first_occurrences(s).contains(x) <==> s.contains(x),
    decreases s.len(),
{
    if s.len() > 0 {
        let dl = s.drop_last();
        lemma_first_occurrences_contains(dl);
        assert forall|x: Seq<char>| #[trigger] first_occurrences(s).contains(x) implies s.contains(
            x,
        ) by {
            let r = first_occurrences(s);
            let k = choose|k: int| 0 <= k < r.len() && r[k] == x;
            if dl.contains(s.last()) || k < first_occurrences(dl).len() {
                assert(first_occurrences(dl).contains(x) || x == s.last());
            }
            if dl.contains(x) {
                let t = choose|t: int| 0 <= t < dl.len() && dl[t] == x;
                assert(s[t] == x);
            } else {
                assert(s[s.len() - 1] == x);
            }
        }
        assert forall|x: Seq<char>| s.contains(x) implies #[trigger] first_occurrences(s).contains(
            x,
        ) by {
            let k = choose|k: int| 0 <= k < s.len() && s[k] == x;
            let r = first_occurrences(s);
            if k < s.len() - 1 {
                assert(dl[k] == x);
                assert(first_occurrences(dl).contains(x));
                let t = choose|t: int|
                    0 <= t < first_occurrences(dl).len() && first_occurrences(dl)[t] == x;
                assert(r[t] == x);
            } else {
                if dl.contains(x) {
                    assert(first_occurrences(dl).contains(x));
                    let t = choose|t: int|
                        0 <= t < first_occurrences(dl).len() && first_occurrences(dl)[t] == x;
                    assert(r[t] == x);
                } else {
                    assert(r[r.len() - 1] == x);
                }
            }
        }
    }
}

/// One node declaration line.
pub open spec fn node_line(a: Seq<char>) -> Seq<char> {
    "    \""@ + a + "\";\n"@
}

/// The node declarations, one per name.
pub open spec fn dot_nodes(ns: Seq<Seq<char>>) -> Seq<char>
    decreases ns.len(),
{
    if ns.len() == 0 {
        Seq::<char>::empty()
    } else {
        dot_nodes(ns.drop_last()) + node_line(ns.last())
    }
}

/// One edge statement line.
pub open spec fn edge_line(a: Seq<char>, d: Seq<char>) -> Seq<char> {
    "    \""@ + a + "\" -> \""@ + d + "\";\n"@
}

/// The edge statements of one entry, one per dependency, duplicates kept.
pub open spec fn entry_edge_lines(a: Seq<char>, l: Seq<Seq<char>>) -> Seq<char>
    decreases l.len(),
{
    if l.len() == 0 {
        Seq::<char>::empty()
    } else {
        entry_edge_lines(a, l.drop_last()) + edge_line(a, l.last())
    }
}

/// The edge statements of the whole store, in entry order.
pub open spec fn dot_edges(g: GraphModel) -> Seq<char>
    decreases g.len(),
{
    if g.len() == 0 {
        Seq::<char>::empty()
    } else {
        dot_edges(g.drop_last()) + entry_edge_lines(g.last().0, g.last().1)
    }
}

/// The graph-description text: a directed graph whose node set is the
/// union of all keys and all targets (so dangling dependencies are still
/// rendered), one edge statement per pair, duplicates kept.
pub open spec fn dot_text(g: GraphModel) -> Seq<char> {
    "digraph AssetDependencies {\n"@ + "    rankdir=LR;\n"@
        + "    node [shape=box, style=rounded];\n\n"@ + dot_nodes(
        first_occurrences(names_seq(g)),
    ) + "\n"@ + dot_edges(g) + "}\n"@
}

/// One tabular row.
pub open spec fn csv_row(a: Seq<char>, d: Seq<char>) -> Seq<char> {
    a + ","@ + d + "\n"@
}

/// The rows of one entry.
pub open spec fn entry_csv_rows(a: Seq<char>, l: Seq<Seq<char>>) -> Seq<char>
    decreases l.len(),
{
    if l.len() == 0 {
        Seq::<char>::empty()
    } else {
        entry_csv_rows(a, l.drop_last()) + csv_row(a, l.last())
    }
}

/// The rows of the whole store, in entry order.
pub open spec fn csv_rows(g: GraphModel) -> Seq<char>
    decreases g.len(),
{
    if g.len() == 0 {
        Seq::<char>::empty()
    } else {
        csv_rows(g.drop_last()) + entry_csv_rows(g.last().0, g.last().1)
    }
}

/// The tabular text: a header line, then one row per edge pair,
/// duplicates kept.
pub open spec fn csv_text(g: GraphModel) -> Seq<char> {
    "Asset,Dependency\n"@ + csv_rows(g)
}

/// Insertion of an entry before the first key that does not sort below
/// its own.
pub open spec fn insert_entry(e: (Seq<char>, Seq<Seq<char>>), s: GraphModel) -> GraphModel
    decreases s.len(),
{
    if s.len() == 0 {
        seq![e]
    } else if lex_lt(s[0].0, e.0) {
        seq![s[0]] + insert_entry(e, s.drop_first())
    } else {
        seq![e] + s
    }
}

/// The first `k` entries, sorted by key.
pub open spec fn sort_prefix(g: GraphModel, k: int) -> GraphModel
    decreases k,
{
    if k <= 0 {
        Seq::empty()
    } else {
        insert_entry(g[k - 1], sort_prefix(g, k - 1))
    }
}

/// The whole store sorted by key.
pub open spec fn sort_entries(g: GraphModel) -> GraphModel {
    sort_prefix(g, g.len() as int)
}

/// Strictly ascending keys.
pub open spec fn sorted_keys(s: GraphModel) -> bool {
    forall|i: int, j: int| 0 <= i < j < s.len() ==> lex_lt((#[trigger] s[i]).0, (#[trigger] s[j]).0)
}

/// `insert_entry` in terms of the landing position.
pub proof fn lemma_insert_entry_at(e: (Seq<char>, Seq<Seq<char>>), s: GraphModel, pos: int)
    requires
        0 <= pos <= s.len(),
        forall|j: int| 0 <= j < pos ==> lex_lt((#[trigger] s[j]).0, e.0),
        pos < s.len() ==> !lex_lt(s[pos].0, e.0),
    ensures
        insert_entry(e, s) == s.subrange(0, pos).push(e) + s.skip(pos),
    decreases pos,
{
    if pos == 0 {
        if s.len() == 0 {
            assert(insert_entry(e, s) =~= s.subrange(0, 0).push(e) + s.skip(0));
        } else {
            assert(insert_entry(e, s) =~= s.subrange(0, 0).push(e) + s.skip(0));
        }
    } else {
        let rest = s.drop_first();
        assert(lex_lt(s[0].0, e.0));
        assert forall|j: int| 0 <= j < pos - 1 implies lex_lt((#[trigger] rest[j]).0, e.0) by {
            assert(rest[j] == s[j + 1]);
        }
        assert(pos - 1 < rest.len() ==> !lex_lt(rest[pos - 1].0, e.0)) by {
            if pos - 1 < rest.len() {
                assert(rest[pos - 1] == s[pos]);
            }
        }
        lemma_insert_entry_at(e, rest, pos - 1);
        assert(insert_entry(e, s) =~= s.subrange(0, pos).push(e) + s.skip(pos)) by {
            assert(insert_entry(e, s) == seq![s[0]] + (rest.subrange(0, pos - 1).push(e)
                + rest.skip(pos - 1)));
            assert forall|j: int|
                0 <= j < s.len() + 1 implies (seq![s[0]] + (rest.subrange(0, pos - 1).push(e)
                + rest.skip(pos - 1)))[j] == (s.subrange(0, pos).push(e) + s.skip(pos))[j] by {
                if 0 < j < s.len() {
                    assert(rest[j - 1] == s[j]);
                }
            }
        }
    }
}

/// Inserting an entry whose key is fresh keeps the keys strictly sorted,
/// and every entry of the result is the new one or one of the old ones.
pub proof fn lemma_insert_entry_sorted(e: (Seq<char>, Seq<Seq<char>>), s: GraphModel)
    requires
        sorted_keys(s),
        forall|k: int| 0 <= k < s.len() ==> (#[trigger] s[k]).0 != e.0,
    ensures
        sorted_keys(insert_entry(e, s)),
        insert_entry(e, s).len() == s.len() + 1,
        forall|k: int|
            0 <= k < insert_entry(e, s).len() ==> #[trigger] insert_entry(e, s)[k] == e
                || s.contains(insert_entry(e, s)[k]),
    decreases s.len(),
{
    let r = insert_entry(e, s);
    if s.len() == 0 {
    } else if lex_lt(s[0].0, e.0) {
        let rest = s.drop_first();
        assert(sorted_keys(rest)) by {
            assert forall|i: int, j: int| 0 <= i < j < rest.len() implies lex_lt(
                (#[trigger] rest[i]).0,
                (#[trigger] rest[j]).0,
            ) by {
                assert(rest[i] == s[i + 1] && rest[j] == s[j + 1]);
            }
        }
        assert forall|k: int| 0 <= k < rest.len() implies (#[trigger] rest[k]).0 != e.0 by {
            assert(rest[k] == s[k + 1]);
        }
        lemma_insert_entry_sorted(e, rest);
        let ins = insert_entry(e, rest);
        assert(sorted_keys(r)) by {
            assert forall|i: int, j: int| 0 <= i < j < r.len() implies lex_lt(
                (#[trigger] r[i]).0,
                (#[trigger] r[j]).0,
            ) by {
                if i == 0 {
                    assert(r[j] == ins[j - 1]);
                    if ins[j - 1] == e {
                    } else {
                        assert(rest.contains(ins[j - 1]));
                        let t = choose|t: int| 0 <= t < rest.len() && rest[t] == ins[j - 1];
                        assert(rest[t] == s[t + 1]);
                        assert(lex_lt(s[0].0, s[t + 1].0));
                    }
                } else {
                    assert(r[i] == ins[i - 1] && r[j] == ins[j - 1]);
                }
            }
        }
        assert forall|k: int| 0 <= k < r.len() implies #[trigger] r[k] == e || s.contains(
            r[k],
        ) by {
            if k == 0 {
                assert(s[0] == r[0]);
            } else {
                assert(r[k] == ins[k - 1]);
                if ins[k - 1] != e {
                    assert(rest.contains(ins[k - 1]));
                    let t = choose|t: int| 0 <= t < rest.len() && rest[t] == ins[k - 1];
                    assert(s[t + 1] == ins[k - 1]);
                }
            }
        }
    } else {
        assert(s[0].0 != e.0);
        lemma_lex_connex_from(s[0].0, e.0, 0);
        assert(lex_lt(e.0, s[0].0));
        assert(sorted_keys(r)) by {
            assert forall|i: int, j: int| 0 <= i < j < r.len() implies lex_lt(
                (#[trigger] r[i]).0,
                (#[trigger] r[j]).0,
            ) by {
                if i == 0 {
                    assert(r[j] == s[j - 1]);
                    if j > 1 {
                        assert(lex_lt(s[0].0, s[j - 1].0));
                        lemma_lex_trans_from(e.0, s[0].0, s[j - 1].0, 0);
                    }
                } else {
                    assert(r[i] == s[i - 1] && r[j] == s[j - 1]);
                }
            }
        }
        assert forall|k: int| 0 <= k < r.len() implies #[trigger] r[k] == e || s.contains(
            r[k],
        ) by {
            if k > 0 {
                assert(r[k] == s[k - 1]);
            }
        }
    }
}

/// Sorting a store with unique keys yields strictly sorted keys.
pub proof fn lemma_sort_prefix_sorted(g: GraphModel, k: int)
    requires
        distinct_keys(g),
        0 <= k <= g.len(),
    ensures
        sorted_keys(sort_prefix(g, k)),
        sort_prefix(g, k).len() == k,
        forall|k2: int|
            0 <= k2 < k ==> exists|t: int|
                0 <= t < k && #[trigger] sort_prefix(g, k)[k2] == g[t],
    decreases k,
{
    if k > 0 {
        lemma_sort_prefix_sorted(g, k - 1);
        let prev = sort_prefix(g, k - 1);
        assert forall|k2: int| 0 <= k2 < prev.len() implies (#[trigger] prev[k2]).0 != g[k
            - 1].0 by {
            let t = choose|t: int| 0 <= t < k - 1 && #[trigger] prev[k2] == g[t];
            assert(g[t].0 != g[k - 1].0);
        }
        lemma_insert_entry_sorted(g[k - 1], prev);
        let r = sort_prefix(g, k);
        assert forall|k2: int| 0 <= k2 < k implies exists|t: int|
            0 <= t < k && #[trigger] r[k2] == g[t] by {
            if r[k2] == g[k - 1] {
                assert(r[k2] == g[k - 1 as int]);
            } else {
                assert(prev.contains(r[k2]));
                let m = choose|m: int| 0 <= m < prev.len() && prev[m] == r[k2];
                let t = choose|t: int| 0 <= t < k - 1 && #[trigger] prev[m] == g[t];
                assert(r[k2] == g[t]);
            }
        }
    }
}

/// What `serde_json::to_string_pretty` returns for a key-sorted entry
/// table serialized as one object.
pub uninterp spec fn json_text_of(entries: Seq<(Seq<char>, Seq<Seq<char>>)>) -> Seq<char>;

/// Relies on serde_json::to_string_pretty over a `BTreeMap` built from
/// the entries: with strictly sorted unique keys the map holds exactly
/// the given entries, so the text depends on them alone.  Serialization
/// of string maps cannot fail.
#[verifier::external_body]
fn to_json_pretty(entries: &Vec<(String, Vec<String>)>) -> (r: String)
    requires
        sorted_keys(entries.deep_view()),
    ensures
        r@ == json_text_of(entries.deep_view()),
{
    let map: std::collections::BTreeMap<&String, &Vec<String>> = entries.iter().map(
        |p: &(String, Vec<String>)| (&p.0, &p.1),
    ).collect();
    serde_json::to_string_pretty(&map).unwrap_or_default()
}

/// The first position whose key does not sort strictly below `key`.
fn entry_lower_bound(v: &Vec<(String, Vec<String>)>, key: &str) -> (pos: usize)
    ensures
        pos <= v.deep_view().len(),
        forall|k: int| 0 <= k < pos ==> lex_lt((#[trigger] v.deep_view()[k]).0, key@),
        pos < v.deep_view().len() ==> !lex_lt(v.deep_view()[pos as int].0, key@),
{
    let n = v.len();
    let mut pos: usize = 0;
    while pos < n
        invariant
            n == v@.len(),
            pos <= n,
            forall|k: int| 0 <= k < pos ==> lex_lt((#[trigger] v.deep_view()[k]).0, key@),
        decreases n - pos,
    {
        if !lex_less(v[pos].0.as_str(), key) {
            return pos;
        }
        pos = pos + 1;
    }
    pos
}

impl DependencyMap {
    /// Every name the store mentions, keys and targets alike, each at its
    /// first occurrence.
    fn collect_nodes(&self) -> (nodes: Vec<String>)
        requires
            self.wf(),
        ensures
            nodes.deep_view() == first_occurrences(names_seq(self@)),
    {
        let ghost g = self@;
        let mut nodes: Vec<String> = Vec::new();
        let n = self.entry_count();
        let mut i: usize = 0;
        proof {
            assert(g.take(0) =~= Seq::<(Seq<char>, Seq<Seq<char>>)>::empty());
            assert(names_seq(g.take(0)) =~= Seq::<Seq<char>>::empty());
            assert(nodes.deep_view() =~= first_occurrences(names_seq(g.take(0))));
        }
        while i < n
            invariant
                self.wf(),
                self@ == g,
                n == g.len(),
                i <= n,
                nodes.deep_view() =~= first_occurrences(names_seq(g.take(i as int))),
            decreases n - i,
        {
            let ghost flat0 = names_seq(g.take(i as int));
            let key = self.entry_key(i).clone();
            let ghost flat1 = flat0 + seq![g[i as int].0];
            proof {
                lemma_first_occurrences_contains(flat0);
                assert(flat1 =~= flat0.push(g[i as int].0));
                assert(flat1.drop_last() =~= flat0);
            }
            if !names_contain(&nodes, key.as_str()) {
                let ghost nb = nodes.deep_view();
                nodes.push(key.clone());
                proof {
                    assert(nodes.deep_view() =~= nb.push(g[i as int].0));
                    assert(nodes.deep_view() =~= first_occurrences(flat1));
                }
            } else {
                proof {
                    assert(flat0.contains(g[i as int].0));
                    assert(nodes.deep_view() =~= first_occurrences(flat1));
                }
            }
            let list = self.entry_list(i);
            let ghost cl = g[i as int].1;
            proof {
                assert(list.deep_view() == cl);
                assert(cl.take(0) =~= Seq::<Seq<char>>::empty());
                assert(flat1 + cl.take(0) =~= flat1);
            }
            let m = list.len();
            let mut j: usize = 0;
            while j < m
                invariant
                    self.wf(),
                    self@ == g,
                    0 <= i < g.len(),
                    flat1 == names_seq(g.take(i as int)) + seq![g[i as int].0],
                    cl == g[i as int].1,
                    list.deep_view() == cl,
                    m == cl.len(),
                    j <= m,
                    nodes.deep_view() =~= first_occurrences(flat1 + cl.take(j as int)),
                decreases m - j,
            {
                let dep = list[j].clone();
                let ghost cur = flat1 + cl.take(j as int);
                proof {
                    lemma_first_occurrences_contains(cur);
                    assert(dep@ == cl[j as int]);
                    assert(flat1 + cl.take(j as int + 1) =~= cur.push(cl[j as int]));
                    assert((flat1 + cl.take(j as int + 1)).drop_last() =~= cur);
                }
                if !names_contain(&nodes, dep.as_str()) {
                    let ghost nb = nodes.deep_view();
                    nodes.push(dep);
                    proof {
                        assert(nodes.deep_view() =~= nb.push(cl[j as int]));
                        assert(nodes.deep_view() =~= first_occurrences(
                            flat1 + cl.take(j as int + 1),
                        ));
                    }
                } else {
                    proof {
                        assert(cur.contains(cl[j as int]));
                        assert(nodes.deep_view() =~= first_occurrences(
                            flat1 + cl.take(j as int + 1),
                        ));
                    }
                }
                j = j + 1;
            }
            proof {
                assert(cl.take(m as int) =~= cl);
                assert(names_seq(g.take(i as int + 1)) =~= flat1 + cl) by {
                    assert(g.take(i as int + 1).drop_last() =~= g.take(i as int));
                    assert(g.take(i as int + 1).last() == g[i as int]);
                }
            }
            i = i + 1;
        }
        proof {
            assert(g.take(n as int) =~= g);
        }
        nodes
    }

    /// Renders the store as a directed-graph description: every mentioned
    /// name becomes a node (dangling dependencies included), every edge
    /// pair a statement, duplicates kept when the store is unnormalized.
    pub fn export_to_dot(&self) -> (r: String)
        requires
            self.wf(),
        ensures
            r@ == dot_text(self@),
    {
        let ghost g = self@;
        let nodes = self.collect_nodes();
        let mut r = String::new();
        r.append("digraph AssetDependencies {\n");
        r.append("    rankdir=LR;\n");
        r.append("    node [shape=box, style=rounded];\n\n");
        let ghost header = "digraph AssetDependencies {\n"@ + "    rankdir=LR;\n"@
            + "    node [shape=box, style=rounded];\n\n"@;
        proof {
            assert(r@ =~= header);
        }
        let ghost ns = nodes.deep_view();
        let nn = nodes.len();
        let mut i: usize = 0;
        proof {
            assert(ns.take(0) =~= Seq::<Seq<char>>::empty());
            assert(r@ =~= header + dot_nodes(ns.take(0)));
        }
        while i < nn
            invariant
                ns == nodes.deep_view(),
                header == "digraph AssetDependencies {\n"@ + "    rankdir=LR;\n"@
                    + "    node [shape=box, style=rounded];\n\n"@,
                nn == nodes@.len(),
                i <= nn,
                r@ =~= header + dot_nodes(ns.take(i as int)),
            decreases nn - i,
        {
            r.append("    \"");
            r.append(nodes[i].as_str());
            r.append("\";\n");
            proof {
                assert(ns.take(i as int + 1).drop_last() =~= ns.take(i as int));
                assert(ns.take(i as int + 1).last() == ns[i as int]);
                assert(r@ =~= header + dot_nodes(ns.take(i as int + 1)));
            }
            i = i + 1;
        }
        proof {
            assert(ns.take(nn as int) =~= ns);
        }
        r.append("\n");
        let ghost mid = header + dot_nodes(ns) + "\n"@;
        proof {
            assert(r@ =~= mid);
            assert(g.take(0) =~= Seq::<(Seq<char>, Seq<Seq<char>>)>::empty());
            assert(r@ =~= mid + dot_edges(g.take(0)));
        }
        let n = self.entry_count();
        let mut e: usize = 0;
        while e < n
            invariant
                self.wf(),
                self@ == g,
                mid == header + dot_nodes(ns) + "\n"@,
                header == "digraph AssetDependencies {\n"@ + "    rankdir=LR;\n"@
                    + "    node [shape=box, style=rounded];\n\n"@,
                n == g.len(),
                e <= n,
                r@ =~= mid + dot_edges(g.take(e as int)),
            decreases n - e,
        {
            let key = self.entry_key(e).clone();
            let list = self.entry_list(e);
            let ghost cl = g[e as int].1;
            let ghost base = mid + dot_edges(g.take(e as int));
            proof {
                assert(list.deep_view() == cl);
                assert(key@ == g[e as int].0);
                assert(cl.take(0) =~= Seq::<Seq<char>>::empty());
                assert(r@ =~= base + entry_edge_lines(g[e as int].0, cl.take(0)));
            }
            let m = list.len();
            let mut j: usize = 0;
            while j < m
                invariant
                    self.wf(),
                    self@ == g,
                    0 <= e < g.len(),
                    key@ == g[e as int].0,
                    cl == g[e as int].1,
                    list.deep_view() == cl,
                    m == cl.len(),
                    j <= m,
                    r@ =~= base + entry_edge_lines(g[e as int].0, cl.take(j as int)),
                decreases m - j,
            {
                r.append("    \"");
                r.append(key.as_str());
                r.append("\" -> \"");
                r.append(list[j].as_str());
                r.append("\";\n");
                proof {
                    assert(cl.take(j as int + 1).drop_last() =~= cl.take(j as int));
                    assert(cl.take(j as int + 1).last() == cl[j as int]);
                    assert(r@ =~= base + entry_edge_lines(g[e as int].0, cl.take(j as int + 1)));
                }
                j = j + 1;
            }
            proof {
                assert(cl.take(m as int) =~= cl);
                assert(g.take(e as int + 1).drop_last() =~= g.take(e as int));
                assert(g.take(e as int + 1).last() == g[e as int]);
                assert(r@ =~= mid + dot_edges(g.take(e as int + 1)));
            }
            e = e + 1;
        }
        proof {
            assert(g.take(n as int) =~= g);
        }
        r.append("}\n");
        proof {
            assert(r@ =~= dot_text(g));
        }
        r
    }

    /// Renders the store as tabular text: a header line, then one row per
    /// edge pair, duplicates kept when the store is unnormalized.
    pub fn export_to_csv(&self) -> (r: String)
        requires
            self.wf(),
        ensures
            r@ == csv_text(self@),
    {
        let ghost g = self@;
        let mut r = String::new();
        r.append("Asset,Dependency\n");
        let ghost header = "Asset,Dependency\n"@;
        proof {
            assert(r@ =~= header);
            assert(g.take(0) =~= Seq::<(Seq<char>, Seq<Seq<char>>)>::empty());
            assert(r@ =~= header + csv_rows(g.take(0)));
        }
        let n = self.entry_count();
        let mut e: usize = 0;
        while e < n
            invariant
                self.wf(),
                self@ == g,
                header == "Asset,Dependency\n"@,
                n == g.len(),
                e <= n,
                r@ =~= header + csv_rows(g.take(e as int)),
            decreases n - e,
        {
            let key = self.entry_key(e).clone();
            let list = self.entry_list(e);
            let ghost cl = g[e as int].1;
            let ghost base = header + csv_rows(g.take(e as int));
            proof {
                assert(list.deep_view() == cl);
                assert(key@ == g[e as int].0);
                assert(cl.take(0) =~= Seq::<Seq<char>>::empty());
                assert(r@ =~= base + entry_csv_rows(g[e as int].0, cl.take(0)));
            }
            let m = list.len();
            let mut j: usize = 0;
            while j < m
                invariant
                    self.wf(),
                    self@ == g,
                    0 <= e < g.len(),
                    key@ == g[e as int].0,
                    cl == g[e as int].1,
                    list.deep_view() == cl,
                    m == cl.len(),
                    j <= m,
                    r@ =~= base + entry_csv_rows(g[e as int].0, cl.take(j as int)),
                decreases m - j,
            {
                r.append(key.as_str());
                r.append(",");
                r.append(list[j].as_str());
                r.append("\n");
                proof {
                    assert(cl.take(j as int + 1).drop_last() =~= cl.take(j as int));
                    assert(cl.take(j as int + 1).last() == cl[j as int]);
                    assert(r@ =~= base + entry_csv_rows(g[e as int].0, cl.take(j as int + 1)));
                }
                j = j + 1;
            }
            proof {
                assert(cl.take(m as int) =~= cl);
                assert(g.take(e as int + 1).drop_last() =~= g.take(e as int));
                assert(g.take(e as int + 1).last() == g[e as int]);
                assert(r@ =~= header + csv_rows(g.take(e as int + 1)));
            }
            e = e + 1;
        }
        proof {
            assert(g.take(n as int) =~= g);
            assert(r@ =~= csv_text(g));
        }
        r
    }

    /// The entry table, sorted by key.
    fn sorted_entries(&self) -> (out: Vec<(String, Vec<String>)>)
        requires
            self.wf(),
        ensures
            out.deep_view() == sort_entries(self@),
            sorted_keys(out.deep_view()),
    {
        let ghost g = self@;
        let mut out: Vec<(String, Vec<String>)> = Vec::new();
        let n = self.entry_count();
        let mut i: usize = 0;
        proof {
            assert(out.deep_view() =~= sort_prefix(g, 0));
        }
        while i < n
            invariant
                self.wf(),
                self@ == g,
                n == g.len(),
                i <= n,
                out.deep_view() =~= sort_prefix(g, i as int),
            decreases n - i,
        {
            proof {
                lemma_sort_prefix_sorted(g, i as int);
            }
            let key = self.entry_key(i).clone();
            let list = clone_names(self.entry_list(i));
            let ghost ob = out.deep_view();
            let ghost entry = g[i as int];
            let pos = entry_lower_bound(&out, key.as_str());
            proof {
                lemma_insert_entry_at(entry, ob, pos as int);
            }
            out.insert(pos, (key, list));
            proof {
                assert(out.deep_view() =~= ob.subrange(0, pos as int).push(entry) + ob.skip(
                    pos as int,
                ));
                assert(out.deep_view() =~= insert_entry(entry, ob));
                assert(out.deep_view() =~= sort_prefix(g, i as int + 1));
            }
            i = i + 1;
        }
        proof {
            lemma_sort_prefix_sorted(g, n as int);
            assert(out.deep_view() =~= sort_entries(g));
        }
        out
    }

    /// Case-insensitive dispatch over the recognized format names.  The
    /// structured and tabular renderings are exact; the `yaml` name is
    /// recognized but answered with a placeholder; anything else is
    /// refused.  The dispatch key lowercases to itself, so a name and its
    /// lowercase form select the same branch.
    pub fn export_to_format(&self, format: &str) -> (r: Result<String, ExportError>)
        requires
            self.wf(),
        ensures
            lower_of(lower_of(format@)) == lower_of(format@),
            ({
                let low = lower_of(format@);
                &&& low == "json"@ ==> (r matches Ok(s) && s@ == json_text_of(sort_entries(self@)))
                &&& low == "dot"@ ==> (r matches Ok(s) && s@ == dot_text(self@))
                &&& low == "csv"@ ==> (r matches Ok(s) && s@ == csv_text(self@))
                &&& low == "yaml"@ ==> (r matches Ok(s) && s@ == "YAML export not implemented yet"@)
                &&& (low != "json"@ && low != "dot"@ && low != "csv"@ && low != "yaml"@) ==> (r
                    matches Err(e) && e == ExportError::UnsupportedFormat)
            }),
    {
        proof {
            reveal_strlit("json");
            reveal_strlit("dot");
            reveal_strlit("csv");
            reveal_strlit("yaml");
            assert("json"@ != "dot"@) by {
                assert("json"@.len() == 4 && "dot"@.len() == 3);
            }
            assert("json"@ != "csv"@) by {
                assert("json"@.len() == 4 && "csv"@.len() == 3);
            }
            assert("json"@ != "yaml"@) by {
                assert("json"@[0] == 'j' && "yaml"@[0] == 'y');
            }
            assert("dot"@ != "csv"@) by {
                assert("dot"@[0] == 'd' && "csv"@[0] == 'c');
            }
            assert("dot"@ != "yaml"@) by {
                assert("dot"@.len() == 3 && "yaml"@.len() == 4);
            }
            assert("csv"@ != "yaml"@) by {
                assert("csv"@.len() == 3 && "yaml"@.len() == 4);
            }
        }
        let low = lowercase(format);
        if low == String::from_str("json") {
            let sorted = self.sorted_entries();
            Ok(to_json_pretty(&sorted))
        } else if low == String::from_str("dot") {
            let t = self.export_to_dot();
            proof {
                assert(low@ == "dot"@);
                assert(t@ == dot_text(self@));
            }
            Ok(t)
        } else if low == String::from_str("csv") {
            let t = self.export_to_csv();
            proof {
                assert(t@ == csv_text(self@));
            }
            Ok(t)
        } else if low == String::from_str("yaml") {
            let t = String::from_str("YAML export not implemented yet");
            proof {
                assert(t@ == "YAML export not implemented yet"@);
            }
            Ok(t)
        } else {
            Err(ExportError::UnsupportedFormat)
        }
    }
}

} // verus!
