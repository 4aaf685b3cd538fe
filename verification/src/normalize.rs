//! Normalization: each dependency list is sorted and deduplicated, and
//! entries left with an empty list are dropped.

use vstd::prelude::*;

use crate::model::{distinct_keys, is_edge, lemma_edge_entry_iff, GraphModel};
use crate::order::{
    lemma_lex_asym, lemma_lex_connex_from, lemma_lex_irrefl_from, lemma_lex_trans_from, lex_less,
    lex_lt,
};
use crate::store::{clone_names, DependencyMap};

verus! {

broadcast use vstd::seq_lib::group_seq_properties;

/// Every pair of positions is strictly increasing: sorted with no
/// duplicates.
pub open spec fn strictly_sorted(s: Seq<Seq<char>>) -> bool {
    forall|i: int, j: int| 0 <= i < j < s.len() ==> lex_lt(#[trigger] s[i], #[trigger] s[j])
}

/// Insertion into a sorted list without duplicates: `x` lands before the
/// first element not less than it, unless that element equals `x`.
pub open spec fn insert_unique(x: Seq<char>, s: Seq<Seq<char>>) -> Seq<Seq<char>>
    decreases s.len(),
{
    if s.len() == 0 {
        seq![x]
    } else if lex_lt(s[0], x) {
        seq![s[0]] + insert_unique(x, s.drop_first())
    } else if s[0] == x {
        s
    } else {
        seq![x] + s
    }
}

/// The sorted, duplicate-free form of a dependency list.
pub open spec fn norm_list(l: Seq<Seq<char>>) -> Seq<Seq<char>>
    decreases l.len(),
{
    if l.len() == 0 {
        l
    } else {
        insert_unique(l[0], norm_list(l.drop_first()))
    }
}

/// Entry with its list normalized.
pub open spec fn entry_norm() -> spec_fn((Seq<char>, Seq<Seq<char>>)) -> (
    Seq<char>,
    Seq<Seq<char>>,
) {
    |p: (Seq<char>, Seq<Seq<char>>)| (p.0, norm_list(p.1))
}

/// Entry whose list is not empty.
pub open spec fn entry_nonempty() -> spec_fn((Seq<char>, Seq<Seq<char>>)) -> bool {
    |p: (Seq<char>, Seq<Seq<char>>)| p.1.len() != 0
}

/// The whole store normalized: every list sorted and deduplicated, every
/// entry left empty dropped.
pub open spec fn optimize_spec(g: GraphModel) -> GraphModel {
    g.map_values(entry_norm()).filter(entry_nonempty())
}

/// How many duplicate entries normalization removes across the store.
pub open spec fn removed_spec(g: GraphModel) -> int
    decreases g.len(),
{
    if g.len() == 0 {
        0
    } else {
        removed_spec(g.drop_last()) + g.last().1.len() - norm_list(g.last().1).len()
    }
}

/// A count clamped into the range of the counter that reports it.
pub open spec fn capped_usize(n: int) -> int {
    if n > usize::MAX as int {
        usize::MAX as int
    } else {
        n
    }
}

/// What `insert_unique` does to a sorted list: order kept, the element
/// adjoined, the length up by one unless already present.
pub proof fn lemma_insert_unique_props(x: Seq<char>, s: Seq<Seq<char>>)
    requires
        strictly_sorted(s),
    ensures
        strictly_sorted(insert_unique(x, s)),
        insert_unique(x, s).to_set() == s.to_set().insert(x),
        insert_unique(x, s).len() == s.len() + (if s.contains(x) {
            0int
        } else {
            1int
        }),
        s.contains(x) ==> insert_unique(x, s) == s,
    decreases s.len(),
{
    let r = insert_unique(x, s);
    if s.len() == 0 {
        assert(r =~= seq![x]);
        assert(r.to_set() =~= s.to_set().insert(x));
    } else if lex_lt(s[0], x) {
        let rest = s.drop_first();
        assert(strictly_sorted(rest)) by {
            assert forall|i: int, j: int| 0 <= i < j < rest.len() implies lex_lt(
                #[trigger] rest[i],
                #[trigger] rest[j],
            ) by {
                assert(s[i + 1] == rest[i] && s[j + 1] == rest[j]);
            }
        }
        lemma_insert_unique_props(x, rest);
        let ins = insert_unique(x, rest);
        assert(s[0] != x) by {
            if s[0] == x {
                lemma_lex_irrefl_from(x, 0);
            }
        }
        assert(s.contains(x) <==> rest.contains(x)) by {
            if s.contains(x) {
                let k = choose|k: int| 0 <= k < s.len() && s[k] == x;
                assert(k > 0);
                assert(rest[k - 1] == x);
            }
            if rest.contains(x) {
                let k = choose|k: int| 0 <= k < rest.len() && rest[k] == x;
                assert(s[k + 1] == x);
            }
        }
        assert(strictly_sorted(r)) by {
            assert forall|i: int, j: int| 0 <= i < j < r.len() implies lex_lt(
                #[trigger] r[i],
                #[trigger] r[j],
            ) by {
                if i == 0 {
                    assert(r[j] == ins[j - 1]);
                    assert(ins.contains(ins[j - 1]));
                    assert(ins.to_set().contains(ins[j - 1]));
                    if ins[j - 1] == x {
                        assert(lex_lt(s[0], x));
                    } else {
                        assert(rest.to_set().contains(ins[j - 1]));
                        let k = choose|k: int| 0 <= k < rest.len() && rest[k] == ins[j - 1];
                        assert(s[k + 1] == ins[j - 1]);
                        assert(lex_lt(s[0], s[k + 1]));
                    }
                } else {
                    assert(r[i] == ins[i - 1] && r[j] == ins[j - 1]);
                    assert(lex_lt(ins[i - 1], ins[j - 1]));
                }
            }
        }
        assert(r.to_set() =~= s.to_set().insert(x)) by {
            assert forall|e: Seq<char>| #[trigger] r.to_set().contains(e) implies s
                .to_set()
                .insert(x)
                .contains(e) by {
                let k = choose|k: int| 0 <= k < r.len() && r[k] == e;
                if k == 0 {
                    assert(s[0] == e);
                } else {
                    assert(ins[k - 1] == e);
                    assert(ins.to_set().contains(e));
                    if e != x {
                        assert(rest.to_set().contains(e));
                        let m = choose|m: int| 0 <= m < rest.len() && rest[m] == e;
                        assert(s[m + 1] == e);
                    }
                }
            }
            assert forall|e: Seq<char>| #[trigger] s.to_set().insert(x).contains(e) implies r
                .to_set()
                .contains(e) by {
                if e == x || rest.contains(e) {
                    assert(ins.to_set().contains(e));
                    let m = choose|m: int| 0 <= m < ins.len() && ins[m] == e;
                    assert(r[m + 1] == e);
                } else {
                    let k = choose|k: int| 0 <= k < s.len() && s[k] == e;
                    if k == 0 {
                        assert(r[0] == e);
                    } else {
                        assert(rest[k - 1] == e);
                    }
                }
            }
        }
        if s.contains(x) {
            assert(r =~= s);
        }
    } else if s[0] == x {
        assert(s.contains(x)) by {
            assert(s[0] == x);
        }
        assert(r.to_set() =~= s.to_set().insert(x));
    } else {
        lemma_lex_connex_from(s[0], x, 0);
        assert(lex_lt(x, s[0]));
        assert(!s.contains(x)) by {
            if s.contains(x) {
                let k = choose|k: int| 0 <= k < s.len() && s[k] == x;
                if k == 0 {
                } else {
                    assert(lex_lt(s[0], s[k]));
                    lemma_lex_asym(x, s[0]);
                }
            }
        }
        assert(strictly_sorted(r)) by {
            assert forall|i: int, j: int| 0 <= i < j < r.len() implies lex_lt(
                #[trigger] r[i],
                #[trigger] r[j],
            ) by {
                if i == 0 {
                    assert(r[j] == s[j - 1]);
                    if j == 1 {
                    } else {
                        assert(lex_lt(s[0], s[j - 1]));
                        lemma_lex_trans_from(x, s[0], s[j - 1], 0);
                    }
                } else {
                    assert(r[i] == s[i - 1] && r[j] == s[j - 1]);
                }
            }
        }
        assert(r.to_set() =~= s.to_set().insert(x)) by {
            assert forall|e: Seq<char>| #[trigger] r.to_set().contains(e) implies s
                .to_set()
                .insert(x)
                .contains(e) by {
                let k = choose|k: int| 0 <= k < r.len() && r[k] == e;
                if k > 0 {
                    assert(s[k - 1] == e);
                }
            }
            assert forall|e: Seq<char>| #[trigger] s.to_set().insert(x).contains(e) implies r
                .to_set()
                .contains(e) by {
                if e == x {
                    assert(r[0] == e);
                } else {
                    let k = choose|k: int| 0 <= k < s.len() && s[k] == e;
                    assert(r[k + 1] == e);
                }
            }
        }
    }
}

/// Normalizing sorts, deduplicates, keeps exactly the names that were
/// there, and never lengthens the list.
pub proof fn lemma_norm_props(l: Seq<Seq<char>>)
    ensures
        strictly_sorted(norm_list(l)),
        norm_list(l).to_set() == l.to_set(),
        norm_list(l).len() <= l.len(),
        l.len() > 0 ==> norm_list(l).len() > 0,
    decreases l.len(),
{
    if l.len() > 0 {
        let rest = l.drop_first();
        lemma_norm_props(rest);
        lemma_insert_unique_props(l[0], norm_list(rest));
        assert(l.to_set() =~= rest.to_set().insert(l[0])) by {
            assert forall|e: Seq<char>| #[trigger] l.to_set().contains(e) implies rest
                .to_set()
                .insert(l[0])
                .contains(e) by {
                let k = choose|k: int| 0 <= k < l.len() && l[k] == e;
                if k > 0 {
                    assert(rest[k - 1] == e);
                }
            }
            assert forall|e: Seq<char>| #[trigger] rest.to_set().insert(l[0]).contains(
                e,
            ) implies l.to_set().contains(e) by {
                if e == l[0] {
                } else {
                    let k = choose|k: int| 0 <= k < rest.len() && rest[k] == e;
                    assert(l[k + 1] == e);
                }
            }
        }
    }
}

/// `insert_unique` in terms of the landing position: everything before
/// `pos` is smaller, and the element at `pos` (if any) is not.
pub proof fn lemma_insert_unique_at(x: Seq<char>, s: Seq<Seq<char>>, pos: int)
    requires
        0 <= pos <= s.len(),
        forall|j: int| 0 <= j < pos ==> lex_lt(#[trigger] s[j], x),
        pos < s.len() ==> !lex_lt(s[pos], x),
    ensures
        insert_unique(x, s) == (if pos < s.len() && s[pos] == x {
            s
        } else {
            s.subrange(0, pos).push(x) + s.skip(pos)
        }),
    decreases pos,
{
    if pos == 0 {
        if s.len() == 0 {
            assert(insert_unique(x, s) =~= s.subrange(0, 0).push(x) + s.skip(0));
        } else if s[0] == x {
        } else {
            assert(insert_unique(x, s) =~= s.subrange(0, 0).push(x) + s.skip(0));
        }
    } else {
        let rest = s.drop_first();
        assert(lex_lt(s[0], x));
        assert(s[0] != x) by {
            if s[0] == x {
                lemma_lex_irrefl_from(x, 0);
            }
        }
        assert forall|j: int| 0 <= j < pos - 1 implies lex_lt(#[trigger] rest[j], x) by {
            assert(rest[j] == s[j + 1]);
        }
        assert(pos - 1 < rest.len() ==> !lex_lt(rest[pos - 1], x)) by {
            if pos - 1 < rest.len() {
                assert(rest[pos - 1] == s[pos]);
            }
        }
        lemma_insert_unique_at(x, rest, pos - 1);
        if pos < s.len() && s[pos] == x {
            assert(rest[pos - 1] == x);
            assert(insert_unique(x, s) =~= s);
        } else {
            assert(insert_unique(x, s) =~= s.subrange(0, pos).push(x) + s.skip(pos)) by {
                assert(insert_unique(x, s) == seq![s[0]] + (rest.subrange(0, pos - 1).push(x)
                    + rest.skip(pos - 1)));
                assert forall|j: int|
                    0 <= j < s.len() + 1 implies (seq![s[0]] + (rest.subrange(0, pos - 1).push(x)
                    + rest.skip(pos - 1)))[j] == (s.subrange(0, pos).push(x) + s.skip(pos))[j] by {
                    if 0 < j < s.len() {
                        assert(rest[j - 1] == s[j]);
                    }
                }
            }
        }
    }
}

/// A list already sorted without duplicates is its own normal form.
pub proof fn lemma_norm_of_sorted(l: Seq<Seq<char>>)
    requires
        strictly_sorted(l),
    ensures
        norm_list(l) == l,
    decreases l.len(),
{
    if l.len() > 0 {
        let rest = l.drop_first();
        assert(strictly_sorted(rest)) by {
            assert forall|i: int, j: int| 0 <= i < j < rest.len() implies lex_lt(
                #[trigger] rest[i],
                #[trigger] rest[j],
            ) by {
                assert(l[i + 1] == rest[i] && l[j + 1] == rest[j]);
            }
        }
        lemma_norm_of_sorted(rest);
        if rest.len() == 0 {
            assert(insert_unique(l[0], rest) =~= l);
        } else {
            assert(lex_lt(l[0], rest[0])) by {
                assert(rest[0] == l[1]);
            }
            assert(!lex_lt(rest[0], l[0])) by {
                lemma_lex_asym(l[0], rest[0]);
            }
            assert(rest[0] != l[0]) by {
                if rest[0] == l[0] {
                    lemma_lex_irrefl_from(l[0], 0);
                }
            }
            assert(insert_unique(l[0], rest) =~= l);
        }
    }
}

/// The first position in a sorted list whose name is not less than `x`.
fn lower_bound(v: &Vec<String>, x: &str) -> (pos: usize)
    ensures
        pos <= v.deep_view().len(),
        forall|j: int| 0 <= j < pos ==> lex_lt(#[trigger] v.deep_view()[j], x@),
        pos < v.deep_view().len() ==> !lex_lt(v.deep_view()[pos as int], x@),
{
    let n = v.len();
    let mut pos: usize = 0;
    while pos < n
        invariant
            n == v@.len(),
            pos <= n,
            forall|j: int| 0 <= j < pos ==> lex_lt(#[trigger] v.deep_view()[j], x@),
        decreases n - pos,
    {
        if !lex_less(v[pos].as_str(), x) {
            return pos;
        }
        pos = pos + 1;
    }
    pos
}

/// Inserts `x` into a list in sorted position, skipping it when already
/// present.
fn insert_name(out: &mut Vec<String>, x: String)
    ensures
        final(out).deep_view() == insert_unique(x@, old(out).deep_view()),
{
    let ghost s = out.deep_view();
    let pos = lower_bound(out, x.as_str());
    proof {
        lemma_insert_unique_at(x@, s, pos as int);
    }
    if pos < out.len() && out[pos] == x {
        return ;
    }
    out.insert(pos, x);
    proof {
        assert(out.deep_view() =~= s.subrange(0, pos as int).push(x@) + s.skip(pos as int));
    }
}

/// The sorted, duplicate-free copy of a list of names.
pub(crate) fn normalize_names(v: &Vec<String>) -> (r: Vec<String>)
    ensures
        r.deep_view() == norm_list(v.deep_view()),
{
    let ghost dv = v.deep_view();
    let mut out: Vec<String> = Vec::new();
    let mut i: usize = v.len();
    proof {
        assert(dv.skip(i as int) =~= Seq::<Seq<char>>::empty());
    }
    while i > 0
        invariant
            dv == v.deep_view(),
            dv.len() == v@.len(),
            i <= v@.len(),
            out.deep_view() == norm_list(dv.skip(i as int)),
        decreases i,
    {
        i = i - 1;
        insert_name(&mut out, v[i].clone());
        proof {
            let tail = dv.skip(i as int);
            assert(tail[0] == dv[i as int]);
            assert(tail.drop_first() =~= dv.skip(i as int + 1));
            assert(norm_list(tail) == insert_unique(dv[i as int], norm_list(tail.drop_first())));
        }
    }
    proof {
        assert(dv.skip(0) =~= dv);
    }
    out
}

/// Mapping `entry_norm` keeps names and positions; filtering keeps the
/// keys unique.
pub proof fn lemma_optimize_spec_wf(g: GraphModel)
    requires
        distinct_keys(g),
    ensures
        distinct_keys(optimize_spec(g)),
{
    let m = g.map_values(entry_norm());
    assert(distinct_keys(m)) by {
        assert forall|i: int, j: int| 0 <= i < j < m.len() implies (#[trigger] m[i]).0
            != (#[trigger] m[j]).0 by {
            assert(m[i].0 == g[i].0 && m[j].0 == g[j].0);
        }
    }
    lemma_filter_distinct(m, entry_nonempty());
}

/// A subsequence produced by `filter` keeps pairwise-distinct names.
pub(crate) proof fn lemma_filter_distinct(s: GraphModel, pred: spec_fn((Seq<char>, Seq<Seq<char>>)) -> bool)
    requires
        distinct_keys(s),
    ensures
        distinct_keys(s.filter(pred)),
    decreases s.len(),
{
    reveal(Seq::filter);
    if s.len() > 0 {
        let dl = s.drop_last();
        assert(distinct_keys(dl)) by {
            assert forall|i: int, j: int| 0 <= i < j < dl.len() implies (#[trigger] dl[i]).0
                != (#[trigger] dl[j]).0 by {
                assert(s[i] == dl[i] && s[j] == dl[j]);
            }
        }
        lemma_filter_distinct(dl, pred);
        let f = s.filter(pred);
        if pred(s.last()) {
            assert(f == dl.filter(pred).push(s.last()));
            assert forall|i: int, j: int| 0 <= i < j < f.len() implies (#[trigger] f[i]).0
                != (#[trigger] f[j]).0 by {
                if j == f.len() - 1 {
                    let e = f[i];
                    assert(dl.filter(pred)[i] == e);
                    assert(dl.filter(pred).contains(e));
                    dl.lemma_filter_contains_rev(pred, e);
                    let k = choose|k: int| 0 <= k < dl.len() && dl[k] == e;
                    assert(s[k] == e);
                    assert(s[k].0 != s[s.len() - 1].0);
                } else {
                    assert(f[i] == dl.filter(pred)[i] && f[j] == dl.filter(pred)[j]);
                }
            }
        } else {
            assert(f == dl.filter(pred));
        }
    }
}

impl DependencyMap {
    /// Normalizes the store in place: sorts and deduplicates every
    /// dependency list (dropping each list's original insertion order),
    /// removes entries left empty, and reports how many duplicate edges
    /// were removed, clamped to the counter's range.
    pub fn optimize(&mut self) -> (removed: usize)
        requires
            old(self).wf(),
        ensures
            final(self).wf(),
            final(self)@ == optimize_spec(old(self)@),
            removed as int == capped_usize(removed_spec(old(self)@)),
    {
        let ghost g0 = self@;
        let mut out: Vec<(String, Vec<String>)> = Vec::new();
        let mut removed: usize = 0;
        let n = self.entry_count();
        let mut i: usize = 0;
        proof {
            assert(g0.take(0) =~= Seq::<(Seq<char>, Seq<Seq<char>>)>::empty());
            assert(out.deep_view() =~= optimize_spec(g0.take(0)));
        }
        while i < n
            invariant
                self.wf(),
                self@ == g0,
                n == g0.len(),
                i <= n,
                out.deep_view() =~= optimize_spec(g0.take(i as int)),
                removed as int == capped_usize(removed_spec(g0.take(i as int))),
            decreases n - i,
        {
            let ghost prefix = g0.take(i as int);
            proof {
                assert(g0.take(i as int + 1) =~= prefix.push(g0[i as int]));
                assert(g0.take(i as int + 1).drop_last() =~= prefix);
                assert(prefix.push(g0[i as int]).map_values(entry_norm()) =~= prefix.map_values(
                    entry_norm(),
                ).push(entry_norm()(g0[i as int])));
                prefix.map_values(entry_norm()).lemma_filter_push(
                    entry_norm()(g0[i as int]),
                    entry_nonempty(),
                );
                lemma_norm_props(g0[i as int].1);
            }
            let key = self.entry_key(i).clone();
            let list = self.entry_list(i);
            let orig_len = list.len();
            let normed = normalize_names(list);
            proof {
                assert(list.deep_view() == g0[i as int].1);
                assert(normed.deep_view() == norm_list(g0[i as int].1));
            }
            let dropped = orig_len - normed.len();
            if removed <= usize::MAX - dropped {
                removed = removed + dropped;
            } else {
                removed = usize::MAX;
            }
            if normed.len() > 0 {
                let ghost ob = out.deep_view();
                out.push((key, normed));
                proof {
                    assert(out.deep_view() =~= ob.push(entry_norm()(g0[i as int])));
                }
            } else {
                proof {
                    assert(norm_list(g0[i as int].1).len() == 0);
                }
            }
            i = i + 1;
        }
        proof {
            assert(g0.take(n as int) =~= g0);
            lemma_optimize_spec_wf(g0);
        }
        self.replace_entries(out);
        removed
    }
}

/// Normalization neither adds nor removes edges: it only collapses
/// duplicates.
pub proof fn lemma_optimize_edges(g: GraphModel)
    requires
        distinct_keys(g),
    ensures
        forall|x: Seq<char>, y: Seq<char>|
            is_edge(#[trigger] optimize_spec(g), x, y) <==> is_edge(g, x, y),
{
    broadcast use vstd::seq_lib::group_filter_ensures;

    let m = g.map_values(entry_norm());
    let o = optimize_spec(g);
    lemma_optimize_spec_wf(g);
    assert forall|x: Seq<char>, y: Seq<char>|
        is_edge(#[trigger] optimize_spec(g), x, y) <==> is_edge(g, x, y) by {
        lemma_edge_entry_iff(g, x, y);
        lemma_edge_entry_iff(o, x, y);
        if is_edge(o, x, y) {
            let e = choose|e: int|
                0 <= e < o.len() && (#[trigger] o[e]).0 == x && o[e].1.contains(y);
            assert(o.contains(o[e]));
            m.lemma_filter_contains_rev(entry_nonempty(), o[e]);
            let k = choose|k: int| 0 <= k < m.len() && m[k] == o[e];
            assert(m[k] == (g[k].0, norm_list(g[k].1)));
            lemma_norm_props(g[k].1);
            assert(norm_list(g[k].1).to_set().contains(y));
            assert(g[k].1.to_set().contains(y));
            assert(g[k].0 == x && g[k].1.contains(y));
        }
        if is_edge(g, x, y) {
            let e = choose|e: int|
                0 <= e < g.len() && (#[trigger] g[e]).0 == x && g[e].1.contains(y);
            lemma_norm_props(g[e].1);
            assert(m[e] == (g[e].0, norm_list(g[e].1)));
            assert(g[e].1.to_set().contains(y));
            assert(norm_list(g[e].1).contains(y));
            assert(norm_list(g[e].1).len() > 0);
            assert(entry_nonempty()(m[e]));
            m.lemma_filter_contains(entry_nonempty(), e);
            assert(o.contains(m[e]));
            let j = choose|j: int| 0 <= j < o.len() && o[j] == m[e];
            assert(o[j].0 == x && o[j].1.contains(y));
        }
    }
}

/// Law: normalizing is idempotent.  A second pass changes nothing and
/// removes zero entries, and after one pass every list is strictly
/// sorted with no duplicates and no entry is empty.
pub proof fn lemma_optimize_idempotent(g: GraphModel)
    ensures
        optimize_spec(optimize_spec(g)) == optimize_spec(g),
        removed_spec(optimize_spec(g)) == 0,
        forall|i: int|
            0 <= i < optimize_spec(g).len() ==> strictly_sorted(
                (#[trigger] optimize_spec(g)[i]).1,
            ) && optimize_spec(g)[i].1.len() > 0,
{
    broadcast use vstd::seq_lib::group_filter_ensures;

    let g1 = optimize_spec(g);
    let m = g.map_values(entry_norm());
    assert forall|i: int| 0 <= i < g1.len() implies strictly_sorted((#[trigger] g1[i]).1)
        && g1[i].1.len() > 0 by {
        assert(entry_nonempty()(g1[i]));
        assert(g1.contains(g1[i]));
        m.lemma_filter_contains_rev(entry_nonempty(), g1[i]);
        let k = choose|k: int| 0 <= k < m.len() && m[k] == g1[i];
        assert(m[k].1 == norm_list(g[k].1));
        lemma_norm_props(g[k].1);
    }
    assert forall|i: int| 0 <= i < g1.len() implies #[trigger] norm_list(g1[i].1) == g1[i].1 by {
        lemma_norm_of_sorted(g1[i].1);
    }
    assert(g1.map_values(entry_norm()) =~= g1) by {
        assert forall|i: int| 0 <= i < g1.len() implies g1.map_values(entry_norm())[i] == g1[i] by {
            assert(norm_list(g1[i].1) == g1[i].1);
        }
    }
    lemma_filter_all_kept(g1, entry_nonempty());
    lemma_removed_zero(g1);
}

/// Filtering keeps everything when every element passes.
proof fn lemma_filter_all_kept(s: GraphModel, pred: spec_fn((Seq<char>, Seq<Seq<char>>)) -> bool)
    requires
        forall|i: int| 0 <= i < s.len() ==> pred(#[trigger] s[i]),
    ensures
        s.filter(pred) == s,
    decreases s.len(),
{
    reveal(Seq::filter);
    if s.len() > 0 {
        let dl = s.drop_last();
        lemma_filter_all_kept(dl, pred);
        assert(pred(s.last()));
        assert(s.filter(pred) =~= s);
    }
}

/// A store whose lists are all in normal form has nothing to remove.
proof fn lemma_removed_zero(s: GraphModel)
    requires
        forall|i: int| 0 <= i < s.len() ==> #[trigger] norm_list(s[i].1) == s[i].1,
    ensures
        removed_spec(s) == 0,
    decreases s.len(),
{
    if s.len() > 0 {
        let dl = s.drop_last();
        assert forall|i: int| 0 <= i < dl.len() implies #[trigger] norm_list(dl[i].1)
            == dl[i].1 by {
            assert(dl[i] == s[i]);
        }
        lemma_removed_zero(dl);
        assert(norm_list(s.last().1) == s.last().1) by {
            assert(s.last() == s[s.len() - 1]);
        }
    }
}

} // verus!
