//! Lightweight consistency checks: self-loops, cycles, and empty-list
//! entries, reported as human-readable diagnostics, never as a failure.

use vstd::prelude::*;
use vstd::string::StringExecFns;

use crate::model::GraphModel;
use crate::reach::is_cycle;
use crate::store::{names_contain, DependencyMap};
use crate::text::{join_names, joined};

verus! {

broadcast use vstd::seq_lib::group_seq_properties;

/// The diagnostic for an asset that depends on itself.
pub open spec fn self_ref_msg(a: Seq<char>) -> Seq<char> {
    "Self-reference detected: "@ + a + " depends on itself"@
}

/// One self-loop diagnostic per entry whose list mentions its own name,
/// in entry order.
pub open spec fn self_ref_msgs(g: GraphModel) -> Seq<Seq<char>>
    decreases g.len(),
{
    if g.len() == 0 {
        Seq::<Seq<char>>::empty()
    } else {
        self_ref_msgs(g.drop_last()) + (if g.last().1.contains(g.last().0) {
            seq![self_ref_msg(g.last().0)]
        } else {
            Seq::<Seq<char>>::empty()
        })
    }
}

/// The diagnostic for one discovered cycle.
pub open spec fn cycle_msg(c: Seq<Seq<char>>) -> Seq<char> {
    "Circular dependency detected: "@ + joined(c, " -> "@)
}

/// The diagnostics of a list of cycles, in order.
pub open spec fn cycle_msgs(cs: Seq<Seq<Seq<char>>>) -> Seq<Seq<char>> {
    cs.map_values(|c: Seq<Seq<char>>| cycle_msg(c))
}

/// The line renders some genuine cycle of the store.
pub open spec fn is_cycle_diag(g: GraphModel, m: Seq<char>) -> bool {
    exists|c: Seq<Seq<char>>| is_cycle(g, c) && m == #[trigger] cycle_msg(c)
}

/// The diagnostic for an entry whose list is empty, a state normalization
/// is supposed to prevent.
pub open spec fn empty_msg(a: Seq<char>) -> Seq<char> {
    "Asset "@ + a + " has empty dependency list"@
}

/// One empty-list diagnostic per empty entry, in entry order.
pub open spec fn empty_msgs(g: GraphModel) -> Seq<Seq<char>>
    decreases g.len(),
{
    if g.len() == 0 {
        Seq::<Seq<char>>::empty()
    } else {
        empty_msgs(g.drop_last()) + (if g.last().1.len() == 0 {
            seq![empty_msg(g.last().0)]
        } else {
            Seq::<Seq<char>>::empty()
        })
    }
}

impl DependencyMap {
    /// Runs the consistency checks and returns their diagnostics: first
    /// one line per self-loop, then one line per discovered cycle, then
    /// one line per anomalous empty entry.  Never fails.
    pub fn validate(&self) -> (r: Vec<String>)
        requires
            self.wf(),
        ensures
            ({
                let sr = self_ref_msgs(self@);
                let em = empty_msgs(self@);
                let dv = r.deep_view();
                &&& dv.len() >= sr.len() + em.len()
                &&& dv.take(sr.len() as int) == sr
                &&& dv.skip(dv.len() - em.len()) == em
                &&& forall|k: int|
                    sr.len() <= k < dv.len() - em.len() ==> is_cycle_diag(self@, #[trigger] dv[k])
                &&& dv.len() == sr.len() + em.len() ==> forall|c: Seq<Seq<char>>|
                    !is_cycle(self@, c)
            }),
    {
        let ghost g = self@;
        let mut issues: Vec<String> = Vec::new();
        let n = self.entry_count();
        let mut i: usize = 0;
        proof {
            assert(g.take(0) =~= Seq::<(Seq<char>, Seq<Seq<char>>)>::empty());
            assert(issues.deep_view() =~= self_ref_msgs(g.take(0)));
        }
        while i < n
            invariant
                self.wf(),
                self@ == g,
                n == g.len(),
                i <= n,
                issues.deep_view() =~= self_ref_msgs(g.take(i as int)),
            decreases n - i,
        {
            let key = self.entry_key(i);
            proof {
                assert(g.take(i as int + 1).drop_last() =~= g.take(i as int));
                assert(g.take(i as int + 1).last() == g[i as int]);
            }
            if names_contain(self.entry_list(i), key.as_str()) {
                let mut msg = String::new();
                msg.append("Self-reference detected: ");
                msg.append(key.as_str());
                msg.append(" depends on itself");
                let ghost ib = issues.deep_view();
                issues.push(msg);
                proof {
                    assert(issues.deep_view() =~= ib.push(self_ref_msg(g[i as int].0)));
                    assert(issues.deep_view() =~= self_ref_msgs(g.take(i as int + 1)));
                }
            } else {
                proof {
                    assert(issues.deep_view() =~= self_ref_msgs(g.take(i as int + 1)));
                }
            }
            i = i + 1;
        }
        proof {
            assert(g.take(n as int) =~= g);
        }
        let ghost sr = self_ref_msgs(g);
        let cycles = self.detect_circular_dependencies();
        let ghost cdv = cycles.deep_view();
        let cn = cycles.len();
        let mut j: usize = 0;
        proof {
            assert(cdv.take(0) =~= Seq::<Seq<Seq<char>>>::empty());
            assert(issues.deep_view() =~= sr + cycle_msgs(cdv.take(0)));
        }
        while j < cn
            invariant
                sr == self_ref_msgs(g),
                cn == cycles@.len(),
                cdv == cycles.deep_view(),
                forall|t: int| 0 <= t < cdv.len() ==> is_cycle(g, #[trigger] cdv[t]),
                j <= cn,
                issues.deep_view() =~= sr + cycle_msgs(cdv.take(j as int)),
            decreases cn - j,
        {
            let mut msg = String::new();
            msg.append("Circular dependency detected: ");
            let tail = join_names(&cycles[j], " -> ");
            msg.append(tail.as_str());
            let ghost ib = issues.deep_view();
            issues.push(msg);
            proof {
                assert(issues.deep_view() =~= ib.push(cycle_msg(cdv[j as int])));
                assert(cycle_msgs(cdv.take(j as int + 1)) =~= cycle_msgs(cdv.take(j as int)).push(
                    cycle_msg(cdv[j as int]),
                ));
                assert(issues.deep_view() =~= sr + cycle_msgs(cdv.take(j as int + 1)));
            }
            j = j + 1;
        }
        proof {
            assert(cdv.take(cn as int) =~= cdv);
        }
        let ghost base = issues.deep_view();
        let mut e: usize = 0;
        proof {
            assert(g.take(0) =~= Seq::<(Seq<char>, Seq<Seq<char>>)>::empty());
            assert(issues.deep_view() =~= base + empty_msgs(g.take(0)));
        }
        while e < n
            invariant
                self.wf(),
                self@ == g,
                n == g.len(),
                e <= n,
                base.len() >= self_ref_msgs(g).len(),
                issues.deep_view() =~= base + empty_msgs(g.take(e as int)),
            decreases n - e,
        {
            proof {
                assert(g.take(e as int + 1).drop_last() =~= g.take(e as int));
                assert(g.take(e as int + 1).last() == g[e as int]);
            }
            if self.entry_list(e).len() == 0 {
                let key = self.entry_key(e);
                let mut msg = String::new();
                msg.append("Asset ");
                msg.append(key.as_str());
                msg.append(" has empty dependency list");
                let ghost ib = issues.deep_view();
                issues.push(msg);
                proof {
                    assert(issues.deep_view() =~= ib.push(empty_msg(g[e as int].0)));
                    assert(issues.deep_view() =~= base + empty_msgs(g.take(e as int + 1)));
                }
            } else {
                proof {
                    assert(issues.deep_view() =~= base + empty_msgs(g.take(e as int + 1)));
                }
            }
            e = e + 1;
        }
        proof {
            assert(g.take(n as int) =~= g);
            let em = empty_msgs(g);
            let dv = issues.deep_view();
            assert(base =~= sr + cycle_msgs(cdv));
            assert(dv =~= base + em);
            assert(dv.take(sr.len() as int) =~= sr);
            assert(dv.skip(dv.len() - em.len()) =~= em);
            if dv.len() == sr.len() + em.len() {
                assert(cdv.len() == 0);
                assert(cycles.deep_view().len() == 0);
            }
            assert forall|k: int|
                sr.len() <= k < dv.len() - em.len() implies is_cycle_diag(
                self@,
                #[trigger] dv[k],
            ) by {
                let c = cdv[k - sr.len()];
                assert(dv[k] == cycle_msgs(cdv)[k - sr.len()]);
                assert(cycle_msgs(cdv)[k - sr.len()] == cycle_msg(c));
                assert(is_cycle(self@, c) && dv[k] == cycle_msg(c));
            }
        }
        issues
    }
}

} // verus!
