//! A human-readable dependency report rendered from the statistics
//! snapshot.

use vstd::prelude::*;
use vstd::string::StringExecFns;

use crate::stats::{names_view, statistics_ok, DependencyStatistics};
use crate::store::DependencyMap;
use crate::text::{dec_digits, join_names, joined, push_dec};

verus! {

broadcast use vstd::seq_lib::group_seq_properties;

/// One ranking line of the report.
pub open spec fn md_ref_line(name: Seq<char>, count: usize) -> Seq<char> {
    "- **"@ + name + "**: "@ + dec_digits(count as nat) + " references\n"@
}

/// The ranking lines, in order.
pub open spec fn md_ref_lines(s: Seq<(Seq<char>, usize)>) -> Seq<char>
    decreases s.len(),
{
    if s.len() == 0 {
        Seq::<char>::empty()
    } else {
        md_ref_lines(s.drop_last()) + md_ref_line(s.last().0, s.last().1)
    }
}

/// One cycle line of the report.
pub open spec fn md_cycle_line(c: Seq<Seq<char>>) -> Seq<char> {
    "- "@ + joined(c, " -> "@) + "\n"@
}

/// The cycle lines, in order.
pub open spec fn md_cycle_lines(cs: Seq<Seq<Seq<char>>>) -> Seq<char>
    decreases cs.len(),
{
    if cs.len() == 0 {
        Seq::<char>::empty()
    } else {
        md_cycle_lines(cs.drop_last()) + md_cycle_line(cs.last())
    }
}

/// One orphan line of the report.
pub open spec fn md_orphan_line(a: Seq<char>) -> Seq<char> {
    "- "@ + a + "\n"@
}

/// The orphan lines, in order.
pub open spec fn md_orphan_lines(os: Seq<Seq<char>>) -> Seq<char>
    decreases os.len(),
{
    if os.len() == 0 {
        Seq::<char>::empty()
    } else {
        md_orphan_lines(os.drop_last()) + md_orphan_line(os.last())
    }
}

/// The whole report: headline counts, then one optional section each for
/// the most-referenced ranking, the discovered cycles, and the orphans.
pub open spec fn markdown_text(st: DependencyStatistics) -> Seq<char> {
    "# Asset Dependency Report\n\n"@ + "- **Total Dependencies**: "@ + dec_digits(
        st.total_dependencies as nat,
    ) + "\n"@ + "- **Maximum Depth**: "@ + dec_digits(st.max_depth as nat) + "\n"@
        + "- **Circular References**: "@ + dec_digits(st.circular_references@.len()) + "\n"@
        + "- **Orphaned Assets**: "@ + dec_digits(st.orphaned_assets@.len()) + "\n\n"@ + (if st
        .most_referenced@.len() > 0 {
        "## Most Referenced Assets\n\n"@ + md_ref_lines(st.most_referenced.deep_view()) + "\n"@
    } else {
        Seq::<char>::empty()
    }) + (if st.circular_references@.len() > 0 {
        "## Circular Dependencies\n\n"@ + md_cycle_lines(st.circular_references.deep_view())
            + "\n"@
    } else {
        Seq::<char>::empty()
    }) + (if st.orphaned_assets@.len() > 0 {
        "## Orphaned Assets\n\n"@ + md_orphan_lines(st.orphaned_assets.deep_view())
    } else {
        Seq::<char>::empty()
    })
}

/// Renders the statistics snapshot as the report text.
pub fn render_markdown(st: &DependencyStatistics) -> (r: String)
    ensures
        r@ == markdown_text(*st),
{
    let mut r = String::new();
    r.append("# Asset Dependency Report\n\n");
    r.append("- **Total Dependencies**: ");
    push_dec(&mut r, st.total_dependencies);
    r.append("\n");
    r.append("- **Maximum Depth**: ");
    push_dec(&mut r, st.max_depth as usize);
    r.append("\n");
    r.append("- **Circular References**: ");
    push_dec(&mut r, st.circular_references.len());
    r.append("\n");
    r.append("- **Orphaned Assets**: ");
    push_dec(&mut r, st.orphaned_assets.len());
    r.append("\n\n");
    let ghost head = "# Asset Dependency Report\n\n"@ + "- **Total Dependencies**: "@
        + dec_digits(st.total_dependencies as nat) + "\n"@ + "- **Maximum Depth**: "@
        + dec_digits(st.max_depth as nat) + "\n"@ + "- **Circular References**: "@ + dec_digits(
        st.circular_references@.len(),
    ) + "\n"@ + "- **Orphaned Assets**: "@ + dec_digits(st.orphaned_assets@.len()) + "\n\n"@;
    proof {
        assert(st.max_depth as usize as nat == st.max_depth as nat);
        assert(r@ =~= head);
    }
    if st.most_referenced.len() > 0 {
        r.append("## Most Referenced Assets\n\n");
        let ghost mrb = head + "## Most Referenced Assets\n\n"@;
        let ghost mv = st.most_referenced.deep_view();
        proof {
            assert(mv.take(0) =~= Seq::<(Seq<char>, usize)>::empty());
            assert(r@ =~= mrb + md_ref_lines(mv.take(0)));
        }
        let n = st.most_referenced.len();
        let mut i: usize = 0;
        while i < n
            invariant
                mv == st.most_referenced.deep_view(),
                mrb == head + "## Most Referenced Assets\n\n"@,
                n == st.most_referenced@.len(),
                i <= n,
                r@ =~= mrb + md_ref_lines(mv.take(i as int)),
            decreases n - i,
        {
            r.append("- **");
            r.append(st.most_referenced[i].0.as_str());
            r.append("**: ");
            push_dec(&mut r, st.most_referenced[i].1);
            r.append(" references\n");
            proof {
                assert(mv.take(i as int + 1).drop_last() =~= mv.take(i as int));
                assert(mv.take(i as int + 1).last() == mv[i as int]);
                assert(r@ =~= mrb + md_ref_lines(mv.take(i as int + 1)));
            }
            i = i + 1;
        }
        r.append("\n");
        proof {
            assert(mv.take(n as int) =~= mv);
            assert(r@ =~= head + ("## Most Referenced Assets\n\n"@ + md_ref_lines(mv) + "\n"@));
        }
    }
    let ghost mid1 = head + (if st.most_referenced@.len() > 0 {
        "## Most Referenced Assets\n\n"@ + md_ref_lines(st.most_referenced.deep_view()) + "\n"@
    } else {
        Seq::<char>::empty()
    });
    proof {
        assert(r@ =~= mid1);
    }
    if st.circular_references.len() > 0 {
        r.append("## Circular Dependencies\n\n");
        let ghost cb = mid1 + "## Circular Dependencies\n\n"@;
        let ghost cv = st.circular_references.deep_view();
        proof {
            assert(cv.take(0) =~= Seq::<Seq<Seq<char>>>::empty());
            assert(r@ =~= cb + md_cycle_lines(cv.take(0)));
        }
        let n = st.circular_references.len();
        let mut i: usize = 0;
        while i < n
            invariant
                cv == st.circular_references.deep_view(),
                cb == mid1 + "## Circular Dependencies\n\n"@,
                n == st.circular_references@.len(),
                i <= n,
                r@ =~= cb + md_cycle_lines(cv.take(i as int)),
            decreases n - i,
        {
            r.append("- ");
            let line = join_names(&st.circular_references[i], " -> ");
            r.append(line.as_str());
            r.append("\n");
            proof {
                assert(cv.take(i as int + 1).drop_last() =~= cv.take(i as int));
                assert(cv.take(i as int + 1).last() == cv[i as int]);
                assert(r@ =~= cb + md_cycle_lines(cv.take(i as int + 1)));
            }
            i = i + 1;
        }
        r.append("\n");
        proof {
            assert(cv.take(n as int) =~= cv);
            assert(r@ =~= mid1 + ("## Circular Dependencies\n\n"@ + md_cycle_lines(cv) + "\n"@));
        }
    }
    let ghost mid2 = mid1 + (if st.circular_references@.len() > 0 {
        "## Circular Dependencies\n\n"@ + md_cycle_lines(st.circular_references.deep_view())
            + "\n"@
    } else {
        Seq::<char>::empty()
    });
    proof {
        assert(r@ =~= mid2);
    }
    if st.orphaned_assets.len() > 0 {
        r.append("## Orphaned Assets\n\n");
        let ghost ob = mid2 + "## Orphaned Assets\n\n"@;
        let ghost ov = st.orphaned_assets.deep_view();
        proof {
            assert(ov.take(0) =~= Seq::<Seq<char>>::empty());
            assert(r@ =~= ob + md_orphan_lines(ov.take(0)));
        }
        let n = st.orphaned_assets.len();
        let mut i: usize = 0;
        while i < n
            invariant
                ov == st.orphaned_assets.deep_view(),
                ob == mid2 + "## Orphaned Assets\n\n"@,
                n == st.orphaned_assets@.len(),
                i <= n,
                r@ =~= ob + md_orphan_lines(ov.take(i as int)),
            decreases n - i,
        {
            r.append("- ");
            r.append(st.orphaned_assets[i].as_str());
            r.append("\n");
            proof {
                assert(ov.take(i as int + 1).drop_last() =~= ov.take(i as int));
                assert(ov.take(i as int + 1).last() == ov[i as int]);
                assert(r@ =~= ob + md_orphan_lines(ov.take(i as int + 1)));
            }
            i = i + 1;
        }
        proof {
            assert(ov.take(n as int) =~= ov);
        }
    }
    proof {
        assert(r@ =~= markdown_text(*st));
    }
    r
}

/// Renders a whole store, with the given roster, as the report text of
/// its statistics snapshot.
pub fn generate_markdown_report(map: &DependencyMap, all_assets: &[String]) -> (r: String)
    requires
        map.wf(),
    ensures
        exists|st: DependencyStatistics|
            statistics_ok(map@, names_view(all_assets@), st) && r@ == #[trigger] markdown_text(st),
{
    let stats = map.generate_statistics(all_assets);
    let r = render_markdown(&stats);
    proof {
        assert(statistics_ok(map@, names_view(all_assets@), stats) && r@ == markdown_text(stats));
    }
    r
}

} // verus!
