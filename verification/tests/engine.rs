//! End-to-end tests of the dependency graph engine.

use asset_deps::export::ExportError;
use asset_deps::preview::supports_preview;
use asset_deps::report::generate_markdown_report;
use asset_deps::setops::{filter_by_asset_type, merge_dependency_maps};
use asset_deps::store::DependencyMap;

fn named(names: &[&str]) -> Vec<String> {
    names.iter().map(|n| n.to_string()).collect()
}

#[test]
fn new_store_is_empty() {
    let m = DependencyMap::new();
    assert_eq!(m.get_dependencies("anything"), Vec::<String>::new());
    assert_eq!(m.get_reverse_dependencies("anything"), Vec::<String>::new());
    assert_eq!(m.detect_circular_dependencies(), Vec::<Vec<String>>::new());
}

#[test]
fn default_store_is_empty() {
    let m = DependencyMap::default();
    assert_eq!(m.get_dependencies("A"), Vec::<String>::new());
}

#[test]
fn edge_round_trip() {
    let mut m = DependencyMap::new();
    m.add_dependency("A", "B");
    assert!(m.get_dependencies("A").contains(&"B".to_string()));
    assert!(m.get_reverse_dependencies("B").contains(&"A".to_string()));
}

#[test]
fn add_keeps_duplicates_and_order() {
    let mut m = DependencyMap::new();
    m.add_dependency("A", "C");
    m.add_dependency("A", "B");
    m.add_dependency("A", "B");
    assert_eq!(m.get_dependencies("A"), named(&["C", "B", "B"]));
}

#[test]
fn remove_dependency_removes_all_occurrences() {
    let mut m = DependencyMap::new();
    m.add_dependency("A", "B");
    m.add_dependency("A", "C");
    m.add_dependency("A", "B");
    m.remove_dependency("A", "B");
    assert_eq!(m.get_dependencies("A"), named(&["C"]));
}

#[test]
fn remove_dependency_drops_emptied_entry() {
    let mut m = DependencyMap::new();
    m.add_dependency("A", "B");
    m.remove_dependency("A", "B");
    assert_eq!(m.get_dependencies("A"), Vec::<String>::new());
    assert_eq!(m.export_to_csv(), "Asset,Dependency\n");
}

#[test]
fn reverse_dependencies_in_entry_order() {
    let mut m = DependencyMap::new();
    m.add_dependency("A", "B");
    m.add_dependency("C", "B");
    m.add_dependency("D", "X");
    assert_eq!(m.get_reverse_dependencies("B"), named(&["A", "C"]));
}

#[test]
fn closure_first_discovery_order() {
    let mut m = DependencyMap::new();
    m.add_dependency("A", "B");
    m.add_dependency("A", "C");
    m.add_dependency("B", "D");
    m.add_dependency("C", "D");
    assert_eq!(m.get_all_dependencies("A"), named(&["B", "D", "C"]));
}

#[test]
fn closure_includes_dangling_targets() {
    let mut m = DependencyMap::new();
    m.add_dependency("A", "B");
    assert_eq!(m.get_all_dependencies("A"), named(&["B"]));
}

#[test]
fn closure_is_safe_on_cycles() {
    let mut m = DependencyMap::new();
    m.add_dependency("A", "B");
    m.add_dependency("B", "A");
    assert_eq!(m.get_all_dependencies("A"), named(&["B", "A"]));
}

#[test]
fn tree_depth_zero_is_single_leaf() {
    let mut m = DependencyMap::new();
    m.add_dependency("A", "B");
    let t = m.build_dependency_tree("A", 0);
    assert_eq!(t.asset, "A");
    assert_eq!(t.depth, 0);
    assert!(t.dependencies.is_empty());
    assert!(!t.is_circular);
}

#[test]
fn tree_diamond_repeats_shared_subgraph() {
    let mut m = DependencyMap::new();
    m.add_dependency("A", "B");
    m.add_dependency("A", "C");
    m.add_dependency("B", "D");
    m.add_dependency("C", "D");
    let t = m.build_dependency_tree("A", 2);
    assert_eq!(t.dependencies.len(), 2);
    let b = &t.dependencies[0];
    let c = &t.dependencies[1];
    assert_eq!(b.asset, "B");
    assert_eq!(c.asset, "C");
    assert_eq!(b.dependencies.len(), 1);
    assert_eq!(c.dependencies.len(), 1);
    assert_eq!(b.dependencies[0].asset, "D");
    assert_eq!(c.dependencies[0].asset, "D");
    assert!(!b.dependencies[0].is_circular);
    assert!(!c.dependencies[0].is_circular);
    assert_eq!(b.dependencies[0].depth, 2);
}

#[test]
fn tree_flags_cycle_on_current_path() {
    let mut m = DependencyMap::new();
    m.add_dependency("A", "A");
    let t = m.build_dependency_tree("A", 3);
    assert!(!t.is_circular);
    assert_eq!(t.dependencies.len(), 1);
    assert!(t.dependencies[0].is_circular);
    assert_eq!(t.dependencies[0].asset, "A");
    assert_eq!(t.dependencies[0].depth, 1);
    assert!(t.dependencies[0].dependencies.is_empty());
}

#[test]
fn detects_three_cycle() {
    let mut m = DependencyMap::new();
    m.add_dependency("A", "B");
    m.add_dependency("B", "C");
    m.add_dependency("C", "A");
    let cycles = m.detect_circular_dependencies();
    assert!(!cycles.is_empty());
    assert_eq!(cycles[0], named(&["A", "B", "C"]));
}

#[test]
fn no_cycle_in_acyclic_store() {
    let mut m = DependencyMap::new();
    m.add_dependency("A", "B");
    m.add_dependency("B", "C");
    assert!(m.detect_circular_dependencies().is_empty());
}

#[test]
fn max_depth_counts_chain() {
    let mut m = DependencyMap::new();
    m.add_dependency("A", "B");
    m.add_dependency("B", "C");
    assert_eq!(m.calculate_max_depth("A"), 3);
    assert_eq!(m.calculate_max_depth("B"), 2);
    assert_eq!(m.calculate_max_depth("C"), 1);
    assert_eq!(m.calculate_max_depth("missing"), 1);
}

#[test]
fn max_depth_does_not_inflate_on_cycles() {
    let mut m = DependencyMap::new();
    m.add_dependency("A", "B");
    m.add_dependency("B", "A");
    assert_eq!(m.calculate_max_depth("A"), 2);
}

#[test]
fn orphan_detection_uses_roster() {
    let mut m = DependencyMap::new();
    m.add_dependency("A", "B");
    let roster = named(&["A", "B", "X"]);
    assert_eq!(m.find_orphaned_assets(&roster), named(&["X"]));
}

#[test]
fn most_referenced_ranks_by_count() {
    let mut m = DependencyMap::new();
    m.add_dependency("A", "B");
    m.add_dependency("A", "C");
    m.add_dependency("D", "B");
    let top = m.get_most_referenced_assets(2);
    assert!(top.len() <= 2);
    assert_eq!(top[0], ("B".to_string(), 2));
    assert_eq!(top[1], ("C".to_string(), 1));
}

#[test]
fn most_referenced_truncates_to_limit() {
    let mut m = DependencyMap::new();
    m.add_dependency("A", "B");
    m.add_dependency("A", "C");
    m.add_dependency("A", "D");
    assert_eq!(m.get_most_referenced_assets(1).len(), 1);
    assert_eq!(m.get_most_referenced_assets(0).len(), 0);
}

#[test]
fn most_referenced_counts_duplicate_edges() {
    let mut m = DependencyMap::new();
    m.add_dependency("A", "B");
    m.add_dependency("A", "B");
    let top = m.get_most_referenced_assets(10);
    assert_eq!(top, vec![("B".to_string(), 2)]);
}

#[test]
fn statistics_snapshot_fields() {
    let mut m = DependencyMap::new();
    m.add_dependency("A", "B");
    m.add_dependency("B", "C");
    let roster = named(&["A", "B", "C", "X"]);
    let stats = m.generate_statistics(&roster);
    assert_eq!(stats.total_dependencies, 2);
    assert_eq!(stats.max_depth, 3);
    assert!(stats.circular_references.is_empty());
    assert_eq!(stats.orphaned_assets, named(&["X"]));
    assert_eq!(stats.most_referenced.len(), 2);
}

#[test]
fn analyze_composes_all_views() {
    let mut m = DependencyMap::new();
    m.add_dependency("A", "B");
    m.add_dependency("C", "A");
    let roster = named(&["A", "B", "C"]);
    let a = m.analyze_asset_dependencies("A", &roster);
    assert_eq!(a.asset_name, "A");
    assert_eq!(a.direct_dependencies, named(&["B"]));
    assert_eq!(a.reverse_dependencies, named(&["C"]));
    assert_eq!(a.dependency_tree.asset, "A");
    assert_eq!(a.dependency_tree.dependencies.len(), 1);
    assert_eq!(a.statistics.total_dependencies, 2);
}

#[test]
fn optimize_sorts_dedups_and_counts() {
    let mut m = DependencyMap::new();
    m.add_dependency("A", "C");
    m.add_dependency("A", "B");
    m.add_dependency("A", "B");
    let removed = m.optimize();
    assert_eq!(removed, 1);
    assert_eq!(m.get_dependencies("A"), named(&["B", "C"]));
}

#[test]
fn optimize_twice_changes_nothing() {
    let mut m = DependencyMap::new();
    m.add_dependency("A", "B");
    m.add_dependency("A", "B");
    m.add_dependency("B", "D");
    let first = m.optimize();
    assert_eq!(first, 1);
    let before = m.export_to_csv();
    let second = m.optimize();
    assert_eq!(second, 0);
    assert_eq!(m.export_to_csv(), before);
}

#[test]
fn merge_unions_and_normalizes() {
    let mut a = DependencyMap::new();
    a.add_dependency("A", "B");
    let mut b = DependencyMap::new();
    b.add_dependency("A", "B");
    let merged = merge_dependency_maps(vec![a, b]);
    assert_eq!(merged.get_dependencies("A"), named(&["B"]));
    assert_eq!(merged.export_to_csv(), "Asset,Dependency\nA,B\n");
}

#[test]
fn merge_combines_different_edges() {
    let mut a = DependencyMap::new();
    a.add_dependency("A", "B");
    let mut b = DependencyMap::new();
    b.add_dependency("C", "D");
    let merged = merge_dependency_maps(vec![a, b]);
    assert_eq!(merged.get_dependencies("A"), named(&["B"]));
    assert_eq!(merged.get_dependencies("C"), named(&["D"]));
}

#[test]
fn filter_matches_names_case_insensitively() {
    let mut m = DependencyMap::new();
    m.add_dependency("Character_Hero", "Mesh");
    m.add_dependency("Weapon_Sword", "Texture");
    let kept = filter_by_asset_type(&m, &["CHAR"]);
    assert_eq!(kept.get_dependencies("Character_Hero"), named(&["Mesh"]));
    assert_eq!(kept.get_dependencies("Weapon_Sword"), Vec::<String>::new());
}

#[test]
fn filter_keeps_lists_verbatim() {
    let mut m = DependencyMap::new();
    m.add_dependency("Audio_Theme", "Cue");
    m.add_dependency("Audio_Theme", "Cue");
    let kept = filter_by_asset_type(&m, &["audio"]);
    assert_eq!(kept.get_dependencies("Audio_Theme"), named(&["Cue", "Cue"]));
}

#[test]
fn validate_reports_self_reference_and_cycle() {
    let mut m = DependencyMap::new();
    m.add_dependency("A", "A");
    let issues = m.validate();
    assert_eq!(
        issues,
        named(&[
            "Self-reference detected: A depends on itself",
            "Circular dependency detected: A",
        ])
    );
}

#[test]
fn validate_renders_cycle_chain() {
    let mut m = DependencyMap::new();
    m.add_dependency("A", "B");
    m.add_dependency("B", "A");
    let issues = m.validate();
    assert_eq!(issues, named(&["Circular dependency detected: A -> B"]));
}

#[test]
fn validate_is_silent_on_clean_store() {
    let mut m = DependencyMap::new();
    m.add_dependency("A", "B");
    assert!(m.validate().is_empty());
}

#[test]
fn markdown_report_exact_text() {
    let mut m = DependencyMap::new();
    m.add_dependency("A", "B");
    let roster = named(&["A", "B"]);
    let report = generate_markdown_report(&m, &roster);
    assert_eq!(
        report,
        "# Asset Dependency Report\n\n\
         - **Total Dependencies**: 1\n\
         - **Maximum Depth**: 2\n\
         - **Circular References**: 0\n\
         - **Orphaned Assets**: 0\n\n\
         ## Most Referenced Assets\n\n\
         - **B**: 1 references\n\n"
    );
}

#[test]
fn markdown_report_lists_cycles_and_orphans() {
    let mut m = DependencyMap::new();
    m.add_dependency("A", "B");
    m.add_dependency("B", "A");
    let roster = named(&["A", "B", "X"]);
    let report = generate_markdown_report(&m, &roster);
    assert!(report.contains("## Circular Dependencies\n\n- A -> B\n"));
    assert!(report.contains("## Orphaned Assets\n\n- X\n"));
}

#[test]
fn remove_on_missing_asset_is_a_no_op() {
    let mut m = DependencyMap::new();
    m.add_dependency("A", "B");
    m.remove_dependency("X", "B");
    m.remove_dependency("A", "X");
    assert_eq!(m.get_dependencies("A"), named(&["B"]));
}

#[test]
fn most_referenced_of_empty_store_is_empty() {
    let m = DependencyMap::new();
    assert!(m.get_most_referenced_assets(10).is_empty());
}

#[test]
fn statistics_of_empty_roster() {
    let mut m = DependencyMap::new();
    m.add_dependency("A", "B");
    let stats = m.generate_statistics(&[]);
    assert_eq!(stats.max_depth, 0);
    assert_eq!(stats.total_dependencies, 1);
    assert!(stats.orphaned_assets.is_empty());
}

#[test]
fn merge_of_no_stores_is_empty() {
    let merged = merge_dependency_maps(Vec::new());
    assert_eq!(merged.export_to_csv(), "Asset,Dependency\n");
}

#[test]
fn filter_with_no_match_is_empty() {
    let mut m = DependencyMap::new();
    m.add_dependency("Character", "Mesh");
    let kept = filter_by_asset_type(&m, &["weapon"]);
    assert_eq!(kept.export_to_csv(), "Asset,Dependency\n");
}

#[test]
fn analyze_tree_is_capped_at_five_levels() {
    let mut m = DependencyMap::new();
    m.add_dependency("N1", "N2");
    m.add_dependency("N2", "N3");
    m.add_dependency("N3", "N4");
    m.add_dependency("N4", "N5");
    m.add_dependency("N5", "N6");
    m.add_dependency("N6", "N7");
    let roster = named(&["N1"]);
    let a = m.analyze_asset_dependencies("N1", &roster);
    let mut node = &a.dependency_tree;
    let mut levels = 0;
    while !node.dependencies.is_empty() {
        node = &node.dependencies[0];
        levels += 1;
    }
    assert_eq!(levels, 5);
    assert!(!node.is_circular);
}

#[test]
fn response_wraps_a_store() {
    let mut m = DependencyMap::new();
    m.add_dependency("A", "B");
    let response = asset_deps::stats::DependencyResponse { dependencies: m.clone() };
    assert_eq!(
        response.dependencies.get_dependencies("A"),
        named(&["B"])
    );
}

#[test]
fn preview_support_by_asset_type() {
    for t in [
        "texture",
        "image",
        "audio",
        "sound",
        "mesh",
        "static_mesh",
        "skeletal_mesh",
        "text",
        "script",
        "config",
    ] {
        assert!(supports_preview(t));
    }
    assert!(!supports_preview("level"));
    assert!(!supports_preview(""));
    assert!(!supports_preview("Texture"));
}

#[test]
fn unsupported_format_is_refused() {
    let m = DependencyMap::new();
    assert_eq!(m.export_to_format("xml"), Err(ExportError::UnsupportedFormat));
    assert_eq!(m.export_to_format(""), Err(ExportError::UnsupportedFormat));
}
