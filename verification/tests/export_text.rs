//! Tests of the exact export texts: graph description, tabular rows, and
//! structured serialization.

use asset_deps::export::ExportError;
use asset_deps::store::DependencyMap;

#[test]
fn dot_export_exact_text() {
    let mut m = DependencyMap::new();
    m.add_dependency("A", "B");
    let dot = m.export_to_dot();
    assert_eq!(
        dot,
        "digraph AssetDependencies {\n\
         \x20   rankdir=LR;\n\
         \x20   node [shape=box, style=rounded];\n\n\
         \x20   \"A\";\n\
         \x20   \"B\";\n\n\
         \x20   \"A\" -> \"B\";\n\
         }\n"
    );
    assert!(dot.starts_with("digraph AssetDependencies {"));
    assert!(dot.contains("\"A\" -> \"B\";"));
    assert!(dot.contains("    \"A\";"));
    assert!(dot.contains("    \"B\";"));
}

#[test]
fn dot_export_keeps_duplicate_edges() {
    let mut m = DependencyMap::new();
    m.add_dependency("A", "B");
    m.add_dependency("A", "B");
    let dot = m.export_to_dot();
    assert_eq!(dot.matches("\"A\" -> \"B\";").count(), 2);
    assert_eq!(dot.matches("    \"B\";").count(), 1);
}

#[test]
fn csv_export_exact_text() {
    let mut m = DependencyMap::new();
    m.add_dependency("A", "B");
    m.add_dependency("A", "C");
    m.add_dependency("D", "B");
    assert_eq!(m.export_to_csv(), "Asset,Dependency\nA,B\nA,C\nD,B\n");
}

#[test]
fn json_export_pretty_object() {
    let mut m = DependencyMap::new();
    m.add_dependency("A", "B");
    let out = m.export_to_format("json").unwrap();
    assert_eq!(out, "{\n  \"A\": [\n    \"B\"\n  ]\n}");
}

#[test]
fn json_export_sorts_keys() {
    let mut m = DependencyMap::new();
    m.add_dependency("B", "X");
    m.add_dependency("A", "Y");
    let out = m.export_to_format("json").unwrap();
    let a_at = out.find("\"A\"").unwrap();
    let b_at = out.find("\"B\"").unwrap();
    assert!(a_at < b_at);
}

#[test]
fn json_export_empty_store() {
    let m = DependencyMap::new();
    assert_eq!(m.export_to_format("json").unwrap(), "{}");
}

#[test]
fn format_dispatch_is_case_insensitive() {
    let mut m = DependencyMap::new();
    m.add_dependency("A", "B");
    let lower = m.export_to_format("dot").unwrap();
    let upper = m.export_to_format("DOT").unwrap();
    let mixed = m.export_to_format("Dot").unwrap();
    assert_eq!(lower, upper);
    assert_eq!(lower, mixed);
    assert!(m.export_to_format("Json").is_ok());
    assert!(m.export_to_format("CSV").is_ok());
}

#[test]
fn yaml_export_is_a_placeholder() {
    let m = DependencyMap::new();
    assert_eq!(
        m.export_to_format("yaml").unwrap(),
        "YAML export not implemented yet"
    );
    assert_eq!(
        m.export_to_format("YAML").unwrap(),
        "YAML export not implemented yet"
    );
}

#[test]
fn format_dispatch_matches_direct_exports() {
    let mut m = DependencyMap::new();
    m.add_dependency("A", "B");
    assert_eq!(m.export_to_format("dot").unwrap(), m.export_to_dot());
    assert_eq!(m.export_to_format("csv").unwrap(), m.export_to_csv());
    assert_eq!(m.export_to_format("bmp"), Err(ExportError::UnsupportedFormat));
}
