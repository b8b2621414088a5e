//! Render options and margin markers.

use x_diff_rs::print::{GutterKind, PrintTreeDiffOptions, PrintTreeOptions};

#[test]
fn gutter_symbols() {
    assert_eq!(GutterKind::Plain.symbol(), "");
    assert_eq!(GutterKind::Blank.symbol(), " ");
    assert_eq!(GutterKind::Add.symbol(), "+");
    assert_eq!(GutterKind::Delete.symbol(), "-");
}

#[test]
fn tree_options_defaults_and_builders() {
    let d = PrintTreeOptions::default();
    assert_eq!(d.indent, 3);
    assert!(!d.with_id);
    assert!(!d.with_namespace);
    let o = PrintTreeOptions::default().with_indent(5).with_node_id();
    assert_eq!(o.indent, 5);
    assert!(o.with_id);
    let o = PrintTreeOptions::default().with_node_id().with_indent(1);
    assert_eq!(o.indent, 1);
    assert!(o.with_id);
}

#[test]
fn tree_diff_options_defaults_and_builders() {
    let d = PrintTreeDiffOptions::default();
    assert_eq!(d.indent, 3);
    assert!(d.color);
    assert!(!d.with_namespace);
    let o = PrintTreeDiffOptions::default().indent(4).with_color(false);
    assert_eq!(o.indent, 4);
    assert!(!o.color);
    let o = PrintTreeDiffOptions::default().with_color(true).indent(2);
    assert_eq!(o.indent, 2);
    assert!(o.color);
}
