use fmt_toml::batch::{check_fails, should_write, total_changes};
use fmt_toml::classify::{classify_line, LineClass};
use fmt_toml::order::{expected_order, sorted_keys};
use fmt_toml::pipeline::{
    format_document, package_field_order, reorder_text, section_order, FormatError,
};
use fmt_toml::regroup::regroup_text;
use fmt_toml::table::{collapse_table_entries, reorder_keys, sort_table_in_place};

fn strings(v: &[&str]) -> Vec<String> {
    v.iter().map(|s| s.to_string()).collect()
}

fn table_of(doc: &toml_edit::DocumentMut, key: &str) -> toml_edit::Table {
    doc.get(key).and_then(|i| i.as_table()).cloned().expect("table")
}

fn keys(t: &toml_edit::Table) -> Vec<String> {
    t.iter().map(|(k, _)| k.to_string()).collect()
}

#[test]
fn classify_table_header() {
    assert_eq!(classify_line("[package]"), LineClass::Table { name: "package".to_string() });
    assert_eq!(
        classify_line("  [workspace.lints.clippy]   # lint levels"),
        LineClass::Table { name: "workspace.lints.clippy".to_string() }
    );
    assert_eq!(classify_line("[]"), LineClass::Table { name: String::new() });
}

#[test]
fn classify_quoted_header_names() {
    assert_eq!(
        classify_line("[target.'cfg(target_os = \"linux\")'.dependencies]"),
        LineClass::Table { name: "target.'cfg(target_os = \"linux\")'.dependencies".to_string() }
    );
    assert_eq!(
        classify_line("[target.\"cfg(any(unix, windows))\".dev-dependencies]"),
        LineClass::Table { name: "target.\"cfg(any(unix, windows))\".dev-dependencies".to_string() }
    );
    assert_eq!(classify_line("[\"a\", \"b\"]"), LineClass::Content);
    assert_eq!(classify_line("['open]"), LineClass::Content);
    assert_eq!(
        classify_line("[dependencies.\"a]b\"] # odd name"),
        LineClass::Table { name: "dependencies.\"a]b\"".to_string() }
    );
    assert_eq!(
        classify_line("[[bin.\"x]]y\"]]"),
        LineClass::ArrayTable { name: "bin.\"x]]y\"".to_string() }
    );
}

#[test]
fn regroup_moves_quoted_target_sections() {
    let input = "[target.'cfg(target_os = \"linux\")'.dependencies]\nlibc = \"0.2\"\n\n[package]\nname = \"x\"\n";
    let out = regroup_text(input, &section_order()).expect("order changes");
    assert_eq!(
        out,
        "[package]\nname = \"x\"\n\n[target.'cfg(target_os = \"linux\")'.dependencies]\nlibc = \"0.2\"\n"
    );
}

#[test]
fn classify_array_table_header() {
    assert_eq!(classify_line("[[bin]]"), LineClass::ArrayTable { name: "bin".to_string() });
    assert_eq!(
        classify_line("[[example]] # demo"),
        LineClass::ArrayTable { name: "example".to_string() }
    );
}

#[test]
fn classify_value_lines_as_content() {
    assert_eq!(classify_line("matrix = [[1,2],[3,4]]"), LineClass::Content);
    assert_eq!(classify_line("    [1, 2],"), LineClass::Content);
    assert_eq!(classify_line("[[1, 2], [3, 4]]"), LineClass::Content);
    assert_eq!(classify_line("[3, 4]"), LineClass::Content);
    assert_eq!(classify_line("{ level = \"warn\", priority = 1 }"), LineClass::Content);
    assert_eq!(classify_line("categories = ["), LineClass::Content);
    assert_eq!(classify_line("]"), LineClass::Content);
    assert_eq!(classify_line("[package] name = \"x\""), LineClass::Content);
    assert_eq!(classify_line("[[bin]"), LineClass::Content);
    assert_eq!(classify_line("# [package]"), LineClass::Content);
    assert_eq!(classify_line(""), LineClass::Content);
}

#[test]
fn canonical_section_order_of_keys() {
    let keys = strings(&["lints", "dependencies", "workspace", "package", "bin"]);
    assert_eq!(
        expected_order(&keys, &section_order()),
        strings(&["package", "bin", "dependencies", "lints", "workspace"])
    );
}

#[test]
fn canonical_package_field_order() {
    let keys = strings(&["publish", "version", "name", "edition", "readme"]);
    assert_eq!(
        expected_order(&keys, &package_field_order()),
        strings(&["name", "version", "edition", "readme", "publish"])
    );
}

#[test]
fn sort_is_byte_wise() {
    assert_eq!(
        sorted_keys(&strings(&["tokio", "anyhow", "serde"])),
        strings(&["anyhow", "serde", "tokio"])
    );
    assert_eq!(sorted_keys(&strings(&["a", "Z", "b", "B"])), strings(&["B", "Z", "a", "b"]));
    assert_eq!(sorted_keys(&strings(&["ab", "a", ""])), strings(&["", "a", "ab"]));
    assert_eq!(sorted_keys(&strings(&[])), strings(&[]));
}

#[test]
fn regroup_gathers_dotted_sections() {
    let input = "[workspace.lints.clippy]\na = 1\n\n[package]\nname = \"x\"\n\n[workspace]\nmembers = []\n";
    let out = regroup_text(input, &section_order()).expect("order changes");
    assert_eq!(
        out,
        "[package]\nname = \"x\"\n\n[workspace.lints.clippy]\na = 1\n\n[workspace]\nmembers = []\n"
    );
    assert_eq!(regroup_text(&out, &section_order()), None);
}

#[test]
fn regroup_keeps_preamble_and_comments() {
    let input = "# top\n\n[dependencies]\nserde = \"1\" # json\n\n# lone\n[package]\nname = \"x\"\n";
    let out = regroup_text(input, &section_order()).expect("order changes");
    assert_eq!(
        out,
        "# top\n\n[package]\nname = \"x\"\n\n[dependencies]\nserde = \"1\" # json\n\n# lone\n"
    );
}

#[test]
fn regroup_leaves_canonical_text_alone() {
    let input = "[package]\nname = \"x\"\n\n[dependencies]\nserde = \"1\"\n\n[workspace]\n";
    assert_eq!(regroup_text(input, &section_order()), None);
}

#[test]
fn regroup_with_injected_order() {
    let input = "[a]\nx = 1\n[b]\ny = 2\n";
    let out = regroup_text(input, &strings(&["b"])).expect("order changes");
    assert_eq!(out, "[b]\ny = 2\n\n[a]\nx = 1\n");
}

#[test]
fn regroup_nested_array_stays_in_section() {
    let input = "[metadata]\nmatrix = [\n    [1, 2],\n    [3, 4]\n]\n\n[package]\nname = \"x\"\n";
    let out = regroup_text(input, &section_order()).expect("order changes");
    assert_eq!(
        out,
        "[package]\nname = \"x\"\n\n[metadata]\nmatrix = [\n    [1, 2],\n    [3, 4]\n]\n"
    );
}

#[test]
fn pipeline_sorts_dependencies() {
    let input = "[dependencies]\ntokio = \"1\"\nanyhow = \"1\"\nserde = \"1\"\n";
    let f = format_document(input).expect("formats");
    let (out, changes) = (f.output, f.changes);
    assert_eq!(changes, 1);
    assert_eq!(out, "[dependencies]\nanyhow = \"1\"\nserde = \"1\"\ntokio = \"1\"\n");
}

#[test]
fn pipeline_groups_workspace_lints() {
    let input = "[workspace.lints.clippy]\nfoo = \"warn\"\n\n[package]\nname = \"x\"\n\n[dependencies]\nserde = \"1\"\n\n[workspace]\nmembers = []\n";
    let f = format_document(input).expect("formats");
    let (out, changes) = (f.output, f.changes);
    assert!(changes > 0);
    let pkg = out.find("[package]").unwrap();
    let deps = out.find("[dependencies]").unwrap();
    let lints = out.find("[workspace.lints.clippy]").unwrap();
    let ws = out.find("[workspace]").unwrap();
    assert!(pkg < deps && deps < lints && lints < ws, "{out}");
    assert!(out.parse::<toml_edit::DocumentMut>().is_ok());
}

#[test]
fn pipeline_nested_array_unchanged() {
    let input = "[package]\nname = \"a\"\n\n[metadata]\nmatrix = [[1,2],[3,4]]\n";
    let f = format_document(input).expect("formats");
    let (out, changes) = (f.output, f.changes);
    assert_eq!(changes, 0);
    assert_eq!(out, input);
}

#[test]
fn pipeline_array_tables_in_order() {
    let input = "[dependencies]\nserde = \"1\"\n\n[[bin]]\nname = \"one\"\n\n[[bin]]\nname = \"two\"\n\n[package]\nname = \"x\"\n";
    let out = format_document(input).expect("formats").output;
    assert_eq!(out.matches("[[bin]]").count(), 2);
    let pkg = out.find("[package]").unwrap();
    let one = out.find("\"one\"").unwrap();
    let two = out.find("\"two\"").unwrap();
    let deps = out.find("[dependencies]").unwrap();
    assert!(pkg < one && one < two && two < deps, "{out}");
}

#[test]
fn pipeline_keeps_table_with_nested_tables() {
    let input = "[package]\nname = \"x\"\n\n[package.metadata.foo]\nbar = 1\n";
    let out = format_document(input).expect("formats").output;
    assert!(out.contains("[package.metadata.foo]"), "{out}");
    assert!(out.contains("bar = 1"), "{out}");
}

#[test]
fn pipeline_collapses_explicit_dependency_table() {
    let input = "[package]\nname = \"x\"\n\n[dependencies.serde]\nversion = \"1\"\nfeatures = [\"derive\"]\n";
    let f = format_document(input).expect("formats");
    let (out, changes) = (f.output, f.changes);
    assert!(changes >= 1);
    assert!(!out.contains("[dependencies.serde]"), "{out}");
    assert!(out.contains("{ version = \"1\", features = [\"derive\"] }"), "{out}");
    assert!(out.contains("[dependencies]"), "{out}");
    assert!(out.parse::<toml_edit::DocumentMut>().is_ok());
}

#[test]
fn pipeline_rejects_malformed_input() {
    assert_eq!(format_document("[package").map(|f| f.changes), Err(FormatError::Parse));
    assert_eq!(format_document("a = 1\na = 2\n").map(|f| f.changes), Err(FormatError::Parse));
}

#[test]
fn pipeline_idempotent_and_keeps_comments() {
    let input = "# root\n[dependencies]\ntokio = \"1\" # runtime\nanyhow = \"1\"\n\n[lints]\nworkspace = true\n\n# about the package\n[package]\nversion = \"0.1.0\"\nname = \"x\" # the name\n";
    let f = format_document(input).expect("formats");
    let (first, changes) = (f.output, f.changes);
    assert_eq!(f.reordered, 1);
    assert_eq!(f.package_fields, 1);
    assert_eq!(f.sorted, 1);
    assert_eq!(f.collapsed, 0);
    assert!(changes > 0);
    assert!(first.contains("# root"));
    assert!(first.contains("# runtime"));
    assert!(first.contains("# the name"));
    assert!(first.contains("# about the package"));
    let g = format_document(&first).expect("formats");
    let (second, again) = (g.output, g.changes);
    assert_eq!(again, 0);
    assert_eq!(first, second);
}

#[test]
fn pipeline_target_dependencies_sorted() {
    let input = "[package]\nname = \"x\"\n\n[target.'cfg(unix)'.dependencies]\nlibc = \"0.2\"\nnix = \"0.1\"\natty = \"0.2\"\n";
    let f = format_document(input).expect("formats");
    let (out, changes) = (f.output, f.changes);
    assert!(changes >= 1);
    assert!(out.contains("[target.'cfg(unix)'.dependencies]"), "{out}");
    let a = out.find("atty =").unwrap();
    let l = out.find("libc =").unwrap();
    let n = out.find("nix =").unwrap();
    assert!(a < l && l < n, "{out}");
}

#[test]
fn reorder_keys_of_package_table() {
    let doc = "[package]\nedition = \"2021\"\nversion = \"1.0.0\"\npublish = false\nname = \"x\"\n"
        .parse::<toml_edit::DocumentMut>()
        .unwrap();
    let mut t = table_of(&doc, "package");
    assert!(reorder_keys(&mut t, &package_field_order()));
    assert_eq!(keys(&t), strings(&["name", "version", "edition", "publish"]));
    assert_eq!(t.get("publish").and_then(|i| i.as_bool()), Some(false));
    assert!(!reorder_keys(&mut t, &package_field_order()));
}

#[test]
fn sort_table_reports_changes() {
    let doc = "[dependencies]\nb = \"1\"\nZ = \"2\"\na = \"3\"\n"
        .parse::<toml_edit::DocumentMut>()
        .unwrap();
    let mut t = table_of(&doc, "dependencies");
    assert_eq!(sort_table_in_place(&mut t), 1);
    assert_eq!(keys(&t), strings(&["Z", "a", "b"]));
    assert_eq!(t.get("a").and_then(|i| i.as_str()), Some("3"));
    assert_eq!(sort_table_in_place(&mut t), 0);
}

#[test]
fn collapse_counts_convertible_tables() {
    let doc = "[deps]\nplain = \"1\"\n\n[deps.one]\nversion = \"1\"\n\n[deps.two]\nversion = \"2\"\n\n[deps.three.inner]\nx = 1\n"
        .parse::<toml_edit::DocumentMut>()
        .unwrap();
    let mut t = table_of(&doc, "deps");
    assert_eq!(collapse_table_entries(&mut t), 2);
    assert!(t.get("one").map(|i| i.is_value()).unwrap_or(false));
    assert!(t.get("two").map(|i| i.is_value()).unwrap_or(false));
    assert!(t.get("three").map(|i| i.is_table()).unwrap_or(false));
    assert_eq!(keys(&t), strings(&["plain", "one", "two", "three"]));
    assert_eq!(collapse_table_entries(&mut t), 0);
}

#[test]
fn empty_manifest_is_left_alone() {
    assert_eq!(regroup_text("", &section_order()), None);
    let f = format_document("").expect("formats");
    assert_eq!(f.changes, 0);
    assert_eq!(f.output, "");
}

#[test]
fn root_values_stay_before_sections() {
    let input = "cargo-features = [\"edition2024\"]\n\n[dependencies]\nserde = \"1\"\n\n[package]\nname = \"x\"\n";
    let f = format_document(input).expect("formats");
    assert_eq!(
        f.output,
        "cargo-features = [\"edition2024\"]\n\n[package]\nname = \"x\"\n\n[dependencies]\nserde = \"1\"\n"
    );
    assert_eq!(f.reordered, 1);
}

#[test]
fn reorder_text_results() {
    let canonical = "[package]\nname = \"x\"\n\n[dependencies]\n";
    assert!(matches!(reorder_text(canonical, &section_order()), Ok(None)));
    let moved = "[dependencies]\n\n[package]\nname = \"x\"\n";
    match reorder_text(moved, &section_order()) {
        Ok(Some((text, _))) => assert_eq!(text, "[package]\nname = \"x\"\n\n[dependencies]\n"),
        _ => panic!("expected a regrouped text"),
    }
}

#[test]
fn reorder_text_rejects_regrouping_that_breaks_syntax() {
    // `[1]` is an array element here, but on its own line it reads as a header.
    let input = "[package]\nkeywords = [\n[1]\n]\n\n[dependencies]\na = \"1\"\n";
    assert!(input.parse::<toml_edit::DocumentMut>().is_ok());
    assert!(matches!(
        reorder_text(input, &section_order()),
        Err(FormatError::ReorderedInvalid)
    ));
    assert_eq!(
        format_document(input).map(|f| f.changes),
        Err(FormatError::ReorderedInvalid)
    );
}

#[test]
fn sorting_keeps_comments_above_entries() {
    let input = "[dependencies]\n# async runtime\ntokio = \"1\"\n# errors\nanyhow = \"1\"\n";
    let f = format_document(input).expect("formats");
    assert_eq!(f.sorted, 1);
    assert_eq!(f.output, "[dependencies]\n# errors\nanyhow = \"1\"\n# async runtime\ntokio = \"1\"\n");
}

#[test]
fn regroup_joins_split_sections_in_canonical_key_order() {
    let input = "[package]\nname = \"x\"\n\n[workspace]\nmembers = []\n\n[profile]\n\n[workspace.package]\nedition = \"2021\"\n";
    let out = regroup_text(input, &section_order()).expect("split sections are joined");
    assert_eq!(
        out,
        "[package]\nname = \"x\"\n\n[workspace]\nmembers = []\n\n[workspace.package]\nedition = \"2021\"\n\n[profile]\n"
    );
    assert_eq!(regroup_text(&out, &section_order()), None);
}

#[test]
fn batch_decisions() {
    assert_eq!(total_changes(&vec![1, 2, 3]), 6);
    assert_eq!(total_changes(&vec![usize::MAX, 1]), usize::MAX);
    assert!(should_write(2, false, false));
    assert!(!should_write(0, false, false));
    assert!(!should_write(2, true, false));
    assert!(!should_write(2, false, true));
    assert!(check_fails(1, true));
    assert!(!check_fails(0, true));
    assert!(!check_fails(1, false));
}
