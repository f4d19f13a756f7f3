use fmt_toml::pipeline::{
    collapse_nested_tables, format_package_section, reorder_sections, section_order,
    sort_dependencies,
};

/// Runs the section reorder on a manifest and renders the result.
fn reorder(input: &str) -> String {
    let mut doc = input.parse::<toml_edit::DocumentMut>().expect("valid TOML");
    reorder_sections(&mut doc, &section_order()).expect("reorder succeeded");
    doc.to_string()
}

/// Runs collapse, reorder, package field order and the three dependency
/// sorts on a manifest and renders the result.
fn full_format(input: &str) -> String {
    let mut doc = input.parse::<toml_edit::DocumentMut>().expect("valid TOML");
    collapse_nested_tables(&mut doc);
    reorder_sections(&mut doc, &section_order()).expect("reorder succeeded");
    format_package_section(&mut doc);
    sort_dependencies(&mut doc, "dependencies");
    sort_dependencies(&mut doc, "dev-dependencies");
    sort_dependencies(&mut doc, "build-dependencies");
    doc.to_string()
}

#[test]
fn workspace_dotted_sections_preserved() {
    let input = "\
[package]
name = \"test-workspace\"
version = \"0.0.0\"

[workspace]
members = [\"crate-a\"]
resolver = \"3\"

[profile]

[workspace.package]
rust-version = \"1.93.0\"
edition = \"2024\"

[workspace.dependencies]
serde = { version = \"1.0\", features = [\"derive\"] }
tokio = { version = \"1.0\" }
";
    let result = reorder(input);

    // All dotted workspace sections must be present
    assert!(
        result.contains("[workspace.package]"),
        "missing [workspace.package] in:\n{result}"
    );
    assert!(
        result.contains("[workspace.dependencies]"),
        "missing [workspace.dependencies] in:\n{result}"
    );
    assert!(
        result.contains("rust-version"),
        "missing rust-version field in:\n{result}"
    );
    assert!(
        result.contains("serde"),
        "missing serde dependency in:\n{result}"
    );
    assert!(
        result.contains("tokio"),
        "missing tokio dependency in:\n{result}"
    );
    assert!(
        result.contains("[profile]"),
        "missing [profile] in:\n{result}"
    );
}

#[test]
fn sections_not_in_order_list_are_preserved() {
    let input = "\
[package]
name = \"test\"

[lints]
workspace = true

[dependencies]
serde = \"1.0\"
";
    let result = reorder(input);

    assert!(
        result.contains("[lints]"),
        "missing [lints] section in:\n{result}"
    );
    assert!(
        result.contains("workspace = true"),
        "missing lints content in:\n{result}"
    );
}

#[test]
fn no_truncation_with_many_dotted_sections() {
    let input = "\
[package]
name = \"big-workspace\"
version = \"0.0.0\"

[workspace]
members = [\"a\", \"b\", \"c\"]
resolver = \"3\"

[profile.release]
opt-level = 3

[profile.dev]
opt-level = 0

[workspace.package]
edition = \"2024\"
license = \"MIT\"

[workspace.dependencies]
anyhow = \"1.0\"
clap = { version = \"4.0\", features = [\"derive\"] }
serde = { version = \"1.0\" }
tokio = { version = \"1.0\" }
";
    let result = reorder(input);

    // Verify nothing is lost
    assert!(
        result.contains("[workspace.package]"),
        "missing [workspace.package]:\n{result}"
    );
    assert!(
        result.contains("[workspace.dependencies]"),
        "missing [workspace.dependencies]:\n{result}"
    );
    assert!(
        result.contains("[profile.release]"),
        "missing [profile.release]:\n{result}"
    );
    assert!(
        result.contains("[profile.dev]"),
        "missing [profile.dev]:\n{result}"
    );
    assert!(result.contains("anyhow"), "missing anyhow dep:\n{result}");
    assert!(result.contains("tokio"), "missing tokio dep:\n{result}");
    assert!(
        result.contains("edition = \"2024\""),
        "missing edition field:\n{result}"
    );
}

#[test]
fn lints_clippy_with_inline_priority_preserved() {
    // Reproduces the reported bug: a [lints.clippy] section with
    // entries like `disallowed_types = { level = "warn", priority = 1 }`
    // was causing "Failed to parse reordered document" errors.
    // The line-based parser must not misidentify value lines
    // containing brackets as section headers.
    let input = "\
[lints.clippy]
disallowed_types = { level = \"warn\", priority = 1 }
disallowed-names = { level = \"warn\", priority = -1 }

[package]
name = \"test-crate\"
version = \"0.1.0\"

[dependencies]
serde = \"1.0\"
";
    let result = reorder(input);

    assert!(
        result.contains("[lints.clippy]"),
        "missing [lints.clippy] in:\n{result}"
    );
    assert!(
        result.contains("priority = 1"),
        "missing priority = 1 in:\n{result}"
    );
    assert!(
        result.contains("priority = -1"),
        "missing priority = -1 in:\n{result}"
    );
    assert!(
        result.contains("[package]"),
        "missing [package] in:\n{result}"
    );
    assert!(
        result.contains("[dependencies]"),
        "missing [dependencies] in:\n{result}"
    );
}

#[test]
fn multiline_arrays_not_misidentified_as_headers() {
    // Value lines starting with [ (array elements, nested arrays)
    // must not be misidentified as section headers.
    let input = "\
[package]
name = \"test\"
categories = [
\"command-line-utilities\",
\"development-tools\",
]

[features]
default = [\"std\"]

[dependencies]
serde = \"1.0\"
";
    let result = reorder(input);

    assert!(
        result.contains("categories"),
        "missing categories in:\n{result}"
    );
    assert!(
        result.contains("command-line-utilities"),
        "missing array element in:\n{result}"
    );
    assert!(
        result.contains("[features]"),
        "missing [features] in:\n{result}"
    );
}

#[test]
fn nested_array_values_not_misidentified_as_headers() {
    // Nested arrays like [[1, 2], [3, 4]] should not be treated
    // as [[array-of-tables]] headers.
    let input = "\
[package]
name = \"test\"

[metadata]
matrix = [
[1, 2],
[3, 4],
]

[dependencies]
serde = \"1.0\"
";
    let result = reorder(input);

    assert!(
        result.contains("[metadata]"),
        "missing [metadata] in:\n{result}"
    );
    assert!(
        result.contains("[1, 2]"),
        "missing nested array [1, 2] in:\n{result}"
    );
    assert!(
        result.contains("[3, 4]"),
        "missing nested array [3, 4] in:\n{result}"
    );
}

#[test]
fn multiline_feature_arrays_with_brackets() {
    // Feature arrays with entries in brackets on their own line
    // must not be misidentified as section headers. This
    // reproduces the reported "invalid multi-line basic string"
    // error when inline tables get expanded to multi-line.
    let input = "\
[package]
name = \"test\"
keywords = [
\"cargo\",
\"toml\",
]

[features]
full = [
\"derive\",
\"std\",
]

[dependencies]
serde = \"1.0\"
";
    let result = reorder(input);

    assert!(
        result.contains("[features]"),
        "missing [features] in:\n{result}"
    );
    assert!(
        result.contains("\"derive\""),
        "missing derive feature in:\n{result}"
    );
    assert!(
        result.contains("keywords"),
        "missing keywords in:\n{result}"
    );
}

#[test]
fn full_pipeline_workspace_lints_with_comments() {
    // Reproduces the reported bug: a workspace Cargo.toml with
    // [workspace.lints.clippy] entries containing trailing
    // comments after quoted string values was causing parse
    // errors during reordering.
    let input = "\
[package]
name = \"my-workspace\"
version = \"0.0.0\"
publish = false

[workspace]
members = [\"crate-a\", \"crate-b\"]
resolver = \"3\"

[workspace.lints.clippy]
missing_crate_level_docs = \"deny\" # require crate-level docs
disallowed_types = { level = \"warn\", priority = 1 }

[workspace.lints.rust]
missing_docs = \"warn\"
unsafe_code = \"forbid\" # never allow unsafe

[workspace.package]
rust-version = \"1.93.0\"
edition = \"2024\"
license = \"Apache-2.0\"

[workspace.dependencies]
serde = { version = \"1.0\", features = [\"derive\"] }
tokio = { version = \"1.0\", features = [\"full\"] }
anyhow = \"1.0\"

[profile.release]
opt-level = 3
";
    let result = full_format(input);

    // Verify all sections are preserved
    assert!(
        result.contains("[workspace.lints.clippy]"),
        "missing [workspace.lints.clippy] in:\n{result}"
    );
    assert!(
        result.contains("[workspace.lints.rust]"),
        "missing [workspace.lints.rust] in:\n{result}"
    );
    assert!(
        result.contains("[workspace.package]"),
        "missing [workspace.package] in:\n{result}"
    );
    assert!(
        result.contains("[workspace.dependencies]"),
        "missing [workspace.dependencies] in:\n{result}"
    );
    assert!(
        result.contains("[profile.release]"),
        "missing [profile.release] in:\n{result}"
    );
    // Verify comments are preserved
    assert!(
        result.contains("# require crate-level docs"),
        "missing trailing comment in:\n{result}"
    );
    assert!(
        result.contains("# never allow unsafe"),
        "missing trailing comment in:\n{result}"
    );
    // Verify values are preserved
    assert!(
        result.contains("missing_crate_level_docs"),
        "missing lint entry in:\n{result}"
    );
    assert!(
        result.contains("priority = 1"),
        "missing priority in:\n{result}"
    );
}

#[test]
fn full_pipeline_lints_out_of_order() {
    // When [lints.clippy] appears before [package], the tool
    // must reorder correctly without corrupting values.
    let input = "\
[lints.clippy]
needless_pass_by_value = \"warn\"
missing_errors_doc = \"warn\"

[lints.rust]
unsafe_code = \"forbid\"

[package]
name = \"test-crate\"
version = \"0.1.0\"
edition = \"2024\"

[dependencies]
serde = { version = \"1.0\", features = [\"derive\"] }
tokio = \"1.0\"
anyhow = \"1.0\"
";
    let result = full_format(input);

    // [package] should come before [dependencies]
    let pkg_pos = result.find("[package]").expect("missing [package]");
    let dep_pos = result
        .find("[dependencies]")
        .expect("missing [dependencies]");
    assert!(
        pkg_pos < dep_pos,
        "[package] should come before [dependencies]"
    );
    // lints should still be present
    assert!(
        result.contains("[lints.clippy]"),
        "missing [lints.clippy] in:\n{result}"
    );
    assert!(
        result.contains("[lints.rust]"),
        "missing [lints.rust] in:\n{result}"
    );
    assert!(
        result.contains("needless_pass_by_value"),
        "missing lint entry in:\n{result}"
    );
    // dependencies should be sorted
    let anyhow_pos = result.find("anyhow").expect("missing anyhow");
    let serde_pos = result.find("serde").expect("missing serde");
    let tokio_pos = result.find("tokio").expect("missing tokio");
    assert!(
        anyhow_pos < serde_pos && serde_pos < tokio_pos,
        "dependencies should be sorted alphabetically"
    );
}

#[test]
fn full_pipeline_workspace_lints_explicit_tables() {
    // Test with [workspace.lints.clippy.disallowed-names] as an
    // explicit sub-table (not inline) — this is how toml_edit
    // may serialize certain lint configurations.
    let input = "\
[workspace]
members = [\"crate-a\"]
resolver = \"3\"

[workspace.lints.clippy]
needless_pass_by_value = \"warn\"

[workspace.lints.clippy.disallowed-names]
level = \"warn\"
priority = -1

[workspace.lints.clippy.disallowed_types]
level = \"warn\"
priority = 1

[workspace.lints.rust]
missing_docs = \"warn\"

[workspace.package]
edition = \"2024\"

[package]
name = \"my-workspace\"
version = \"0.0.0\"

[dependencies]
serde = \"1.0\"
";
    let result = full_format(input);

    assert!(
        result.contains("disallowed-names"),
        "missing disallowed-names in:\n{result}"
    );
    assert!(
        result.contains("disallowed_types"),
        "missing disallowed_types in:\n{result}"
    );
    assert!(
        result.contains("priority = -1"),
        "missing priority = -1 in:\n{result}"
    );
    assert!(
        result.contains("priority = 1"),
        "missing priority = 1 in:\n{result}"
    );
    assert!(
        result.contains("[workspace.package]"),
        "missing [workspace.package] in:\n{result}"
    );
}

#[test]
fn reorder_preserves_non_contiguous_dotted_sections() {
    // When [workspace] appears early and [workspace.package]
    // appears much later (separated by non-workspace sections),
    // both must be grouped together in the output.
    let input = "\
[package]
name = \"test\"
version = \"0.0.0\"

[dependencies]
serde = \"1.0\"

[workspace]
members = [\"a\"]

[features]
default = []

[workspace.package]
edition = \"2024\"

[workspace.dependencies]
anyhow = \"1.0\"
";
    let result = reorder(input);

    assert!(
        result.contains("[workspace.package]"),
        "missing [workspace.package] in:\n{result}"
    );
    assert!(
        result.contains("[workspace.dependencies]"),
        "missing [workspace.dependencies] in:\n{result}"
    );
    assert!(
        result.contains("edition = \"2024\""),
        "missing edition in:\n{result}"
    );
}

#[test]
fn non_contiguous_workspace_sections_across_profile() {
    // Mimics the reported scenario: [workspace] at the top,
    // [profile] in the middle, then [workspace.package] and
    // [workspace.lints.*] and [workspace.dependencies] after.
    // The parser must group all workspace.* sections with
    // [workspace] even when [profile] separates them.
    let input = "\
[package]
name = \"my-workspace\"
version = \"0.0.0\"
publish = false

[workspace]
members = [
\"crate-a\",
\"crate-b\",
]
resolver = \"3\"

[profile]

[workspace.package]
rust-version = \"1.93.0\"
edition = \"2024\"
license = \"Apache-2.0\"
authors = [\"Test Author <test@example.com>\"]

[workspace.lints.clippy]
missing_errors_doc = \"warn\"
needless_pass_by_value = \"warn\"
disallowed_types = { level = \"warn\", priority = 1 }

[workspace.lints.rust]
missing_docs = \"warn\"
unsafe_code = \"forbid\"

[workspace.dependencies]
anyhow = \"1.0\"
clap = { version = \"4.0\", features = [\"derive\"] }
serde = { version = \"1.0\", features = [\"derive\"] }
tokio = { version = \"1.0\", features = [\"full\"] }
tracing = \"0.1\"
";
    let result = full_format(input);

    // All workspace sub-sections must be present
    assert!(
        result.contains("[workspace.package]"),
        "missing [workspace.package] in:\n{result}"
    );
    assert!(
        result.contains("[workspace.lints.clippy]"),
        "missing [workspace.lints.clippy] in:\n{result}"
    );
    assert!(
        result.contains("[workspace.lints.rust]"),
        "missing [workspace.lints.rust] in:\n{result}"
    );
    assert!(
        result.contains("[workspace.dependencies]"),
        "missing [workspace.dependencies] in:\n{result}"
    );
    assert!(
        result.contains("[profile]"),
        "missing [profile] in:\n{result}"
    );
    // Verify content
    assert!(
        result.contains("rust-version"),
        "missing rust-version in:\n{result}"
    );
    assert!(
        result.contains("disallowed_types"),
        "missing disallowed_types in:\n{result}"
    );
    assert!(
        result.contains("tracing"),
        "missing tracing dep in:\n{result}"
    );
}

#[test]
fn real_workspace_with_profile_subsections_and_lints() {
    // Reproduces exact structure from bug report: [profile]
    // with multiple sub-profiles, followed by comment block,
    // then [workspace.lints.*] sections.
    let input = "\
########################################
# Virtual workspace root
########################################
[workspace]
members = [
\"crate-a\",
\"crate-b\",
]
resolver = \"3\"

[package]
name = \"my-workspace\"
version = \"0.0.0\"
edition = \"2024\"
publish = false

[build-dependencies]
rhusky = \"0.0.2\"

[workspace.package]
edition = \"2024\"
version = \"0.0.0\" # Version dynamically managed by CI
license-file = \"LICENSE\"
rust-version = \"1.93.0\"

[workspace.dependencies]
anyhow = \"1.0\"
serde = { version = \"1.0\", features = [\"derive\"] }
tokio = { version = \"1.0\", features = [\"full\"] }

[profile]

[profile.wasm-dev]
inherits = \"dev\"
opt-level = 1

[profile.release]
debug = false
strip = \"debuginfo\"

# Workspace-wide lint levels
[workspace.lints.rust]
warnings = \"deny\"     # never allow warnings to pass
missing_docs = \"deny\" # require docs on all public items

[workspace.lints.rustdoc]
missing_crate_level_docs = \"deny\" # require crate-level docs
broken_intra_doc_links = \"deny\"   # enforce valid intra-doc links
bare_urls = \"warn\"                # prefer backticks or proper links

[workspace.lints.clippy]
missing_panics_doc = \"warn\"                         # document panics
missing_errors_doc = \"warn\"                         # document errors
doc_markdown = \"warn\"                               # backticks for code
disallowed_types = { level = \"warn\", priority = 1 }

[workspace.metadata.clippy]
disallowed-types = [\"serde_json::Value\"]

########################################
# Patches for dependencies
########################################
[patch.crates-io]
# No patches currently needed
";
    let result = full_format(input);

    // All sections must survive
    assert!(
        result.contains("[workspace.lints.rust]"),
        "missing [workspace.lints.rust] in:\n{result}"
    );
    assert!(
        result.contains("[workspace.lints.rustdoc]"),
        "missing [workspace.lints.rustdoc] in:\n{result}"
    );
    assert!(
        result.contains("[workspace.lints.clippy]"),
        "missing [workspace.lints.clippy] in:\n{result}"
    );
    assert!(
        result.contains("[workspace.metadata.clippy]"),
        "missing [workspace.metadata.clippy] in:\n{result}"
    );
    assert!(
        result.contains("[patch.crates-io]"),
        "missing [patch.crates-io] in:\n{result}"
    );
    assert!(
        result.contains("# never allow warnings to pass"),
        "missing trailing comment in:\n{result}"
    );
    // Verify output is valid TOML
    let reparsed = result.parse::<toml_edit::DocumentMut>();
    assert!(
        reparsed.is_ok(),
        "Output is not valid TOML:\n{result}\nError: {}",
        reparsed.unwrap_err()
    );
}

#[test]
fn full_pipeline_output_is_valid_toml() {
    // Verify the full pipeline produces valid TOML that can be
    // parsed back without errors.
    let input = "\
[package]
name = \"test-workspace\"
version = \"0.0.0\"
publish = false

[workspace]
members = [
\"crate-a\",
\"crate-b\",
]
resolver = \"3\"

[profile]

[workspace.package]
rust-version = \"1.93.0\"
edition = \"2024\"
license = \"Apache-2.0\"

[workspace.lints.clippy]
missing_errors_doc = \"warn\"
missing_crate_level_docs = \"deny\" # require crate-level docs
disallowed_types = { level = \"warn\", priority = 1 }

[workspace.lints.rust]
missing_docs = \"warn\"
unsafe_code = \"forbid\" # never allow unsafe

[workspace.dependencies]
serde = { version = \"1.0\", features = [\"derive\"] }
tokio = { version = \"1.0\" }
anyhow = \"1.0\"
";
    // Run the full pipeline
    let result = full_format(input);

    // Verify the output is valid TOML
    let reparsed = result.parse::<toml_edit::DocumentMut>();
    assert!(
        reparsed.is_ok(),
        "Output is not valid TOML:\n{result}\nError: {}",
        reparsed.unwrap_err()
    );
}

#[test]
fn full_pipeline_is_idempotent() {
    // Running the formatter twice must produce the same output.
    let input = "\
[workspace]
members = [\"crate-a\"]
resolver = \"3\"

[package]
name = \"test\"
version = \"0.0.0\"

[workspace.lints.clippy]
missing_errors_doc = \"warn\"
disallowed_types = { level = \"warn\", priority = 1 }

[workspace.package]
edition = \"2024\"
rust-version = \"1.93.0\"

[dependencies]
tokio = \"1.0\"
anyhow = \"1.0\"
serde = \"1.0\"

[workspace.dependencies]
serde = { version = \"1.0\", features = [\"derive\"] }
";
    let first = full_format(input);
    let second = full_format(&first);
    assert_eq!(
        first, second,
        "Formatter is not idempotent.\nFirst:\n{first}\nSecond:\n{second}"
    );
}

#[test]
fn array_of_tables_preserved() {
    // [[bin]] and [[example]] are array-of-tables headers that
    // must be preserved and reordered with their parent key.
    let input = "\
[dependencies]
serde = \"1.0\"

[[bin]]
name = \"my-tool\"
path = \"src/main.rs\"

[[bin]]
name = \"helper\"
path = \"src/helper.rs\"

[package]
name = \"test\"
version = \"0.1.0\"
";
    let result = full_format(input);

    // [package] should come before [[bin]] and [dependencies]
    let pkg_pos = result.find("[package]").expect("missing [package]");
    let bin_pos = result
        .find("[[bin]]")
        .unwrap_or_else(|| panic!("missing [[bin]] in:\n{result}"));
    let dep_pos = result
        .find("[dependencies]")
        .expect("missing [dependencies]");
    assert!(
        pkg_pos < bin_pos,
        "[package] should come before [[bin]] in:\n{result}"
    );
    assert!(
        bin_pos < dep_pos,
        "[[bin]] should come before [dependencies] in:\n{result}"
    );
    // Both [[bin]] entries must survive
    let bin_count = result.matches("[[bin]]").count();
    assert_eq!(bin_count, 2, "expected 2 [[bin]] entries, got {bin_count}");
    assert!(result.contains("my-tool"), "missing my-tool in:\n{result}");
    assert!(result.contains("helper"), "missing helper in:\n{result}");
    // Output must be valid TOML
    let reparsed = result.parse::<toml_edit::DocumentMut>();
    assert!(
        reparsed.is_ok(),
        "Output is not valid TOML:\n{result}\nError: {}",
        reparsed.unwrap_err()
    );
}

#[test]
fn all_reorder_tests_produce_valid_toml() {
    // Verify every test scenario produces valid TOML output,
    // not just that expected strings are present.
    let inputs = [
        // workspace_dotted_sections_preserved
        "\
[package]
name = \"test-workspace\"
version = \"0.0.0\"

[workspace]
members = [\"crate-a\"]
resolver = \"3\"

[profile]

[workspace.package]
rust-version = \"1.93.0\"
edition = \"2024\"

[workspace.dependencies]
serde = { version = \"1.0\", features = [\"derive\"] }
tokio = { version = \"1.0\" }
",
        // sections_not_in_order_list_are_preserved
        "\
[package]
name = \"test\"

[lints]
workspace = true

[dependencies]
serde = \"1.0\"
",
        // lints_clippy_with_inline_priority_preserved
        "\
[lints.clippy]
disallowed_types = { level = \"warn\", priority = 1 }
disallowed-names = { level = \"warn\", priority = -1 }

[package]
name = \"test-crate\"
version = \"0.1.0\"

[dependencies]
serde = \"1.0\"
",
        // non_contiguous_workspace_sections_across_profile
        "\
[package]
name = \"my-workspace\"
version = \"0.0.0\"
publish = false

[workspace]
members = [
\"crate-a\",
\"crate-b\",
]
resolver = \"3\"

[profile]

[workspace.package]
rust-version = \"1.93.0\"
edition = \"2024\"
license = \"Apache-2.0\"
authors = [\"Test Author <test@example.com>\"]

[workspace.lints.clippy]
missing_errors_doc = \"warn\"
needless_pass_by_value = \"warn\"
disallowed_types = { level = \"warn\", priority = 1 }

[workspace.lints.rust]
missing_docs = \"warn\"
unsafe_code = \"forbid\"

[workspace.dependencies]
anyhow = \"1.0\"
clap = { version = \"4.0\", features = [\"derive\"] }
serde = { version = \"1.0\", features = [\"derive\"] }
tokio = { version = \"1.0\", features = [\"full\"] }
tracing = \"0.1\"
",
    ];

    for (idx, input) in inputs.iter().enumerate() {
        let result = full_format(input);
        let reparsed = result.parse::<toml_edit::DocumentMut>();
        assert!(
            reparsed.is_ok(),
            "Scenario {idx} produced invalid TOML:\n{result}\nError: {}",
            reparsed.unwrap_err()
        );
    }
}
