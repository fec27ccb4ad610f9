use bazel_jdt::aspect::{
    adapt_bundled_bzl_for_version, aspect_file_content, aspect_label_or_fallback, bazel_major_from_output, bazelignore_conflict,
    bundled_aspect_label, needs_extraction, parse_bazel_major_version, AspectError,
};
use bazel_jdt::build_file::{BuildArg, BuildExpr, BuildFileParser, BuildStmt, ParseError};
use bazel_jdt::change_detector::{
    compute_build_file_package_label, compute_field_changes, detect_added_removed_files, detect_changes,
    git_changed_build_files, is_build_file_name, scan_workspace_changes, skip_dir_name, BuildFileHash, ChangeType,
    FieldChange, HashLookup,
};
use bazel_jdt::hashing::{hex_lower, sha256_hex, version_hash};
use bazel_jdt::model::{JavaRule, ParsedBuildFile, RuleType};
use bazel_jdt::state::{
    aspect_build_targets, cached_build_file, hash_needs_update, record_pending, resolution_error_message, should_run_aspect,
    SyncState,
};
use bazel_jdt::starlark::parse_printed_module;
use bazel_jdt::text::{lines_of, parse_u32, trim_str};

fn rule(name: &str, deps: Vec<&str>) -> JavaRule {
    JavaRule {
        rule_type: RuleType::JavaLibrary,
        name: name.to_string(),
        srcs: vec![],
        deps: deps.iter().map(|s| s.to_string()).collect(),
        runtime_deps: vec![],
        resources: vec![],
        plugins: vec![],
        exports: vec![],
        test_only: false,
        visibility: vec![],
    }
}

fn file(path: &str, rules: Vec<JavaRule>) -> ParsedBuildFile {
    ParsedBuildFile { path: path.to_string(), content_hash: String::new(), rules, loads: vec![] }
}

fn files(pairs: &[(&str, &str)]) -> Vec<(String, String)> {
    pairs.iter().map(|(a, b)| (a.to_string(), b.to_string())).collect()
}

#[test]
fn test_version_hash_deterministic() {
    let fs = files(&[("BUILD", ""), ("artifacts.bzl", "def f():\n    pass\n")]);
    let h1 = version_hash(8, &fs);
    let h2 = version_hash(8, &fs);
    assert_eq!(h1, h2, "version hash must be deterministic");
    assert!(!h1.is_empty());
    assert_eq!(h1.len(), 64, "SHA-256 hex should be 64 chars");
}

#[test]
fn test_version_hash_differs_by_bazel_version() {
    let fs = files(&[("BUILD", ""), ("artifacts.bzl", "def f():\n    pass\n")]);
    assert_ne!(version_hash(8, &fs), version_hash(9, &fs), "version hash must differ between Bazel 8 and 9");
}

#[test]
fn version_hash_of_no_files_is_digest_of_version_bytes() {
    // SHA-256 of the four bytes 08 00 00 00.
    assert_eq!(version_hash(8, &[]), sha256_hex(&[8u8, 0, 0, 0]));
}

#[test]
fn sha256_of_known_inputs() {
    assert_eq!(sha256_hex(b""), "e3b0c44298fc1c149afbf4c8996fb92427ae41e4649b934ca495991b7852b855");
    assert_eq!(sha256_hex(b"abc"), "ba7816bf8f01cfea414140de5dae2223b00361a396177a9cb410ff61f20015ad");
}

#[test]
fn hex_renders_each_byte_as_two_lowercase_digits() {
    assert_eq!(hex_lower(&[0x00, 0x0f, 0xa0, 0xff]), "000fa0ff");
}

#[test]
fn content_hash_is_sha256_of_utf8() {
    assert_eq!(
        BuildFileParser::compute_hash("abc"),
        "ba7816bf8f01cfea414140de5dae2223b00361a396177a9cb410ff61f20015ad"
    );
    assert_eq!(BuildFileParser::compute_hash("é"), sha256_hex("é".as_bytes()));
}

#[test]
fn test_parse_bazel_major_version_standard() {
    assert_eq!(parse_bazel_major_version("bazel 7.4.1"), Some(7));
    assert_eq!(parse_bazel_major_version("bazel 8.0.0"), Some(8));
    assert_eq!(parse_bazel_major_version("bazel 9.1.0"), Some(9));
}

#[test]
fn test_parse_bazel_major_version_with_whitespace() {
    assert_eq!(parse_bazel_major_version("bazel 8.0.0\n"), Some(8));
    assert_eq!(parse_bazel_major_version("  bazel 9.0.0  "), Some(9));
}

#[test]
fn test_parse_bazel_major_version_invalid() {
    assert_eq!(parse_bazel_major_version(""), None);
    assert_eq!(parse_bazel_major_version("not-bazel"), None);
    assert_eq!(parse_bazel_major_version("bazel "), None);
}

#[test]
fn parse_bazel_major_version_edge_cases() {
    assert_eq!(parse_bazel_major_version("8"), Some(8));
    assert_eq!(parse_bazel_major_version("bazel +10.1"), Some(10));
    assert_eq!(parse_bazel_major_version("bazel 99999999999.0"), None);
    assert_eq!(parse_bazel_major_version("bazel -1.0"), None);
}

#[test]
fn major_version_defaults_to_eight() {
    assert_eq!(bazel_major_from_output(true, "bazel 9.0.0\n"), 9);
    assert_eq!(bazel_major_from_output(true, "garbage"), 8);
    assert_eq!(bazel_major_from_output(false, "bazel 9.0.0"), 8);
}

#[test]
fn test_adapt_bundled_bzl_bazel8_strips_toolchains_aspects() {
    let content = "line1\n    toolchains_aspects = TOOLCHAIN_TYPE_DEPS,\nline3\n";
    let result = adapt_bundled_bzl_for_version(content, 8);
    assert!(!result.contains("toolchains_aspects"));
    assert!(result.contains("line1"));
    assert!(result.contains("line3"));
}

#[test]
fn test_adapt_bundled_bzl_bazel9_keeps_toolchains_aspects() {
    let content = "line1\n    toolchains_aspects = TOOLCHAIN_TYPE_DEPS,\nline3\n";
    let result = adapt_bundled_bzl_for_version(content, 9);
    assert!(result.contains("toolchains_aspects"));
}

#[test]
fn adapt_for_old_bazel_joins_kept_lines() {
    let content = "a\r\nx toolchains_aspects\nb\n";
    assert_eq!(adapt_bundled_bzl_for_version(content, 7), "a\nb");
    assert_eq!(adapt_bundled_bzl_for_version(content, 9), content);
}

#[test]
fn only_the_bundled_entry_point_is_adapted() {
    let content = "x\ntoolchains_aspects\n";
    assert_eq!(aspect_file_content("intellij_info_bundled.bzl", content, 8), "x");
    assert_eq!(aspect_file_content("artifacts.bzl", content, 8), content);
}

#[test]
fn bazelignore_conflicts() {
    let w = bazelignore_conflict("node_modules\n.bazel-jdt\n").expect("conflict");
    assert!(w.contains(".bazel-jdt"));
    assert_eq!(
        w,
        "Aspect directory '.bazel-jdt/aspects' is covered by .bazelignore (pattern: '.bazel-jdt') \u{2014} aspects may not be found by Bazel. Please remove this pattern from .bazelignore."
    );
    assert!(bazelignore_conflict("node_modules\nbazel-bin\n").is_none());
    assert!(bazelignore_conflict("# .bazel-jdt\n").is_none());
    assert!(bazelignore_conflict("  /  \n").unwrap().contains("(pattern: '/')"));
}

#[test]
fn extraction_needed_unless_hash_matches() {
    assert!(needs_extraction(None, "abc"));
    assert!(needs_extraction(Some("invalid-hash"), "abc"));
    assert!(!needs_extraction(Some("abc"), "abc"));
    assert_eq!(bundled_aspect_label(), "//.bazel-jdt/aspects:intellij_info_bundled.bzl%intellij_info_aspect");
}

#[test]
fn aspect_error_messages() {
    assert_eq!(AspectError::IoError("boom".to_string()).message(), "IO error: boom");
    assert_eq!(AspectError::Utf8Error("bad".to_string()).message(), "UTF-8 error: bad");
}

#[test]
fn test_field_change_is_classpath_relevant() {
    assert!(FieldChange::DepsChanged.is_classpath_relevant());
    assert!(FieldChange::SrcsChanged.is_classpath_relevant());
    assert!(FieldChange::RuntimeDepsChanged.is_classpath_relevant());
    assert!(FieldChange::ExportsChanged.is_classpath_relevant());
    assert!(FieldChange::PluginsChanged.is_classpath_relevant());
    assert!(!FieldChange::VisibilityChanged.is_classpath_relevant());
    assert!(!FieldChange::TestOnlyChanged.is_classpath_relevant());
    assert!(!FieldChange::ResourcesChanged.is_classpath_relevant());
}

#[test]
fn test_detect_added_removed_files() {
    let before = vec!["/workspace/BUILD".to_string(), "/workspace/foo/BUILD".to_string()];
    let after = vec!["/workspace/BUILD".to_string(), "/workspace/bar/BUILD".to_string()];
    let (added, removed) = detect_added_removed_files(&before, &after);
    assert_eq!(added, vec!["/workspace/bar/BUILD".to_string()]);
    assert_eq!(removed, vec!["/workspace/foo/BUILD".to_string()]);
}

#[test]
fn added_removed_files_compare_as_paths() {
    let before = vec!["/workspace//foo/BUILD".to_string()];
    let after = vec!["/workspace/foo/BUILD".to_string()];
    let (added, removed) = detect_added_removed_files(&before, &after);
    assert!(added.is_empty());
    assert!(removed.is_empty());
}

#[test]
fn test_compute_build_file_package_label() {
    assert_eq!(compute_build_file_package_label("/workspace/foo/bar/BUILD", "/workspace"), "//foo/bar");
}

#[test]
fn test_compute_build_file_package_label_root() {
    assert_eq!(compute_build_file_package_label("/workspace/BUILD", "/workspace"), "//");
}

#[test]
fn package_label_outside_workspace_uses_whole_directory() {
    assert_eq!(compute_build_file_package_label("/other/pkg/BUILD", "/workspace"), "///other/pkg");
}

#[test]
fn field_changes_in_attribute_order() {
    let before = rule("lib", vec!["//a:a"]);
    let mut after = rule("lib", vec!["//b:b"]);
    after.test_only = true;
    after.resources = vec!["r.txt".to_string()];
    assert_eq!(
        compute_field_changes(&before, &after),
        vec![FieldChange::DepsChanged, FieldChange::ResourcesChanged, FieldChange::TestOnlyChanged]
    );
    assert!(compute_field_changes(&before, &before).is_empty());
}

#[test]
fn detect_changes_classifies_rules() {
    let before = file("/ws/pkg/BUILD", vec![rule("keep", vec![]), rule("mod", vec!["//a:a"]), rule("gone", vec![])]);
    let mut vis = rule("keep", vec![]);
    vis.visibility = vec!["//visibility:public".to_string()];
    let after = file("/ws/pkg/BUILD", vec![vis, rule("mod", vec!["//b:b"]), rule("new", vec![])]);
    let r = detect_changes(&before, &after);
    assert_eq!(r.file_path, "/ws/pkg/BUILD");
    let kinds: Vec<(String, ChangeType)> = r.rule_diffs.iter().map(|d| (d.rule_name.clone(), d.change_type)).collect();
    assert_eq!(
        kinds,
        vec![
            ("keep".to_string(), ChangeType::Modified),
            ("mod".to_string(), ChangeType::Modified),
            ("new".to_string(), ChangeType::Added),
            ("gone".to_string(), ChangeType::Removed),
        ]
    );
    assert_eq!(
        r.affected_labels,
        vec!["///ws/pkg:mod".to_string(), "///ws/pkg:new".to_string(), "///ws/pkg:gone".to_string()]
    );
    assert!(r.is_classpath_relevant);
}

#[test]
fn detect_changes_unchanged_file_is_not_relevant() {
    let before = file("pkg/BUILD", vec![rule("a", vec!["//x:y"])]);
    let r = detect_changes(&before, &before.clone());
    assert_eq!(r.rule_diffs.len(), 1);
    assert_eq!(r.rule_diffs[0].change_type, ChangeType::Unchanged);
    assert!(r.affected_labels.is_empty());
    assert!(!r.is_classpath_relevant);
}

#[test]
fn scan_classifies_files_against_cache() {
    let fs = vec![
        BuildFileHash { path: "/ws/a/BUILD".to_string(), current_hash: "h1".to_string(), cached: HashLookup::Found("h1".to_string()) },
        BuildFileHash { path: "/ws/b/BUILD".to_string(), current_hash: "h2".to_string(), cached: HashLookup::Found("old".to_string()) },
        BuildFileHash { path: "/ws/c/BUILD".to_string(), current_hash: "h3".to_string(), cached: HashLookup::Missing },
        BuildFileHash { path: "/ws/d/BUILD".to_string(), current_hash: "h4".to_string(), cached: HashLookup::Failed("io".to_string()) },
    ];
    let cached = vec!["/ws/a/BUILD".to_string(), "/ws/gone/BUILD".to_string(), "/other/x/BUILD".to_string(), "/ws/b/BUILD".to_string()];
    let (scan, writes) = scan_workspace_changes("/ws", &fs, &cached);
    assert_eq!(scan.changed_files, vec!["/ws/b/BUILD".to_string()]);
    assert_eq!(scan.new_files, vec!["/ws/c/BUILD".to_string()]);
    assert_eq!(scan.deleted_files, vec!["/ws/gone/BUILD".to_string()]);
    assert_eq!(scan.affected_labels, vec!["//b".to_string(), "//c".to_string()]);
    assert_eq!(
        writes,
        vec![("/ws/b/BUILD".to_string(), "h2".to_string()), ("/ws/c/BUILD".to_string(), "h3".to_string())]
    );
}

#[test]
fn build_file_search_rules() {
    assert!(skip_dir_name(".git"));
    assert!(skip_dir_name("bazel-out"));
    assert!(skip_dir_name("bazel-testlogs"));
    assert!(!skip_dir_name("src"));
    assert!(!skip_dir_name(""));
    assert!(is_build_file_name("BUILD"));
    assert!(is_build_file_name("BUILD.bazel"));
    assert!(is_build_file_name("WORKSPACE.bazel"));
    assert!(!is_build_file_name("BUILD.txt"));
}

#[test]
fn git_diff_build_files() {
    let out = "src/Foo.java\n  app/BUILD.bazel \nWORKSPACE\nREADME.md\n";
    assert_eq!(
        git_changed_build_files(out, "/ws"),
        vec!["/ws/app/BUILD.bazel".to_string(), "/ws/WORKSPACE".to_string()]
    );
}

#[test]
fn trims_and_splits_like_str() {
    assert_eq!(trim_str("\t a b \n"), "a b");
    assert_eq!(lines_of("a\r\nb\n\nc\r"), vec!["a", "b", "", "c\r"]);
    assert!(lines_of("").is_empty());
    assert_eq!(parse_u32("+42"), Some(42));
    assert_eq!(parse_u32("4294967295"), Some(u32::MAX));
    assert_eq!(parse_u32("4294967296"), None);
    assert_eq!(parse_u32("+"), None);
    assert_eq!(parse_u32("1a"), None);
}

fn s(x: &str) -> BuildExpr {
    BuildExpr::Str(x.to_string())
}

fn named(name: &str, value: BuildExpr) -> BuildArg {
    BuildArg { name: Some(name.to_string()), value }
}

fn call(f: &str, args: Vec<BuildArg>) -> BuildStmt {
    BuildStmt::Expression(BuildExpr::Call(Box::new(BuildExpr::Identifier(f.to_string())), args))
}

#[test]
fn parse_module_collects_java_rules_and_loads() {
    let module = BuildStmt::Statements(vec![
        BuildStmt::Load("@rules_java//java:defs.bzl".to_string(), vec!["java_library".to_string()]),
        call(
            "java_library",
            vec![
                named("name", s("greeter")),
                named("srcs", BuildExpr::List(vec![s("Greeter.java"), BuildExpr::Identifier("X".to_string())])),
                named("deps", BuildExpr::List(vec![s("//a:a")])),
                named("testonly", BuildExpr::Identifier("True".to_string())),
                BuildArg { name: None, value: s("ignored") },
            ],
        ),
        call("java_binary", vec![named("deps", BuildExpr::List(vec![]))]),
        call("cc_library", vec![named("name", s("native"))]),
        BuildStmt::Def(Box::new(call("java_test", vec![named("name", s("t"))]))),
    ]);
    let parser = BuildFileParser::new();
    let parsed = parser.parse_module("/ws/pkg/BUILD", "content", Some(&module));
    assert_eq!(parsed.path, "/ws/pkg/BUILD");
    assert_eq!(parsed.content_hash, BuildFileParser::compute_hash("content"));
    assert_eq!(parsed.loads.len(), 1);
    assert_eq!(parsed.loads[0].path, "@rules_java//java:defs.bzl");
    assert_eq!(parsed.loads[0].symbols, vec!["java_library".to_string()]);
    assert_eq!(parsed.rules.len(), 2);
    assert_eq!(parsed.rules[0].name, "greeter");
    assert!(matches!(parsed.rules[0].rule_type, RuleType::JavaLibrary));
    assert_eq!(parsed.rules[0].srcs, vec!["Greeter.java".to_string()]);
    assert_eq!(parsed.rules[0].deps, vec!["//a:a".to_string()]);
    assert!(parsed.rules[0].test_only);
    assert_eq!(parsed.rules[1].name, "t");
    assert!(matches!(parsed.rules[1].rule_type, RuleType::JavaTest));
}

#[test]
fn unparsable_content_has_no_rules() {
    let parsed = BuildFileParser::new().parse_module("BUILD", "java_library(", None);
    assert!(parsed.rules.is_empty());
    assert!(parsed.loads.is_empty());
    assert_eq!(parsed.content_hash.len(), 64);
}

#[test]
fn parse_printed_module_reads_statements_and_bodies() {
    let text = "load(\"@rules_java//java:defs.bzl\", java_library = \"java_library\")\n\
java_library(name = \"greeter\", srcs = glob([\"*.java\"]), deps = [\"//a:a\", \"b\\\"c\"], testonly = True)\n\
x = [1]\n\
def f():\n  java_test(name = \"t\")\n  if y:\n    pass\n  else:\n    pass\n\
for a in b:\n  java_binary(name = \"bin\")\n";
    let m = parse_printed_module(text);
    let stmts = match m {
        BuildStmt::Statements(v) => v,
        _ => panic!("not a module"),
    };
    assert_eq!(stmts.len(), 5);
    match &stmts[0] {
        BuildStmt::Load(module, names) => {
            assert_eq!(module, "@rules_java//java:defs.bzl");
            assert_eq!(names, &vec!["java_library".to_string()]);
        }
        other => panic!("not a load: {:?}", other),
    }
    match &stmts[1] {
        BuildStmt::Expression(BuildExpr::Call(f, args)) => {
            assert!(matches!(&**f, BuildExpr::Identifier(n) if n == "java_library"));
            assert_eq!(args.len(), 4);
            assert_eq!(args[0].name.as_deref(), Some("name"));
            assert!(matches!(&args[0].value, BuildExpr::Str(v) if v == "greeter"));
            assert!(matches!(&args[1].value, BuildExpr::Call(g, _) if matches!(&**g, BuildExpr::Identifier(n) if n == "glob")));
            match &args[2].value {
                BuildExpr::List(items) => {
                    assert_eq!(items.len(), 2);
                    assert!(matches!(&items[1], BuildExpr::Str(v) if v == "b\"c"));
                }
                other => panic!("not a list: {:?}", other),
            }
            assert!(matches!(&args[3].value, BuildExpr::Identifier(n) if n == "True"));
        }
        other => panic!("not a call: {:?}", other),
    }
    assert!(matches!(stmts[2], BuildStmt::Assign));
    match &stmts[3] {
        BuildStmt::Def(body) => match &**body {
            BuildStmt::Statements(b) => {
                assert_eq!(b.len(), 3);
                assert!(matches!(b[1], BuildStmt::Other));
            }
            other => panic!("not a body: {:?}", other),
        },
        other => panic!("not a def: {:?}", other),
    }
    assert!(matches!(&stmts[4], BuildStmt::For(_)));
}

#[test]
fn parse_printed_content_walks_the_printed_module() {
    let text = "java_library(name = \"lib\", deps = [\":a\"])\ndef m():\n  java_test(name = \"t\", testonly = True)\n";
    let parsed = BuildFileParser::new().parse_printed_content("pkg/BUILD", "src", Some(text));
    assert_eq!(parsed.path, "pkg/BUILD");
    assert_eq!(parsed.rules.len(), 2);
    assert_eq!(parsed.rules[0].name, "lib");
    assert_eq!(parsed.rules[0].deps, vec![":a".to_string()]);
    assert_eq!(parsed.rules[1].name, "t");
    assert!(parsed.rules[1].test_only);
    let none = BuildFileParser::new().parse_printed_content("pkg/BUILD", "src", None);
    assert!(none.rules.is_empty());
    assert!(none.loads.is_empty());
}

#[test]
fn parse_content_extracts_rules_from_build_text() {
    let content = r#"load("@rules_java//java:defs.bzl", "java_library", jt = "java_test")

# A library.
java_library(
    name = "greeter",
    srcs = ["Greeter.java"],
    deps = [
        ":util",
        "//third_party:guava",
    ],
    visibility = ["//visibility:public"],
)

java_test(
    name = "greeter_test",
    srcs = glob(["*Test.java"]),
    testonly = True,
)

cc_library(name = "native")
"#;
    let parser = BuildFileParser::new();
    let parsed = parser.parse_content("ws/pkg/BUILD", content);
    assert_eq!(parsed.path, "ws/pkg/BUILD");
    assert_eq!(parsed.content_hash, BuildFileParser::compute_hash(content));
    assert_eq!(parsed.loads.len(), 1);
    assert_eq!(parsed.loads[0].path, "@rules_java//java:defs.bzl");
    assert_eq!(parsed.loads[0].symbols, vec!["java_library".to_string(), "jt".to_string()]);
    assert_eq!(parsed.rules.len(), 2);
    assert_eq!(parsed.rules[0].name, "greeter");
    assert!(matches!(parsed.rules[0].rule_type, RuleType::JavaLibrary));
    assert_eq!(parsed.rules[0].srcs, vec!["Greeter.java".to_string()]);
    assert_eq!(parsed.rules[0].deps, vec![":util".to_string(), "//third_party:guava".to_string()]);
    assert_eq!(parsed.rules[0].visibility, vec!["//visibility:public".to_string()]);
    assert!(!parsed.rules[0].test_only);
    assert_eq!(parsed.rules[1].name, "greeter_test");
    assert!(matches!(parsed.rules[1].rule_type, RuleType::JavaTest));
    assert!(parsed.rules[1].srcs.is_empty());
    assert!(parsed.rules[1].test_only);
}

#[test]
fn parse_content_of_bad_syntax_has_no_rules() {
    let parsed = BuildFileParser::new().parse_content("BUILD", "java_library(\n    name = \"x\",\n");
    assert!(parsed.rules.is_empty());
    assert!(parsed.loads.is_empty());
    assert_eq!(parsed.content_hash.len(), 64);
}

#[test]
fn parse_error_messages() {
    let e = ParseError::IoError { path: "a/BUILD".to_string(), error: "denied".to_string() };
    assert_eq!(e.message(), "IO error reading BUILD file a/BUILD: denied");
    let e = ParseError::SyntaxError { path: "a/BUILD".to_string(), message: "bad".to_string() };
    assert_eq!(e.message(), "Failed to parse BUILD file a/BUILD: bad");
}

#[test]
fn sync_state_codes_round_trip() {
    for st in [SyncState::Idle, SyncState::Syncing, SyncState::Error, SyncState::Dead] {
        assert_eq!(SyncState::from_code(st.code()), st);
    }
    assert_eq!(SyncState::from_code(42), SyncState::Error);
    assert_eq!(SyncState::Dead.code(), 3);
}

#[test]
fn aspect_runs_for_new_targets_or_classpath_changes() {
    let old = file("/ws/p/BUILD", vec![rule("a", vec![])]);
    let same = old.clone();
    let mut changed = old.clone();
    changed.rules[0].deps = vec!["//x:y".to_string()];
    assert!(should_run_aspect(&None, &same, &[]));
    assert!(should_run_aspect(&Some(old.clone()), &same, &["//p:b".to_string()]));
    assert!(!should_run_aspect(&Some(old.clone()), &same, &[]));
    assert!(should_run_aspect(&Some(old), &changed, &[]));
}

#[test]
fn cached_build_file_from_graph_labels() {
    assert!(cached_build_file("/ws", "//pkg", &[], '/').is_none());
    let f = cached_build_file("/ws", "//pkg/sub", &["//pkg/sub:a".to_string(), "b".to_string()], '/').unwrap();
    assert_eq!(f.path, "/ws/pkg/sub");
    assert!(f.content_hash.is_empty());
    let names: Vec<&str> = f.rules.iter().map(|r| r.name.as_str()).collect();
    assert_eq!(names, vec!["a", "b"]);
    assert!(f.rules.iter().all(|r| matches!(r.rule_type, RuleType::JavaLibrary) && r.deps.is_empty()));
}

#[test]
fn aspect_targets_are_added_then_modified() {
    let r = aspect_build_targets(&["//a:a".to_string()], &["//b:b".to_string(), "//c:c".to_string()]);
    assert_eq!(r, vec!["//a:a".to_string(), "//b:b".to_string(), "//c:c".to_string()]);
}

#[test]
fn resolution_errors_point_at_missing_aspects() {
    assert_eq!(
        resolution_error_message("ERROR: repository 'x' not found"),
        "Bazel aspect build failed: the IDE aspect files are missing. Try running 'Bazel: Import Project' to re-extract them. Details: ERROR: repository 'x' not found"
    );
    assert_eq!(resolution_error_message("boom"), "Bazel aspect build failed: boom");
}

#[test]
fn pending_changes_are_recorded_once() {
    let mut pending = vec!["//a".to_string()];
    record_pending(&mut pending, true, &["//a".to_string(), "//b".to_string(), "//b".to_string()]);
    assert_eq!(pending, vec!["//a".to_string(), "__CONFIG_CHANGED__".to_string(), "//b".to_string()]);
    record_pending(&mut pending, true, &[]);
    assert_eq!(pending.len(), 3);
    assert!(!hash_needs_update(&HashLookup::Found("h".to_string()), "h"));
    assert!(hash_needs_update(&HashLookup::Found("old".to_string()), "h"));
    assert!(hash_needs_update(&HashLookup::Missing, "h"));
    assert!(hash_needs_update(&HashLookup::Failed("io".to_string()), "h"));
}

#[test]
fn test_detect_bazel_major_version_invalid_binary() {
    // A binary that cannot be run yields no successful output.
    assert_eq!(bazel_major_from_output(false, ""), 8);
}

#[test]
fn aspect_label_falls_back_to_intellij_aspect() {
    assert_eq!(
        aspect_label_or_fallback(None),
        "@intellij_aspect//:intellij_info.bzl%intellij_info_java"
    );
    assert_eq!(
        aspect_label_or_fallback(Some("//x:y.bzl%z".to_string())),
        "//x:y.bzl%z"
    );
}
