use bazel_jdt::classpath::{ClasspathEntry, ClasspathEntryType, ComputedClasspath, TargetKind, Visibility};
use bazel_jdt::graph::{DependencyGraph, ResolvedJar};
use bazel_jdt::ide_info::{ArtifactLocation, JarInfo, JavaIdeInfo, TargetIdeInfo};
use bazel_jdt::jars::infer_source_attachment;
use bazel_jdt::labels::is_bazel_internal_label;

fn make_target(label: &str, deps: Vec<&str>, jar_paths: Vec<&str>) -> TargetIdeInfo {
    let jars: Vec<JarInfo> = jar_paths
        .iter()
        .map(|p| JarInfo {
            jar: ArtifactLocation {
                absolute_path: Some(p.to_string()),
                ..Default::default()
            },
            ..Default::default()
        })
        .collect();

    TargetIdeInfo {
        label: label.to_string(),
        kind: "java_library".to_string(),
        build_file: None,
        java_info: if jars.is_empty() && deps.is_empty() {
            None
        } else {
            Some(JavaIdeInfo {
                jars,
                ..Default::default()
            })
        },
        deps: deps.iter().map(|s| s.to_string()).collect(),
        runtime_deps: Vec::new(),
        exports: Vec::new(),
    }
}

fn make_target_with_jar_path(label: &str, deps: Vec<&str>, jar_path: &str) -> TargetIdeInfo {
    TargetIdeInfo {
        label: label.to_string(),
        kind: "java_import".to_string(),
        build_file: None,
        java_info: Some(JavaIdeInfo {
            jars: vec![JarInfo {
                jar: ArtifactLocation {
                    absolute_path: Some(jar_path.to_string()),
                    ..Default::default()
                },
                ..Default::default()
            }],
            ..Default::default()
        }),
        deps: deps.iter().map(|s| s.to_string()).collect(),
        runtime_deps: Vec::new(),
        exports: Vec::new(),
    }
}

fn make_target_with_kind(
    label: &str,
    kind: &str,
    deps: Vec<&str>,
    runtime_deps: Vec<&str>,
    jar_paths: Vec<&str>,
) -> TargetIdeInfo {
    let jars: Vec<JarInfo> = jar_paths
        .iter()
        .map(|p| JarInfo {
            jar: ArtifactLocation {
                absolute_path: Some(p.to_string()),
                ..Default::default()
            },
            ..Default::default()
        })
        .collect();

    TargetIdeInfo {
        label: label.to_string(),
        kind: kind.to_string(),
        build_file: None,
        java_info: Some(JavaIdeInfo {
            jars,
            ..Default::default()
        }),
        deps: deps.iter().map(|s| s.to_string()).collect(),
        runtime_deps: runtime_deps.iter().map(|s| s.to_string()).collect(),
        exports: Vec::new(),
    }
}

fn populated(results: &[TargetIdeInfo]) -> DependencyGraph {
    let mut graph = DependencyGraph::new();
    graph.populate_from_aspects(results, "/workspace", None);
    graph
}

fn lib_entry(path: &str, source: Option<&str>) -> ClasspathEntry {
    ClasspathEntry {
        entry_type: ClasspathEntryType::Library,
        path: path.to_string(),
        source_attachment_path: source.map(|s| s.to_string()),
        is_test: false,
        is_exported: false,
        access_rules: Vec::new(),
        visibility: Visibility::default(),
    }
}

#[test]
fn test_toolchain_targets_filtered_from_proj_entries() {
    let graph = populated(&[
        make_target(
            "//app:app",
            vec!["@rules_java//java:toolchain", "@@rules_cc++ext//:compiler"],
            vec!["/app.jar"],
        ),
        make_target("@rules_java//java:toolchain", vec![], vec![]),
        make_target("@@rules_cc++ext//:compiler", vec![], vec![]),
    ]);
    let cp = ComputedClasspath::compute_for(&graph, "//app:app", TargetKind::JavaLibrary, None).unwrap();
    for entry in cp.entries.iter().filter(|e| e.entry_type == ClasspathEntryType::Project) {
        assert!(!entry.path.starts_with("@@"), "Expected no @@ entries, got: {}", entry.path);
    }
}

#[test]
fn test_regular_proj_entries_preserved() {
    let graph = populated(&[
        make_target("//app:app", vec!["//lib:utils"], vec!["/app.jar"]),
        make_target("//lib:utils", vec![], vec![]),
    ]);
    let cp = ComputedClasspath::compute_for(&graph, "//app:app", TargetKind::JavaLibrary, None).unwrap();
    let proj_paths: Vec<&str> = cp
        .entries
        .iter()
        .filter(|e| e.entry_type == ClasspathEntryType::Project)
        .map(|e| e.path.as_str())
        .collect();
    assert!(proj_paths.contains(&"//lib:utils"), "Expected //lib:utils PROJ entry, got: {:?}", proj_paths);
}

#[test]
fn test_mixed_deps_filters_only_at_at() {
    let graph = populated(&[
        make_target("//app:app", vec!["//lib:utils", "@@toolchain//:tc", "//lib:api"], vec!["/app.jar"]),
        make_target("//lib:utils", vec![], vec![]),
        make_target("@@toolchain//:tc", vec![], vec![]),
        make_target("//lib:api", vec![], vec![]),
    ]);
    let cp = ComputedClasspath::compute_for(&graph, "//app:app", TargetKind::JavaLibrary, None).unwrap();
    let proj_paths: Vec<&str> = cp
        .entries
        .iter()
        .filter(|e| e.entry_type == ClasspathEntryType::Project)
        .map(|e| e.path.as_str())
        .collect();
    assert_eq!(proj_paths.len(), 2);
    assert!(proj_paths.contains(&"//lib:utils"));
    assert!(proj_paths.contains(&"//lib:api"));
    assert!(!proj_paths.iter().any(|p| p.starts_with("@@")));
}

#[test]
fn test_regular_lib_dep_of_test_target_is_not_test() {
    let mut test_target = make_target("//app:app_test", vec!["//lib:greeter_lib"], vec![]);
    test_target.kind = "java_test".to_string();
    let graph = populated(&[test_target, make_target("//lib:greeter_lib", vec![], vec!["/greeter.jar"])]);
    let cp = ComputedClasspath::compute_for(&graph, "//app:app_test", TargetKind::JavaTest, None).unwrap();
    let greeter_entry = cp.entries.iter().find(|e| e.path == "/greeter.jar").unwrap();
    assert!(!greeter_entry.is_test, "Regular library dep should NOT have is_test=true");
}

#[test]
fn test_testonly_dep_of_test_target_is_test() {
    let mut test_target = make_target("//app:app_test", vec!["//lib:test_helpers"], vec![]);
    test_target.kind = "java_test".to_string();
    let mut test_helpers = make_target("//lib:test_helpers", vec![], vec!["/helpers.jar"]);
    test_helpers.kind = "java_test".to_string();
    let graph = populated(&[test_target, test_helpers]);
    let cp = ComputedClasspath::compute_for(&graph, "//app:app_test", TargetKind::JavaTest, None).unwrap();
    let helpers_entry = cp.entries.iter().find(|e| e.path == "/helpers.jar").unwrap();
    assert!(helpers_entry.is_test, "Testonly dep should have is_test=true");
}

#[test]
fn test_library_target_all_deps_not_test() {
    let mut test_helpers = make_target("//lib:test_helpers", vec![], vec!["/helpers.jar"]);
    test_helpers.kind = "java_test".to_string();
    let graph = populated(&[make_target("//app:app", vec!["//lib:test_helpers"], vec!["/app.jar"]), test_helpers]);
    let cp = ComputedClasspath::compute_for(&graph, "//app:app", TargetKind::JavaLibrary, None).unwrap();
    for entry in &cp.entries {
        assert!(!entry.is_test, "Library target deps should all have is_test=false, got is_test=true for {}", entry.path);
    }
}

#[test]
fn test_internal_dep_with_jars_produces_proj_and_lib() {
    let graph = populated(&[
        make_target("//app:app", vec!["//lib:utils"], vec!["/app.jar"]),
        make_target("//lib:utils", vec![], vec!["/utils.jar"]),
    ]);
    let cp = ComputedClasspath::compute_for(&graph, "//app:app", TargetKind::JavaLibrary, None).unwrap();
    let proj_idx = cp
        .entries
        .iter()
        .position(|e| e.entry_type == ClasspathEntryType::Project && e.path == "//lib:utils");
    let lib_idx = cp
        .entries
        .iter()
        .position(|e| e.entry_type == ClasspathEntryType::Library && e.path == "/utils.jar");
    assert!(proj_idx.is_some(), "Expected PROJ entry for //lib:utils");
    assert!(lib_idx.is_some(), "Expected LIB entry for /utils.jar");
    assert!(proj_idx.unwrap() < lib_idx.unwrap(), "PROJ entry should appear before LIB entry for same dependency");
}

#[test]
fn test_internal_dep_without_jars_produces_only_proj() {
    let graph = populated(&[
        make_target("//app:app", vec!["//lib:api"], vec!["/app.jar"]),
        make_target("//lib:api", vec![], vec![]),
    ]);
    let cp = ComputedClasspath::compute_for(&graph, "//app:app", TargetKind::JavaLibrary, None).unwrap();
    let proj_count = cp
        .entries
        .iter()
        .filter(|e| e.entry_type == ClasspathEntryType::Project && e.path == "//lib:api")
        .count();
    let lib_count = cp
        .entries
        .iter()
        .filter(|e| e.entry_type == ClasspathEntryType::Library && e.path.contains("api"))
        .count();
    assert_eq!(proj_count, 1, "Expected exactly one PROJ entry for //lib:api");
    assert_eq!(lib_count, 0, "Expected no LIB entries for //lib:api (no JAR data)");
}

#[test]
fn test_external_dep_produces_only_lib() {
    let graph = populated(&[
        make_target("//app:app", vec!["@maven//:guava"], vec!["/app.jar"]),
        make_target("@maven//:guava", vec![], vec!["/guava.jar"]),
    ]);
    let cp = ComputedClasspath::compute_for(&graph, "//app:app", TargetKind::JavaLibrary, None).unwrap();
    let proj_count = cp.entries.iter().filter(|e| e.entry_type == ClasspathEntryType::Project).count();
    let lib_count = cp
        .entries
        .iter()
        .filter(|e| e.entry_type == ClasspathEntryType::Library && e.path == "/guava.jar")
        .count();
    assert_eq!(proj_count, 0, "Expected no PROJ entries for external @maven dependency");
    assert_eq!(lib_count, 1, "Expected exactly one LIB entry for guava.jar");
}

#[test]
fn test_at_at_prefixed_dep_produces_no_entries() {
    let graph = populated(&[
        make_target(
            "//app:app",
            vec!["@@bazel_tools//tools/jdk:toolchain", "@@platforms//cpu:cpu"],
            vec!["/app.jar"],
        ),
        make_target("@@bazel_tools//tools/jdk:toolchain", vec![], vec![]),
        make_target("@@platforms//cpu:cpu", vec![], vec![]),
    ]);
    let cp = ComputedClasspath::compute_for(&graph, "//app:app", TargetKind::JavaLibrary, None).unwrap();
    let internal_entries: Vec<&ClasspathEntry> = cp
        .entries
        .iter()
        .filter(|e| e.path.contains("bazel_tools") || e.path.contains("platforms"))
        .collect();
    assert!(internal_entries.is_empty(), "Expected no entries for Bazel-internal @@ targets, got: {:?}", internal_entries);
}

#[test]
fn test_canonical_external_dep_produces_lib_entry() {
    let graph = populated(&[
        make_target("//app:app", vec!["@@maven//:com_google_guava_guava"], vec!["/app.jar"]),
        make_target("@@maven//:com_google_guava_guava", vec![], vec!["/guava-33.4.0-jre.jar"]),
    ]);
    let cp = ComputedClasspath::compute_for(&graph, "//app:app", TargetKind::JavaLibrary, None).unwrap();
    let proj_count = cp.entries.iter().filter(|e| e.entry_type == ClasspathEntryType::Project).count();
    let guava_lib = cp
        .entries
        .iter()
        .find(|e| e.entry_type == ClasspathEntryType::Library && e.path == "/guava-33.4.0-jre.jar");
    assert_eq!(proj_count, 0, "Expected no PROJ entries for external @@maven dep");
    assert!(guava_lib.is_some(), "Expected LIB entry for guava JAR, got entries: {:?}", cp.entries);
}

#[test]
fn test_canonical_mixed_deps_ordering() {
    let graph = populated(&[
        make_target(
            "//app:app",
            vec!["//utils:string_utils", "@@maven//:guava", "//service:api"],
            vec!["/app.jar"],
        ),
        make_target("//utils:string_utils", vec![], vec!["/utils.jar"]),
        make_target("@@maven//:guava", vec![], vec!["/guava.jar"]),
        make_target("//service:api", vec![], vec![]),
    ]);
    let cp = ComputedClasspath::compute_for(&graph, "//app:app", TargetKind::JavaLibrary, None).unwrap();
    let pos = |t: ClasspathEntryType, p: &str| cp.entries.iter().position(|e| e.entry_type == t && e.path == p);
    let utils_proj_idx = pos(ClasspathEntryType::Project, "//utils:string_utils");
    let utils_lib_idx = pos(ClasspathEntryType::Library, "/utils.jar");
    let guava_lib_idx = pos(ClasspathEntryType::Library, "/guava.jar");
    let api_proj_idx = pos(ClasspathEntryType::Project, "//service:api");
    let guava_proj_idx = pos(ClasspathEntryType::Project, "@@maven//:guava");
    assert!(utils_proj_idx.is_some(), "Expected PROJ for //utils:string_utils");
    assert!(utils_lib_idx.is_some(), "Expected LIB for /utils.jar");
    assert!(guava_lib_idx.is_some(), "Expected LIB for /guava.jar from @@maven dep");
    assert!(api_proj_idx.is_some(), "Expected PROJ for //service:api");
    assert!(guava_proj_idx.is_none(), "Expected no PROJ for external @@maven//:guava");
    assert!(utils_proj_idx.unwrap() < utils_lib_idx.unwrap(), "PROJ for utils should precede its LIB");
}

#[test]
fn test_canonical_external_dep_no_jars_produces_nothing() {
    let graph = populated(&[
        make_target("//app:app", vec!["@@maven//:some_target"], vec!["/app.jar"]),
        make_target("@@maven//:some_target", vec![], vec![]),
    ]);
    let cp = ComputedClasspath::compute_for(&graph, "//app:app", TargetKind::JavaLibrary, None).unwrap();
    let maven_entries: Vec<&ClasspathEntry> = cp.entries.iter().filter(|e| e.path.contains("maven")).collect();
    assert!(maven_entries.is_empty(), "Expected no entries for @@maven target with no JAR data, got: {:?}", maven_entries);
}

#[test]
fn test_mixed_deps_correct_ordering() {
    let graph = populated(&[
        make_target("//app:app", vec!["//lib:utils", "@maven//:guava", "//lib:api"], vec!["/app.jar"]),
        make_target("//lib:utils", vec![], vec!["/utils.jar"]),
        make_target("@maven//:guava", vec![], vec!["/guava.jar"]),
        make_target("//lib:api", vec![], vec![]),
    ]);
    let cp = ComputedClasspath::compute_for(&graph, "//app:app", TargetKind::JavaLibrary, None).unwrap();
    let pos = |t: ClasspathEntryType, p: &str| cp.entries.iter().position(|e| e.entry_type == t && e.path == p);
    let utils_proj_idx = pos(ClasspathEntryType::Project, "//lib:utils");
    let utils_lib_idx = pos(ClasspathEntryType::Library, "/utils.jar");
    let guava_lib_idx = pos(ClasspathEntryType::Library, "/guava.jar");
    let api_proj_idx = pos(ClasspathEntryType::Project, "//lib:api");
    let guava_proj_idx = pos(ClasspathEntryType::Project, "@maven//:guava");
    assert!(utils_proj_idx.is_some(), "Expected PROJ for //lib:utils");
    assert!(utils_lib_idx.is_some(), "Expected LIB for /utils.jar");
    assert!(guava_lib_idx.is_some(), "Expected LIB for /guava.jar");
    assert!(api_proj_idx.is_some(), "Expected PROJ for //lib:api");
    assert!(guava_proj_idx.is_none(), "Expected no PROJ for external @maven//:guava");
    assert!(utils_proj_idx.unwrap() < utils_lib_idx.unwrap(), "PROJ for utils should precede its LIB");
}

#[test]
fn test_rules_jvm_external_not_filtered() {
    let graph = populated(&[
        make_target(
            "//app:app",
            vec!["@@rules_jvm_external~maven~maven//:com_google_guava_guava"],
            vec!["/app.jar"],
        ),
        make_target_with_jar_path("@@rules_jvm_external~maven~maven//:com_google_guava_guava", vec![], "/guava.jar"),
    ]);
    let cp = ComputedClasspath::compute_for(&graph, "//app:app", TargetKind::JavaLibrary, None).unwrap();
    let guava_entries: Vec<&ClasspathEntry> = cp.entries.iter().filter(|e| e.path.contains("guava")).collect();
    assert!(!guava_entries.is_empty(), "Expected LIB entry for @@rules_jvm_external maven dep, got: {:?}", cp.entries);
}

#[test]
fn test_label_alias_registered_on_canonical_target() {
    let graph = populated(&[make_target_with_jar_path(
        "@@rules_jvm_external~maven~maven//:com_google_guava_guava",
        vec![],
        "/guava.jar",
    )]);
    let jars = graph.get_target_jars("@maven//:com_google_guava_guava");
    assert!(jars.is_some(), "Expected JAR data for @maven//:guava via alias");
    assert_eq!(jars.unwrap().len(), 1);
}

#[test]
fn test_get_target_jars_resolves_alias() {
    let mut graph = DependencyGraph::new();
    graph.add_target("@@rules_jvm_external~maven~maven//:guava");
    graph.set_target_jars(
        "@@rules_jvm_external~maven~maven//:guava",
        vec![ResolvedJar {
            full_jar_path: "/guava.jar".to_string(),
            compile_jar_path: None,
            runtime_jar_path: None,
            source_path: None,
        }],
    );
    graph.set_label_alias("@maven//:guava", "@@rules_jvm_external~maven~maven//:guava");

    let jars = graph.get_target_jars("@maven//:guava");
    assert!(jars.is_some());
    assert_eq!(jars.unwrap()[0].full_jar_path, "/guava.jar");
}

#[test]
fn test_transitive_deps_via_alias() {
    let mut graph = DependencyGraph::new();
    graph.add_target("//utils:string_utils");
    graph.add_target("@maven//:com_google_guava_guava");
    graph.add_dep("//utils:string_utils", "@maven//:com_google_guava_guava");
    graph.add_target("@@rules_jvm_external~maven~maven//:com_google_guava_guava");
    graph.set_target_jars(
        "@@rules_jvm_external~maven~maven//:com_google_guava_guava",
        vec![ResolvedJar {
            full_jar_path: "/guava-33.4.0-jre.jar".to_string(),
            compile_jar_path: None,
            runtime_jar_path: None,
            source_path: None,
        }],
    );
    graph.set_label_alias(
        "@maven//:com_google_guava_guava",
        "@@rules_jvm_external~maven~maven//:com_google_guava_guava",
    );
    let cp = ComputedClasspath::compute_for(&graph, "//utils:string_utils", TargetKind::JavaLibrary, None).unwrap();
    let guava_lib = cp
        .entries
        .iter()
        .find(|e| e.entry_type == ClasspathEntryType::Library && e.path.contains("guava"));
    assert!(guava_lib.is_some(), "Expected Guava LIB entry via alias resolution, got: {:?}", cp.entries);
}

#[test]
fn test_clear_resets_label_aliases() {
    let mut graph = DependencyGraph::new();
    graph.set_label_alias("@maven//:guava", "@@rules_jvm_external~maven~maven//:guava");
    assert!(graph.has_label_aliases());
    graph.clear();
    assert!(!graph.has_label_aliases());
}

#[test]
fn test_merge_overlapping_deps() {
    let graph = populated(&[
        make_target("//pkg:A", vec!["@maven//:guava", "@maven//:mongo"], vec!["/a.jar"]),
        make_target("@maven//:guava", vec![], vec!["/guava.jar"]),
        make_target("@maven//:mongo", vec![], vec!["/mongo.jar"]),
        make_target("//pkg:B", vec!["@maven//:guava"], vec!["/b.jar"]),
    ]);
    let cp = ComputedClasspath::compute_for_targets(&graph, &["//pkg:A", "//pkg:B"], None).unwrap();
    let paths: Vec<&str> = cp
        .entries
        .iter()
        .filter(|e| e.entry_type == ClasspathEntryType::Library)
        .map(|e| e.path.as_str())
        .collect();
    assert!(paths.contains(&"/guava.jar"), "Expected guava.jar");
    assert!(paths.contains(&"/mongo.jar"), "Expected mongo.jar");
    let guava_count = paths.iter().filter(|p| **p == "/guava.jar").count();
    assert_eq!(guava_count, 1, "guava.jar should appear exactly once");
}

#[test]
fn test_merge_is_test_conflict() {
    let mut test_target = make_target("//pkg:A_test", vec!["//lib:helpers"], vec![]);
    test_target.kind = "java_test".to_string();
    let mut helpers = make_target("//lib:helpers", vec![], vec!["/helpers.jar"]);
    helpers.kind = "java_test".to_string();
    let graph = populated(&[test_target, helpers, make_target("//pkg:B", vec!["//lib:helpers"], vec!["/b.jar"])]);
    let cp = ComputedClasspath::compute_for_targets(&graph, &["//pkg:A_test", "//pkg:B"], None).unwrap();
    let helpers_entry = cp.entries.iter().find(|e| e.path == "/helpers.jar").expect("Expected helpers.jar");
    assert!(!helpers_entry.is_test, "Merged is_test should be false when any target uses it as non-test");
}

#[test]
fn test_merge_proj_before_lib_ordering() {
    let graph = populated(&[
        make_target("//pkg:A", vec!["//lib:utils"], vec!["/a.jar"]),
        make_target("//lib:utils", vec![], vec!["/utils.jar"]),
        make_target("//pkg:B", vec!["//lib:utils"], vec!["/b.jar"]),
    ]);
    let cp = ComputedClasspath::compute_for_targets(&graph, &["//pkg:A", "//pkg:B"], None).unwrap();
    let proj_idx = cp
        .entries
        .iter()
        .position(|e| e.entry_type == ClasspathEntryType::Project && e.path == "//lib:utils");
    let lib_idx = cp
        .entries
        .iter()
        .position(|e| e.entry_type == ClasspathEntryType::Library && e.path == "/utils.jar");
    assert!(proj_idx.is_some(), "Expected PROJ entry for //lib:utils");
    assert!(lib_idx.is_some(), "Expected LIB entry for /utils.jar");
    assert!(proj_idx.unwrap() < lib_idx.unwrap(), "PROJ should appear before LIB in merged result");
}

#[test]
fn test_merge_single_target_passthrough() {
    let graph = populated(&[
        make_target("//pkg:A", vec!["@maven//:guava"], vec!["/a.jar"]),
        make_target("@maven//:guava", vec![], vec!["/guava.jar"]),
    ]);
    let single = ComputedClasspath::compute_for(&graph, "//pkg:A", TargetKind::JavaLibrary, None).unwrap();
    let merged = ComputedClasspath::compute_for_targets(&graph, &["//pkg:A"], None).unwrap();
    assert_eq!(single.entries.len(), merged.entries.len());
    for (s, m) in single.entries.iter().zip(merged.entries.iter()) {
        assert_eq!(s.entry_type, m.entry_type);
        assert_eq!(s.path, m.path);
    }
}

#[test]
fn test_merge_empty_labels() {
    let graph = DependencyGraph::new();
    let cp = ComputedClasspath::compute_for_targets(&graph, &[], None).unwrap();
    assert!(cp.entries.is_empty());
}

#[test]
fn test_classpath_entry_no_source_when_not_available() {
    let graph = populated(&[
        make_target("//app:app", vec!["@maven//:guava"], vec!["/app.jar"]),
        make_target_with_jar_path("@maven//:guava", vec![], "/guava.jar"),
    ]);
    let cp = ComputedClasspath::compute_for(&graph, "//app:app", TargetKind::JavaLibrary, None).unwrap();
    let guava_entry = cp.entries.iter().find(|e| e.path == "/guava.jar").expect("Expected guava.jar entry");
    assert!(guava_entry.source_attachment_path.is_none(), "Expected no source attachment when JarInfo has no source_jar");
}

#[test]
fn test_pipe_delimited_includes_source_path() {
    let cp = ComputedClasspath {
        target_label: "//app:app".to_string(),
        entries: vec![lib_entry("/guava.jar", Some("/guava-sources.jar"))],
        source_roots: Vec::new(),
        generated_source_dirs: Vec::new(),
        annotation_processors: Vec::new(),
        output_jars: Vec::new(),
    };
    let lines = cp.to_pipe_delimited_entries();
    assert_eq!(lines.len(), 1);
    assert_eq!(lines[0], "LIB|/guava.jar|/guava-sources.jar|false|false|", "Expected source path in pipe-delimited field 2");
}

#[test]
fn test_workspace_internal_label_filtering() {
    assert!(!is_bazel_internal_label("//utils:string_utils"));
    assert!(!is_bazel_internal_label("//service:user_service"));
    assert!(!is_bazel_internal_label("@maven//:guava"));
    assert!(!is_bazel_internal_label("@@maven//:guava"));
    assert!(is_bazel_internal_label("@@bazel_tools//tools/jdk:toolchain"));
    assert!(is_bazel_internal_label("@@local_config_cc//:compiler"));
    assert!(is_bazel_internal_label("@@platforms//cpu:cpu"));
}

#[test]
fn test_infer_source_attachment_no_workspace_root() {
    let result = infer_source_attachment("//utils:string_utils", None);
    assert_eq!(result, None);
}

#[test]
fn test_infer_source_attachment_substring_fallback() {
    let ws = "/nonexistent-workspace-for-source-inference".to_string();
    let result = infer_source_attachment("//some/src/main/java/com/example:lib", Some(&ws));
    assert_eq!(result, Some(format!("{}/some/src/main/java", ws)));
}

#[test]
fn test_importer_named_target_gets_transitive_deps() {
    let graph = populated(&[
        make_target("//funds/csv:funds_csv_importer", vec!["@maven//:guava", "//lib:utils"], vec!["/importer.jar"]),
        make_target("@maven//:guava", vec![], vec!["/guava.jar"]),
        make_target("//lib:utils", vec![], vec!["/utils.jar"]),
    ]);
    let cp = ComputedClasspath::compute_for_targets(&graph, &["//funds/csv:funds_csv_importer"], None).unwrap();
    let lib_paths: Vec<&str> = cp
        .entries
        .iter()
        .filter(|e| e.entry_type == ClasspathEntryType::Library)
        .map(|e| e.path.as_str())
        .collect();
    assert!(lib_paths.contains(&"/guava.jar"), "Expected transitive dep guava.jar, got: {:?}", lib_paths);
    assert!(lib_paths.contains(&"/utils.jar"), "Expected transitive dep utils.jar, got: {:?}", lib_paths);
}

#[test]
fn test_output_jars_included_in_pipe_delimited() {
    let cp = ComputedClasspath {
        target_label: "//app:app".to_string(),
        entries: vec![],
        source_roots: Vec::new(),
        generated_source_dirs: Vec::new(),
        annotation_processors: Vec::new(),
        output_jars: vec!["/bazel-bin/app/app.jar".to_string()],
    };
    let lines = cp.to_pipe_delimited_entries();
    assert_eq!(lines.len(), 1);
    assert_eq!(lines[0], "LIB|/bazel-bin/app/app.jar||false|false|", "output_jar should be serialized as a LIB entry");
}

#[test]
fn test_output_jars_before_dependency_entries() {
    let cp = ComputedClasspath {
        target_label: "//app:app".to_string(),
        entries: vec![lib_entry("/guava.jar", None)],
        source_roots: Vec::new(),
        generated_source_dirs: Vec::new(),
        annotation_processors: Vec::new(),
        output_jars: vec!["/bazel-bin/app/app.jar".to_string()],
    };
    let lines = cp.to_pipe_delimited_entries();
    assert_eq!(lines.len(), 2);
    assert!(lines[0].contains("/bazel-bin/app/app.jar"), "output_jar should appear BEFORE dependency entries, got: {:?}", lines);
    assert!(lines[1].contains("/guava.jar"), "dependency entry should appear AFTER output_jar, got: {:?}", lines);
}

#[test]
fn test_empty_output_jars_no_extra_entries() {
    let cp = ComputedClasspath {
        target_label: "//app:app".to_string(),
        entries: vec![lib_entry("/guava.jar", None)],
        source_roots: Vec::new(),
        generated_source_dirs: Vec::new(),
        annotation_processors: Vec::new(),
        output_jars: Vec::new(),
    };
    let lines = cp.to_pipe_delimited_entries();
    assert_eq!(lines.len(), 1, "Empty output_jars should not add extra entries");
}

#[test]
fn test_merged_targets_output_jars_in_pipe_delimited() {
    let graph = populated(&[
        make_target("//pkg:A", vec![], vec!["/a.jar"]),
        make_target("//pkg:B", vec![], vec!["/b.jar"]),
    ]);
    let cp = ComputedClasspath::compute_for_targets(&graph, &["//pkg:A", "//pkg:B"], None).unwrap();
    let lines = cp.to_pipe_delimited_entries();
    let output_jar_lines: Vec<&String> = lines.iter().filter(|l| l.contains("/a.jar") || l.contains("/b.jar")).collect();
    assert!(output_jar_lines.len() >= 2, "Expected output_jars from both targets in pipe-delimited output, got: {:?}", lines);
}

#[test]
fn test_java_import_output_jars_serialized() {
    let graph = populated(&[make_target_with_jar_path("@maven//:guava", vec![], "/guava.jar")]);
    let cp = ComputedClasspath::compute_for(&graph, "@maven//:guava", TargetKind::JavaImport, None).unwrap();
    assert!(!cp.output_jars.is_empty(), "java_import should have output_jars");
    let lines = cp.to_pipe_delimited_entries();
    assert!(lines.iter().any(|l| l.contains("/guava.jar")), "java_import output_jars should appear, got: {:?}", lines);
}

#[test]
fn test_output_jars_deduplicated_against_entries() {
    let shared_path = "/workspace/bazel-bin/lib/libfoo.jar";
    let cp = ComputedClasspath {
        target_label: "//lib:foo".to_string(),
        entries: vec![ClasspathEntry {
            entry_type: ClasspathEntryType::Library,
            path: shared_path.to_string(),
            source_attachment_path: Some("/workspace/lib/src".to_string()),
            is_test: false,
            is_exported: true,
            access_rules: vec![],
            visibility: Visibility::Public,
        }],
        output_jars: vec![shared_path.to_string()],
        source_roots: vec![],
        generated_source_dirs: vec![],
        annotation_processors: vec![],
    };
    let lines = cp.to_pipe_delimited_entries();
    let count = lines.iter().filter(|l| l.contains(shared_path)).count();
    assert_eq!(count, 1, "JAR present in both output_jars and entries should appear only once, got: {:?}", lines);
    assert!(lines[0].starts_with("LIB|"), "the single entry should be the dependency LIB entry (with source attachment)");
    assert!(lines[0].contains("/workspace/lib/src"), "should preserve source attachment from the dependency entry");
}

#[test]
fn test_java_binary_no_srcs_includes_runtime_deps_jars() {
    let graph = populated(&[
        make_target_with_kind("//app:app", "java_binary", vec![], vec!["//lib:lib"], vec!["/workspace/bazel-bin/app/app.jar"]),
        make_target_with_kind("//lib:lib", "java_library", vec![], vec![], vec!["/workspace/bazel-bin/lib/liblib.jar"]),
    ]);
    let cp = ComputedClasspath::compute_for(&graph, "//app:app", TargetKind::JavaBinary, None).unwrap();
    assert!(
        cp.output_jars.contains(&"/workspace/bazel-bin/lib/liblib.jar".to_string()),
        "java_binary output_jars should contain runtime_deps jar, got: {:?}",
        cp.output_jars
    );
}

#[test]
fn test_java_binary_with_srcs_includes_dep_jars() {
    let graph = populated(&[
        make_target_with_kind("//app:app", "java_binary", vec!["//lib:lib"], vec![], vec!["/workspace/bazel-bin/app/app.jar"]),
        make_target_with_kind("//lib:lib", "java_library", vec![], vec![], vec!["/workspace/bazel-bin/lib/liblib.jar"]),
    ]);
    let cp = ComputedClasspath::compute_for(&graph, "//app:app", TargetKind::JavaBinary, None).unwrap();
    assert!(cp.output_jars.contains(&"/workspace/bazel-bin/app/app.jar".to_string()), "should contain target's own jar, got: {:?}", cp.output_jars);
    assert!(cp.output_jars.contains(&"/workspace/bazel-bin/lib/liblib.jar".to_string()), "should contain dep jar, got: {:?}", cp.output_jars);
}

#[test]
fn test_java_binary_dep_jar_deduplicated_in_serialization() {
    let graph = populated(&[
        make_target_with_kind("//app:app", "java_binary", vec!["//lib:lib"], vec![], vec!["/workspace/bazel-bin/app/app.jar"]),
        make_target_with_kind("//lib:lib", "java_library", vec![], vec![], vec!["/workspace/bazel-bin/lib/liblib.jar"]),
    ]);
    let cp = ComputedClasspath::compute_for(&graph, "//app:app", TargetKind::JavaBinary, None).unwrap();
    let lines = cp.to_pipe_delimited_entries();
    let lib_count = lines.iter().filter(|l| l.contains("/workspace/bazel-bin/lib/liblib.jar")).count();
    assert_eq!(lib_count, 1, "dep jar should appear exactly once in serialized output, got: {:?}", lines);
}

#[test]
fn test_java_library_output_jars_unchanged() {
    let graph = populated(&[
        make_target_with_kind("//lib:lib", "java_library", vec!["//lib:dep"], vec![], vec!["/workspace/bazel-bin/lib/liblib.jar"]),
        make_target_with_kind("//lib:dep", "java_library", vec![], vec![], vec!["/workspace/bazel-bin/lib/libdep.jar"]),
    ]);
    let cp = ComputedClasspath::compute_for(&graph, "//lib:lib", TargetKind::JavaLibrary, None).unwrap();
    assert_eq!(cp.output_jars, vec!["/workspace/bazel-bin/lib/liblib.jar"], "java_library output_jars should only contain target's own jars");
    assert!(!cp.output_jars.contains(&"/workspace/bazel-bin/lib/libdep.jar".to_string()), "java_library output_jars should NOT contain dep jars");
}

#[test]
fn duplicate_jars_are_reported_with_counts() {
    let cp = ComputedClasspath {
        target_label: "//app:app".to_string(),
        entries: vec![lib_entry("/a.jar", None), lib_entry("/b.jar", None), lib_entry("/a.jar", None)],
        source_roots: Vec::new(),
        generated_source_dirs: Vec::new(),
        annotation_processors: Vec::new(),
        output_jars: Vec::new(),
    };
    let conflicts = cp.detect_duplicate_jars();
    assert_eq!(conflicts.len(), 1);
    assert_eq!(conflicts[0].jar_path, "/a.jar");
    assert_eq!(conflicts[0].occurrences, 2);
}

#[test]
fn unknown_target_is_an_error() {
    let graph = DependencyGraph::new();
    let r = ComputedClasspath::compute_for(&graph, "//missing:x", TargetKind::JavaLibrary, None);
    assert!(r.is_err());
    assert_eq!(r.err().unwrap().message(), "Target not found: //missing:x");
}

#[test]
fn project_entries_are_only_workspace_targets() {
    let graph = populated(&[
        make_target(
            "//app:app",
            vec!["//lib:utils", "@maven//:guava", "@@bazel_tools//tools/jdk:toolchain", "@@rules_jvm_external~maven~maven//:x"],
            vec!["/app.jar"],
        ),
        make_target("//lib:utils", vec![], vec!["/utils.jar"]),
        make_target("@maven//:guava", vec![], vec!["/guava.jar"]),
        make_target("@@bazel_tools//tools/jdk:toolchain", vec![], vec!["/tool.jar"]),
        make_target("@@rules_jvm_external~maven~maven//:x", vec![], vec!["/x.jar"]),
    ]);
    let cp = ComputedClasspath::compute_for(&graph, "//app:app", TargetKind::JavaLibrary, None).unwrap();
    let projects: Vec<&str> = cp
        .entries
        .iter()
        .filter(|e| e.entry_type == ClasspathEntryType::Project)
        .map(|e| e.path.as_str())
        .collect();
    assert_eq!(projects, vec!["//lib:utils"]);
    assert!(cp.entries.iter().all(|e| e.path != "/tool.jar"));
}
