use bazel_jdt::classpath::{ComputedClasspath, TargetKind};
use bazel_jdt::graph::{DependencyGraph, ResolvedJar};
use bazel_jdt::ide_info::{ArtifactLocation, JarInfo, JavaIdeInfo, TargetIdeInfo};
use bazel_jdt::jars::{
    absolutize_source_path, build_resolved_jars, convention_path, extract_maven_coordinates, maven_cache_path,
    normalize_artifact_path, pick_source, validate_source_jar,
};
use bazel_jdt::labels::{normalize_dep_label, normalize_label, package_of, package_path};
use bazel_jdt::model::{JavaRule, LoadStatement, ParsedBuildFile, RuleType};
use bazel_jdt::state::invalidated_by_update;

fn make_target(label: &str, deps: Vec<&str>, jar_paths: Vec<&str>) -> TargetIdeInfo {
    let jars: Vec<JarInfo> = jar_paths
        .iter()
        .map(|p| JarInfo {
            jar: ArtifactLocation {
                absolute_path: Some(p.to_string()),
                ..Default::default()
            },
            ..Default::default()
        })
        .collect();

    TargetIdeInfo {
        label: label.to_string(),
        kind: "java_library".to_string(),
        build_file: None,
        java_info: if jars.is_empty() && deps.is_empty() {
            None
        } else {
            Some(JavaIdeInfo {
                jars,
                ..Default::default()
            })
        },
        deps: deps.iter().map(|s| s.to_string()).collect(),
        runtime_deps: Vec::new(),
        exports: Vec::new(),
    }
}

fn make_target_with_compile_jars(label: &str, deps: Vec<&str>, compile_jar_paths: Vec<&str>) -> TargetIdeInfo {
    let compile_jars: Vec<ArtifactLocation> = compile_jar_paths
        .iter()
        .map(|p| ArtifactLocation {
            absolute_path: Some(p.to_string()),
            ..Default::default()
        })
        .collect();

    TargetIdeInfo {
        label: label.to_string(),
        kind: "java_import".to_string(),
        build_file: None,
        java_info: Some(JavaIdeInfo {
            jars: vec![],
            compile_jars,
            ..Default::default()
        }),
        deps: deps.iter().map(|s| s.to_string()).collect(),
        runtime_deps: Vec::new(),
        exports: Vec::new(),
    }
}

fn rule(name: &str, deps: Vec<&str>, runtime_deps: Vec<&str>, test_only: bool) -> JavaRule {
    JavaRule {
        rule_type: RuleType::JavaLibrary,
        name: name.to_string(),
        srcs: vec![],
        deps: deps.iter().map(|s| s.to_string()).collect(),
        runtime_deps: runtime_deps.iter().map(|s| s.to_string()).collect(),
        resources: vec![],
        plugins: vec![],
        exports: vec![],
        test_only,
        visibility: vec![],
    }
}

fn build_file(path: &str, rules: Vec<JavaRule>) -> ParsedBuildFile {
    ParsedBuildFile { path: path.to_string(), content_hash: String::new(), rules, loads: vec![] }
}

fn jar(full: &str) -> ResolvedJar {
    ResolvedJar { full_jar_path: full.to_string(), compile_jar_path: None, runtime_jar_path: None, source_path: None }
}

#[test]
fn test_populate_from_aspects_basic() {
    let mut graph = DependencyGraph::new();
    let results = vec![
        make_target("//foo:lib", vec!["//bar:util"], vec!["/path/lib.jar"]),
        make_target("//bar:util", vec![], vec!["/path/util.jar"]),
        make_target("//baz:app", vec!["//foo:lib"], vec![]),
    ];
    graph.populate_from_aspects(&results, "/workspace", None);
}

#[test]
fn test_populate_from_aspects_empty() {
    let mut graph = DependencyGraph::new();
    graph.populate_from_aspects(&[], "/workspace", None);
    assert_eq!(graph.target_count(), 0);
}

#[test]
fn test_populate_from_aspects_duplicate_target() {
    let mut graph = DependencyGraph::new();
    let results = vec![
        make_target("//foo:lib", vec![], vec!["/first.jar"]),
        make_target("//foo:lib", vec![], vec!["/second.jar"]),
    ];
    graph.populate_from_aspects(&results, "/workspace", None);
    assert_eq!(graph.target_count(), 1);
    let jars = graph.get_target_jars("//foo:lib").unwrap();
    assert_eq!(jars[0].full_jar_path, "/second.jar");
}

#[test]
fn test_populate_from_parsed_basic() {
    let mut graph = DependencyGraph::new();
    let workspace_root = "/workspace";
    let parsed = ParsedBuildFile {
        path: "/workspace/foo/bar/BUILD".to_string(),
        content_hash: String::new(),
        rules: vec![JavaRule {
            rule_type: RuleType::JavaLibrary,
            name: "mylib".to_string(),
            srcs: vec!["MyLib.java".to_string()],
            deps: vec!["//common:utils".to_string()],
            runtime_deps: vec!["//runtime:dep".to_string()],
            resources: vec![],
            plugins: vec![],
            exports: vec![],
            test_only: false,
            visibility: vec![],
        }],
        loads: vec![LoadStatement {
            path: "@rules_java//java:defs.bzl".to_string(),
            symbols: vec!["java_library".to_string()],
        }],
    };
    graph.populate_from_parsed(&parsed, workspace_root);
    assert_eq!(graph.target_count(), 3);
    assert!(graph.has_target("//foo/bar:mylib"));
    assert!(graph.has_target("//common:utils"));
    assert!(graph.has_target("//runtime:dep"));
    let deps = graph.transitive_deps("//foo/bar:mylib").unwrap();
    assert!(deps.contains(&"//common:utils".to_string()));
}

#[test]
fn test_populate_from_parsed_no_java_rules() {
    let mut graph = DependencyGraph::new();
    graph.populate_from_parsed(&build_file("/workspace/cc/BUILD", vec![]), "/workspace");
    assert_eq!(graph.target_count(), 0);
}

#[test]
fn test_populate_from_parsed_batch() {
    let mut graph = DependencyGraph::new();
    let files = vec![
        build_file("/workspace/a/BUILD", vec![rule("lib_a", vec![], vec![], false)]),
        build_file("/workspace/b/BUILD", vec![rule("lib_b", vec!["//a:lib_a"], vec![], false)]),
    ];
    graph.populate_from_parsed_batch(&files, "/workspace");
    assert_eq!(graph.target_count(), 2);
    assert!(graph.has_target("//a:lib_a"));
    assert!(graph.has_target("//b:lib_b"));
}

#[test]
fn test_clear_and_repopulate() {
    let mut graph = DependencyGraph::new();
    graph.add_target("//old:target");
    assert_eq!(graph.target_count(), 1);
    graph.clear();
    assert_eq!(graph.target_count(), 0);
    let results = vec![make_target("//new:target", vec![], vec![])];
    graph.populate_from_aspects(&results, "/workspace", None);
    assert_eq!(graph.target_count(), 1);
    assert!(!graph.has_target("//old:target"));
    assert!(graph.has_target("//new:target"));
}

#[test]
fn test_testonly_from_aspect_java_test() {
    let mut graph = DependencyGraph::new();
    let mut test_target = make_target("//foo:my_test", vec!["//foo:lib"], vec![]);
    test_target.kind = "java_test".to_string();
    let results = vec![test_target, make_target("//foo:lib", vec![], vec!["/lib.jar"])];
    graph.populate_from_aspects(&results, "/workspace", None);
    assert!(graph.is_testonly("//foo:my_test"));
    assert!(!graph.is_testonly("//foo:lib"));
}

#[test]
fn test_testonly_from_parsed_build_file() {
    let mut graph = DependencyGraph::new();
    let parsed = build_file(
        "/workspace/pkg/BUILD",
        vec![rule("lib", vec![], vec![], true), rule("public_lib", vec![], vec![], false)],
    );
    graph.populate_from_parsed(&parsed, "/workspace");
    assert!(graph.is_testonly("//pkg:lib"));
    assert!(!graph.is_testonly("//pkg:public_lib"));
}

#[test]
fn test_clear_resets_testonly() {
    let mut graph = DependencyGraph::new();
    let mut test_target = make_target("//foo:test", vec![], vec![]);
    test_target.kind = "java_test".to_string();
    graph.populate_from_aspects(&[test_target], "/workspace", None);
    assert!(graph.is_testonly("//foo:test"));
    graph.clear();
    assert!(!graph.is_testonly("//foo:test"));
}

#[test]
fn test_populate_from_aspects_compile_jars_fallback() {
    let mut graph = DependencyGraph::new();
    let results = vec![
        make_target("//app:app", vec!["@maven//:guava"], vec!["/app.jar"]),
        make_target_with_compile_jars("@maven//:guava", vec![], vec!["/guava.jar"]),
    ];
    graph.populate_from_aspects(&results, "/workspace", None);
    let jars = graph.get_target_jars("@maven//:guava");
    assert!(jars.is_some(), "Expected JAR data for @maven//:guava from compile_jars fallback");
    let jar_list = jars.unwrap();
    assert_eq!(jar_list.len(), 1);
    assert_eq!(jar_list[0].full_jar_path, "/guava.jar");
}

#[test]
fn test_jars_kept_when_compile_jars_empty() {
    let mut graph = DependencyGraph::new();
    let target = TargetIdeInfo {
        label: "//lib:plain".to_string(),
        kind: "java_library".to_string(),
        build_file: None,
        java_info: Some(JavaIdeInfo {
            jars: vec![JarInfo {
                jar: ArtifactLocation {
                    is_source: false,
                    is_external: false,
                    absolute_path: Some("/libplain.jar".to_string()),
                    ..Default::default()
                },
                ..Default::default()
            }],
            compile_jars: vec![],
            ..Default::default()
        }),
        deps: vec![],
        runtime_deps: Vec::new(),
        exports: Vec::new(),
    };
    graph.populate_from_aspects(&[target], "/workspace", None);
    let jars = graph.get_target_jars("//lib:plain").unwrap();
    assert_eq!(jars.len(), 1);
    assert_eq!(jars[0].full_jar_path, "/libplain.jar", "jars should be kept when compile_jars is empty");
}

#[test]
fn test_populate_from_aspects_full_jar_missing_falls_back_to_hjar() {
    let mut graph = DependencyGraph::new();
    let target = TargetIdeInfo {
        label: "//lib:fallback".to_string(),
        kind: "java_library".to_string(),
        build_file: None,
        java_info: Some(JavaIdeInfo {
            jars: vec![JarInfo {
                jar: ArtifactLocation {
                    absolute_path: Some("/nonexistent/libfallback.jar".to_string()),
                    ..Default::default()
                },
                ..Default::default()
            }],
            compile_jars: vec![ArtifactLocation {
                absolute_path: Some("/existing/libfallback-hjar.jar".to_string()),
                ..Default::default()
            }],
            ..Default::default()
        }),
        deps: vec![],
        runtime_deps: Vec::new(),
        exports: Vec::new(),
    };
    graph.populate_from_aspects(&[target], "/workspace", None);
    let jars = graph.get_target_jars("//lib:fallback").unwrap();
    assert_eq!(jars.len(), 1);
    assert_eq!(jars[0].full_jar_path, "/nonexistent/libfallback.jar");
    assert_eq!(jars[0].compile_jar_path.as_deref(), Some("/existing/libfallback-hjar.jar"));
    assert_eq!(jars[0].effective_path(), "/existing/libfallback-hjar.jar");
}

#[test]
fn test_effective_path_returns_compile_jar_when_full_missing() {
    let jar = ResolvedJar {
        full_jar_path: "/nonexistent/full.jar".to_string(),
        compile_jar_path: Some("/compile/ijar.jar".to_string()),
        runtime_jar_path: None,
        source_path: None,
    };
    assert_eq!(jar.effective_path(), "/compile/ijar.jar");
}

#[test]
fn test_effective_path_returns_full_jar_when_neither_exists() {
    let jar = jar("/nonexistent/full.jar");
    assert_eq!(jar.effective_path(), "/nonexistent/full.jar");
}

#[test]
fn test_effective_path_falls_to_compile_when_runtime_missing() {
    let jar = ResolvedJar {
        full_jar_path: "/nonexistent/full.jar".to_string(),
        compile_jar_path: Some("/compile/ijar.jar".to_string()),
        runtime_jar_path: Some("/nonexistent/runtime.jar".to_string()),
        source_path: None,
    };
    assert_eq!(jar.effective_path(), "/compile/ijar.jar");
}

#[test]
fn test_effective_path_skips_ijar_compile_jar() {
    let jar = ResolvedJar {
        full_jar_path: "/nonexistent/libaws_java_sdk_core.jar".to_string(),
        compile_jar_path: Some(
            "/bazel-out/bin/external/maven/com/amazonaws/aws-java-sdk-core/_ijar/downloaded-ijar.jar".to_string(),
        ),
        runtime_jar_path: None,
        source_path: None,
    };
    assert_eq!(jar.effective_path(), "/nonexistent/libaws_java_sdk_core.jar");
}

#[test]
fn test_effective_path_allows_non_ijar_compile_jar() {
    let jar = ResolvedJar {
        full_jar_path: "/nonexistent/full.jar".to_string(),
        compile_jar_path: Some("/compile/normal-header.jar".to_string()),
        runtime_jar_path: None,
        source_path: None,
    };
    assert_eq!(jar.effective_path(), "/compile/normal-header.jar");
}

#[test]
fn test_effective_path_skips_ijar_when_runtime_missing() {
    let jar = ResolvedJar {
        full_jar_path: "/nonexistent/full.jar".to_string(),
        compile_jar_path: Some("/bazel-out/bin/external/maven/foo/_ijar/downloaded-ijar.jar".to_string()),
        runtime_jar_path: Some("/nonexistent/runtime.jar".to_string()),
        source_path: None,
    };
    assert_eq!(jar.effective_path(), "/nonexistent/full.jar");
}

#[test]
fn test_build_resolved_jars_matches_runtime_jar_by_filename() {
    let java_info = JavaIdeInfo::default();
    let full_jars = vec!["/bazel-out/bin/external/foo/downloaded.jar".to_string()];
    let runtime_jars = vec!["/execroot/external/foo/downloaded.jar".to_string()];
    let resolved = build_resolved_jars(&java_info, &full_jars, &[], &runtime_jars, "/workspace", "//foo:lib", None);
    assert_eq!(resolved.len(), 1);
    assert_eq!(resolved[0].runtime_jar_path.as_deref(), Some("/execroot/external/foo/downloaded.jar"));
}

#[test]
fn test_build_resolved_jars_duplicate_runtime_filename_gives_none() {
    let java_info = JavaIdeInfo::default();
    let full_jars = vec!["/bazel-out/bin/external/foo/classes.jar".to_string()];
    let runtime_jars = vec![
        "/execroot/external/foo/classes.jar".to_string(),
        "/execroot/external/bar/classes.jar".to_string(),
    ];
    let resolved = build_resolved_jars(&java_info, &full_jars, &[], &runtime_jars, "/workspace", "//foo:lib", None);
    assert_eq!(resolved.len(), 1);
    assert!(resolved[0].runtime_jar_path.is_none(), "Duplicate runtime filenames should result in None");
}

#[test]
fn test_populate_from_aspects_no_jars_no_classpath_entries() {
    let mut graph = DependencyGraph::new();
    let target = TargetIdeInfo {
        label: "//lib:empty".to_string(),
        kind: "java_library".to_string(),
        build_file: None,
        java_info: Some(JavaIdeInfo { jars: vec![], compile_jars: vec![], ..Default::default() }),
        deps: vec![],
        runtime_deps: Vec::new(),
        exports: Vec::new(),
    };
    graph.populate_from_aspects(&[target], "/workspace", None);
    assert!(graph.get_target_jars("//lib:empty").is_none(), "Target with no JARs should have no classpath entries");
}

#[test]
fn test_resolved_jar_source_via_alias() {
    let mut graph = DependencyGraph::new();
    let canonical = "@@rules_jvm_external~maven~maven//:guava";
    let apparent = "@maven//:guava";
    graph.add_target(canonical);
    graph.set_target_jars(
        canonical,
        vec![ResolvedJar {
            full_jar_path: "/guava.jar".to_string(),
            compile_jar_path: None,
            runtime_jar_path: None,
            source_path: Some("/guava-sources.jar".to_string()),
        }],
    );
    graph.set_label_alias(apparent, canonical);
    let jars = graph.get_target_jars(apparent).unwrap();
    assert_eq!(jars[0].source_path, Some("/guava-sources.jar".to_string()));
    let jars2 = graph.get_target_jars(canonical).unwrap();
    assert_eq!(jars2[0].source_path, Some("/guava-sources.jar".to_string()));
}

#[test]
fn test_targets_in_package() {
    let mut graph = DependencyGraph::new();
    let results = vec![
        make_target("//foo:lib", vec![], vec!["/foo.jar"]),
        make_target("//foo:utils", vec![], vec!["/utils.jar"]),
        make_target("//bar:app", vec!["//foo:lib"], vec!["/app.jar"]),
    ];
    graph.populate_from_aspects(&results, "/workspace", None);
    let foo_targets = graph.targets_in_package("//foo");
    assert_eq!(foo_targets.len(), 2);
    assert!(foo_targets.contains(&"//foo:lib".to_string()));
    assert!(foo_targets.contains(&"//foo:utils".to_string()));
    let bar_targets = graph.targets_in_package("//bar");
    assert_eq!(bar_targets.len(), 1);
    assert_eq!(bar_targets[0], "//bar:app");
    assert!(graph.targets_in_package("//nonexistent").is_empty());
}

#[test]
fn test_direct_dependers() {
    let mut graph = DependencyGraph::new();
    let results = vec![
        make_target("//app:main", vec!["//lib:core", "//lib:utils"], vec![]),
        make_target("//test:e2e", vec!["//lib:core"], vec![]),
        make_target("//lib:core", vec![], vec!["/core.jar"]),
        make_target("//lib:utils", vec![], vec!["/utils.jar"]),
    ];
    graph.populate_from_aspects(&results, "/workspace", None);
    let core_dependers = graph.direct_dependers("//lib:core");
    assert_eq!(core_dependers.len(), 2);
    assert!(core_dependers.contains(&"//app:main".to_string()));
    assert!(core_dependers.contains(&"//test:e2e".to_string()));
    let utils_dependers = graph.direct_dependers("//lib:utils");
    assert_eq!(utils_dependers.len(), 1);
    assert_eq!(utils_dependers[0], "//app:main");
    assert!(graph.direct_dependers("//app:main").is_empty());
    assert!(graph.direct_dependers("//nonexistent:target").is_empty());
}

#[test]
fn test_reverse_transitive_deps_simple() {
    let mut graph = DependencyGraph::new();
    let results = vec![
        make_target("//d:app", vec!["//b:svc"], vec![]),
        make_target("//b:svc", vec!["//a:lib"], vec![]),
        make_target("//a:lib", vec![], vec!["/lib.jar"]),
    ];
    graph.populate_from_aspects(&results, "/workspace", None);
    let reverse = graph.reverse_transitive_deps("//a:lib");
    assert_eq!(reverse.len(), 2);
    assert!(reverse.contains(&"//b:svc".to_string()));
    assert!(reverse.contains(&"//d:app".to_string()));
}

#[test]
fn test_reverse_transitive_deps_chain() {
    let mut graph = DependencyGraph::new();
    let results = vec![
        make_target("//d:app", vec!["//c:svc"], vec![]),
        make_target("//c:svc", vec!["//b:util"], vec![]),
        make_target("//b:util", vec!["//a:base"], vec![]),
        make_target("//a:base", vec![], vec!["/base.jar"]),
    ];
    graph.populate_from_aspects(&results, "/workspace", None);
    let reverse = graph.reverse_transitive_deps("//a:base");
    assert_eq!(reverse.len(), 3);
    assert!(reverse.contains(&"//b:util".to_string()));
    assert!(reverse.contains(&"//c:svc".to_string()));
    assert!(reverse.contains(&"//d:app".to_string()));
}

#[test]
fn test_update_from_parsed_deps_only_preserves_jars() {
    let mut graph = DependencyGraph::new();
    let aspect_results = vec![
        make_target("//foo:lib", vec!["//bar:util"], vec!["/foo.jar"]),
        make_target("//bar:util", vec![], vec!["/util.jar"]),
    ];
    graph.populate_from_aspects(&aspect_results, "/workspace", None);
    assert!(graph.get_target_jars("//foo:lib").is_some());
    let mut r = rule("lib", vec!["//baz:new"], vec![], false);
    r.srcs = vec!["Lib.java".to_string()];
    let new_parsed = build_file("/workspace/foo/BUILD", vec![r]);
    let (added, removed, modified) = graph.update_from_parsed(&new_parsed, "/workspace");
    assert!(added.is_empty());
    assert!(removed.is_empty());
    assert_eq!(modified.len(), 1);
    assert_eq!(modified[0], "//foo:lib");
    assert!(graph.get_target_jars("//foo:lib").is_some(), "JAR data should be preserved after deps-only change");
    assert_eq!(graph.get_target_jars("//foo:lib").unwrap()[0].full_jar_path, "/foo.jar");
    assert!(graph.has_target("//baz:new"));
}

#[test]
fn test_update_from_parsed_target_removed() {
    let mut graph = DependencyGraph::new();
    let parsed = build_file(
        "/workspace/foo/BUILD",
        vec![rule("lib", vec![], vec![], false), rule("old", vec![], vec![], false)],
    );
    graph.populate_from_parsed(&parsed, "/workspace");
    assert_eq!(graph.target_count(), 2);
    graph.set_target_jars("//foo:old", vec![jar("/old.jar")]);
    let new_parsed = build_file("/workspace/foo/BUILD", vec![rule("lib", vec![], vec![], false)]);
    let (added, removed, modified) = graph.update_from_parsed(&new_parsed, "/workspace");
    assert!(added.is_empty());
    assert_eq!(removed.len(), 1);
    assert_eq!(removed[0], "//foo:old");
    assert!(modified.contains(&"//foo:lib".to_string()));
    assert!(!graph.has_target("//foo:old"));
    assert!(graph.get_target_jars("//foo:old").is_none());
    assert!(graph.has_target("//foo:lib"));
}

#[test]
fn test_update_from_parsed_target_added() {
    let mut graph = DependencyGraph::new();
    let parsed = build_file("/workspace/foo/BUILD", vec![rule("lib", vec![], vec![], false)]);
    graph.populate_from_parsed(&parsed, "/workspace");
    assert_eq!(graph.target_count(), 1);
    let new_parsed = build_file(
        "/workspace/foo/BUILD",
        vec![rule("lib", vec![], vec![], false), rule("new_lib", vec!["//bar:util"], vec![], false)],
    );
    let (added, removed, modified) = graph.update_from_parsed(&new_parsed, "/workspace");
    assert_eq!(added.len(), 1);
    assert_eq!(added[0], "//foo:new_lib");
    assert!(removed.is_empty());
    assert!(modified.contains(&"//foo:lib".to_string()));
    assert!(graph.has_target("//foo:new_lib"));
    assert!(graph.has_target("//bar:util"));
}

#[test]
fn test_normalize_dep_label_bare_name() {
    assert_eq!(normalize_dep_label("helper", "//src/java/com/example"), "//src/java/com/example:helper");
}

#[test]
fn test_normalize_dep_label_colon_prefix() {
    assert_eq!(normalize_dep_label(":utils", "//src/java/com/example"), "//src/java/com/example:utils");
}

#[test]
fn test_normalize_dep_label_already_qualified() {
    assert_eq!(normalize_dep_label("//other/package:lib", "//src/java/com/example"), "//other/package:lib");
}

#[test]
fn test_normalize_dep_label_external() {
    assert_eq!(normalize_dep_label("@maven//:guava", "//src/java/com/example"), "@maven//:guava");
}

#[test]
fn test_normalize_dep_label_package_only() {
    assert_eq!(
        normalize_dep_label("//src/java/com/urbancompass/monitoring", "//irrelevant"),
        "//src/java/com/urbancompass/monitoring:monitoring"
    );
}

#[test]
fn test_normalize_label_package_only() {
    assert_eq!(
        normalize_label("//src/java/com/urbancompass/monitoring"),
        "//src/java/com/urbancompass/monitoring:monitoring"
    );
}

#[test]
fn test_normalize_label_already_canonical() {
    assert_eq!(normalize_label("//foo/bar:baz"), "//foo/bar:baz");
}

#[test]
fn test_normalize_label_external() {
    assert_eq!(normalize_label("@maven//:guava"), "@maven//:guava");
}

#[test]
fn test_normalize_label_external_canonical() {
    assert_eq!(
        normalize_label("@@rules_jvm_external~maven~maven//:guava"),
        "@@rules_jvm_external~maven~maven//:guava"
    );
}

#[test]
fn test_normalize_label_root_package() {
    assert_eq!(normalize_label("//"), "//");
}

#[test]
fn test_normalize_label_bare_and_relative() {
    assert_eq!(normalize_label("target"), "target");
    assert_eq!(normalize_label(":target"), ":target");
}

#[test]
fn test_package_of() {
    assert_eq!(package_of("//foo/bar:baz"), "//foo/bar");
    assert_eq!(package_of("//foo/bar"), "//foo/bar");
    assert_eq!(package_of("//:root_target"), "//");
}

#[test]
fn test_package_path_extraction() {
    assert_eq!(package_path("//utils:string_utils"), "utils");
    assert_eq!(package_path("//service:user_service"), "service");
    assert_eq!(package_path("//foo/bar:baz"), "foo/bar");
    assert_eq!(package_path("//:root_target"), "");
}

#[test]
fn test_transitive_dependency_packages_basic() {
    let mut graph = DependencyGraph::new();
    graph.add_target("//app:app");
    graph.add_target("//utils:string_utils");
    graph.add_target("//service:user_service");
    graph.add_dep("//app:app", "//utils:string_utils");
    graph.add_dep("//app:app", "//service:user_service");
    let packages = graph.transitive_dependency_packages("//app:app").unwrap();
    assert_eq!(packages, vec!["service", "utils"]);
}

#[test]
fn test_transitive_dependency_packages_filters_external() {
    let mut graph = DependencyGraph::new();
    graph.add_target("//app:app");
    graph.add_target("//utils:string_utils");
    graph.add_target("@maven//:guava");
    graph.add_dep("//app:app", "//utils:string_utils");
    graph.add_dep("//app:app", "@maven//:guava");
    let packages = graph.transitive_dependency_packages("//app:app").unwrap();
    assert_eq!(packages, vec!["utils"]);
}

#[test]
fn test_transitive_dependency_packages_no_internal() {
    let mut graph = DependencyGraph::new();
    graph.add_target("//app:app");
    graph.add_target("@maven//:guava");
    graph.add_dep("//app:app", "@maven//:guava");
    let packages = graph.transitive_dependency_packages("//app:app").unwrap();
    assert!(packages.is_empty());
}

#[test]
fn test_transitive_dependency_packages_diamond_dedup() {
    let mut graph = DependencyGraph::new();
    graph.add_target("//app:app");
    graph.add_target("//utils:string_utils");
    graph.add_target("//service:user_service");
    graph.add_target("//common:util");
    graph.add_dep("//app:app", "//utils:string_utils");
    graph.add_dep("//app:app", "//service:user_service");
    graph.add_dep("//utils:string_utils", "//common:util");
    graph.add_dep("//service:user_service", "//common:util");
    let packages = graph.transitive_dependency_packages("//app:app").unwrap();
    let common_count = packages.iter().filter(|p| **p == "common").count();
    assert_eq!(common_count, 1, "common should appear exactly once, got: {:?}", packages);
    assert!(packages.contains(&"common".to_string()));
    assert!(packages.contains(&"utils".to_string()));
    assert!(packages.contains(&"service".to_string()));
}

#[test]
fn test_absolutize_relative_bazel_out_path() {
    let result = absolutize_source_path("bazel-out/k8-fastbuild/bin/lib-src.jar", "/home/user/workspace");
    assert_eq!(result, "/home/user/workspace/bazel-out/k8-fastbuild/bin/lib-src.jar");
}

#[test]
fn test_absolutize_already_absolute_path() {
    let result = absolutize_source_path("/absolute/path/to/src.jar", "/home/user/workspace");
    assert_eq!(result, "/absolute/path/to/src.jar");
}

#[test]
fn test_absolutize_non_bazel_out_relative_path() {
    let result = absolutize_source_path("external/maven/src.jar", "/home/user/workspace");
    assert_eq!(result, "external/maven/src.jar");
}

#[test]
fn test_extract_maven_coordinates_standard() {
    let path = "external/maven/v1/https/repo1.maven.org/maven2/com/google/guava/guava/28.2-jre/guava-28.2-jre.jar";
    assert_eq!(
        extract_maven_coordinates(path),
        Some(("com.google.guava".to_string(), "guava".to_string(), "28.2-jre".to_string()))
    );
}

#[test]
fn test_extract_maven_coordinates_custom_host() {
    let path = "external/maven/v1/https/artifacts.company.net/repository/maven/org/slf4j/slf4j-api/1.7.36/slf4j-api-1.7.36.jar";
    assert_eq!(
        extract_maven_coordinates(path),
        Some(("org.slf4j".to_string(), "slf4j-api".to_string(), "1.7.36".to_string()))
    );
}

#[test]
fn test_extract_maven_coordinates_non_maven_path() {
    assert_eq!(extract_maven_coordinates("bazel-out/k8-fastbuild/bin/lib/liblib.jar"), None);
}

#[test]
fn test_get_target_kind_from_aspect_java_library() {
    let mut graph = DependencyGraph::new();
    graph.populate_from_aspects(&[make_target("//foo:funds_csv_importer", vec![], vec!["/foo.jar"])], "/workspace", None);
    assert_eq!(graph.get_target_kind("//foo:funds_csv_importer"), TargetKind::JavaLibrary);
}

#[test]
fn test_get_target_kind_from_aspect_java_import() {
    let mut graph = DependencyGraph::new();
    graph.populate_from_aspects(&[make_target_with_compile_jars("@maven//:guava", vec![], vec!["/guava.jar"])], "/workspace", None);
    assert_eq!(graph.get_target_kind("@maven//:guava"), TargetKind::JavaImport);
}

#[test]
fn test_get_target_kind_no_stored_kind() {
    let mut graph = DependencyGraph::new();
    graph.add_target("//foo:bar");
    assert_eq!(graph.get_target_kind("//foo:bar"), TargetKind::Unknown);
}

#[test]
fn test_get_target_kind_unrecognized_kind() {
    let mut graph = DependencyGraph::new();
    graph.add_target("//foo:bar");
    graph.set_target_kind("//foo:bar", "kt_jvm_library");
    assert_eq!(graph.get_target_kind("//foo:bar"), TargetKind::Unknown);
}

#[test]
fn test_clear_resets_target_kinds() {
    let mut graph = DependencyGraph::new();
    graph.populate_from_aspects(&[make_target("//foo:lib", vec![], vec!["/foo.jar"])], "/workspace", None);
    assert_eq!(graph.get_target_kind("//foo:lib"), TargetKind::JavaLibrary);
    graph.clear();
    assert_eq!(graph.get_target_kind("//foo:lib"), TargetKind::Unknown);
}

#[test]
fn test_normalize_artifact_path_resolves_external_when_not_source() {
    let artifact = ArtifactLocation {
        relative_path: Some(
            "external/maven/v1/com/amazonaws/aws-java-sdk-core/1.12.261/aws-java-sdk-core-1.12.261.jar".to_string(),
        ),
        is_source: false,
        is_external: true,
        ..Default::default()
    };
    let ws = "/nonexistent-workspace-for-artifacts";
    let result = normalize_artifact_path(&artifact, ws);
    assert!(result.is_some());
    let path = result.unwrap();
    assert!(
        path != "external/maven/v1/com/amazonaws/aws-java-sdk-core/1.12.261/aws-java-sdk-core-1.12.261.jar"
            || !std::path::Path::new(ws).join("bazel-out").exists(),
        "When bazel-out exists, external path should be resolved; got: {}",
        path
    );
}

#[test]
fn test_normalize_artifact_path_absolutizes_bazel_out_paths() {
    let artifact = ArtifactLocation {
        relative_path: Some("bazel-out/k8-fastbuild/bin/app/libapp.jar".to_string()),
        is_source: false,
        is_external: false,
        ..Default::default()
    };
    assert_eq!(
        normalize_artifact_path(&artifact, "/workspace"),
        Some("/workspace/bazel-out/k8-fastbuild/bin/app/libapp.jar".to_string())
    );
}

#[test]
fn dependency_chain_classpath() {
    let mut graph = DependencyGraph::new();
    graph.add_target("//utils:utils");
    graph.add_target("//service:service");
    graph.add_target("//app:app");
    graph.add_dep("//app:app", "//service:service");
    graph.add_dep("//service:service", "//utils:utils");
    graph.set_target_jars("//utils:utils", vec![jar("utils.jar")]);
    graph.set_target_jars("//service:service", vec![jar("service.jar")]);
    graph.set_target_jars("//app:app", vec![jar("app.jar")]);
    let classpath = ComputedClasspath::compute_for(&graph, "//app:app", TargetKind::JavaBinary, None).unwrap();
    let paths: Vec<&str> = classpath.entries.iter().map(|e| e.path.as_str()).collect();
    assert!(paths.iter().any(|p| p.contains("utils")), "got: {:?}", paths);
    assert!(paths.iter().any(|p| p.contains("service")), "got: {:?}", paths);
    assert_eq!(classpath.target_label, "//app:app");
}

#[test]
fn populate_graph_from_parsed_build_files() {
    let mut graph = DependencyGraph::new();
    graph.add_target("//lib:lib");
    graph.add_target("//app:app");
    graph.add_dep("//app:app", "//lib:lib");
    assert!(graph.has_target("//lib:lib"));
    assert!(graph.has_target("//app:app"));
    let deps = graph.transitive_deps("//app:app").unwrap();
    assert!(deps.contains(&"//lib:lib".to_string()), "got deps: {:?}", deps);
}

#[test]
fn pipe_delimited_classpath_output() {
    let mut graph = DependencyGraph::new();
    graph.add_target("//lib:lib");
    graph.add_target("//app:app");
    graph.add_dep("//app:app", "//lib:lib");
    graph.set_target_jars("//lib:lib", vec![jar("lib.jar")]);
    graph.set_target_jars("//app:app", vec![jar("app.jar")]);
    let classpath = ComputedClasspath::compute_for(&graph, "//app:app", TargetKind::JavaBinary, None).unwrap();
    let entries = classpath.to_pipe_delimited_entries();
    assert!(!entries.is_empty());
    assert!(entries.iter().any(|e| e.contains("lib.jar")), "got: {:?}", entries);
}

#[test]
fn circular_dependency_is_reported() {
    let mut graph = DependencyGraph::new();
    graph.add_dep("//a:a", "//b:b");
    graph.add_dep("//b:b", "//a:a");
    let r = graph.transitive_deps("//a:a");
    assert!(r.is_err());
    assert!(r.err().unwrap().message().starts_with("Circular dependency detected: "));
}

#[test]
fn reverse_dependers_exclude_external_labels() {
    let mut graph = DependencyGraph::new();
    graph.add_dep("@maven//:user", "//lib:core");
    graph.add_dep("//app:main", "//lib:core");
    let reverse = graph.reverse_transitive_deps("//lib:core");
    assert_eq!(reverse, vec!["//app:main".to_string()]);
}

#[test]
fn label_alias_lookup() {
    let mut graph = DependencyGraph::new();
    assert_eq!(graph.label_alias("@maven//:guava"), None);
    graph.set_label_alias("@maven//:guava", "@@m//:guava");
    assert_eq!(graph.label_alias("@maven//:guava"), Some("@@m//:guava".to_string()));
}

#[test]
fn adding_a_target_twice_adds_it_once() {
    let mut graph = DependencyGraph::new();
    graph.add_target("//a:a");
    graph.add_target("//a:a");
    assert_eq!(graph.target_count(), 1);
    assert_eq!(graph.all_targets(), vec!["//a:a".to_string()]);
}

#[test]
fn jars_read_back_after_write() {
    let mut graph = DependencyGraph::new();
    graph.set_target_jars("//a:a", vec![jar("/a.jar")]);
    graph.set_target_jars("//b:b", vec![jar("/b.jar")]);
    graph.set_target_jars("//a:a", vec![jar("/a2.jar")]);
    assert_eq!(graph.get_target_jars("//a:a").unwrap()[0].full_jar_path, "/a2.jar");
    assert_eq!(graph.get_target_jars("//b:b").unwrap()[0].full_jar_path, "/b.jar");
    assert!(graph.has_target("//a:a"));
}

#[test]
fn update_invalidates_dependers() {
    let mut graph = DependencyGraph::new();
    graph.add_dep("//app:app", "//lib:lib");
    graph.add_dep("//lib:lib", "//base:base");
    graph.add_dep("@ext//:user", "//base:base");
    let mut r = invalidated_by_update(&graph, &["//base:base".to_string()], &[], &[]);
    r.sort();
    r.dedup();
    assert_eq!(r, vec!["//app:app".to_string(), "//base:base".to_string(), "//lib:lib".to_string()]);
}

#[test]
fn test_validate_source_jar_nonexistent() {
    let result = validate_source_jar("/nonexistent/path/sources.jar");
    assert_eq!(result, None);
}

#[test]
fn test_populate_from_aspects_resolves_external_full_jar_paths() {
    let workspace = "/nonexistent-workspace-for-external-jars";
    let external_jar = "external/maven/v1/com/example/lib/1.0/lib-1.0.jar";
    let compile_jar = "bazel-out/k8-fastbuild/bin/external/maven/v1/com/example/lib/1.0/header-lib-1.0.jar";
    let target = TargetIdeInfo {
        label: "//app:app".to_string(),
        kind: "java_library".to_string(),
        build_file: None,
        java_info: Some(JavaIdeInfo {
            jars: vec![JarInfo {
                jar: ArtifactLocation {
                    relative_path: Some(external_jar.to_string()),
                    is_source: false,
                    is_external: true,
                    ..Default::default()
                },
                interface_jar: Some(ArtifactLocation {
                    relative_path: Some(compile_jar.to_string()),
                    is_source: false,
                    is_external: false,
                    ..Default::default()
                }),
                source_jar: None,
            }],
            ..Default::default()
        }),
        deps: vec![],
        runtime_deps: vec![],
        exports: vec![],
    };
    let mut graph = DependencyGraph::new();
    graph.populate_from_aspects(&[target], workspace, None);
    let jars = graph.get_target_jars("//app:app").expect("should have jars for //app:app");
    assert!(!jars.is_empty(), "Should have at least one jar for //app:app");
    let jar = &jars[0];
    assert!(
        jar.full_jar_path != external_jar || !std::path::Path::new(workspace).join("bazel-out").exists(),
        "External full_jar_path should be resolved when bazel-out symlink exists; got: {}",
        jar.full_jar_path
    );
}

#[test]
fn normalize_label_twice_is_once() {
    for l in ["//foo/bar", "//foo/bar:baz", "@maven//:guava", "//", "//pkg/", "bare", "//a"] {
        let once = normalize_label(l);
        assert_eq!(normalize_label(&once), once);
    }
    assert_eq!(normalize_label("//foo/bar"), "//foo/bar:bar");
}

#[test]
fn normalized_package_label_lies_in_its_package() {
    for l in ["//foo/bar", "//a", "//x/y/z"] {
        assert_eq!(package_of(&normalize_label(l)), l);
    }
}

#[test]
fn target_kind_reads_back_last_written() {
    let mut graph = DependencyGraph::new();
    graph.set_target_kind("//a:a", "java_library");
    graph.set_target_kind("//b:b", "java_test");
    assert_eq!(graph.get_target_kind("//a:a"), TargetKind::JavaLibrary);
    graph.set_target_kind("//a:a", "java_binary");
    assert_eq!(graph.get_target_kind("//a:a"), TargetKind::JavaBinary);
    graph.set_target_kind("//a:a", "");
    assert_eq!(graph.get_target_kind("//a:a"), TargetKind::JavaBinary);
    assert_eq!(graph.get_target_kind("//b:b"), TargetKind::JavaTest);
}

#[test]
fn pick_source_takes_the_first_confirmed_candidate() {
    let c = vec![Some("/a-sources.jar".to_string()), None, Some("/b-sources.jar".to_string()), Some("/c".to_string())];
    assert_eq!(pick_source(&c, &vec![false, true, true, true]), Some("/b-sources.jar".to_string()));
    assert_eq!(pick_source(&c, &vec![true, false, true, false]), Some("/a-sources.jar".to_string()));
    assert_eq!(pick_source(&c, &vec![false, false, false, false]), None);
    assert_eq!(pick_source(&c, &vec![false]), None);
}

#[test]
fn source_candidate_paths() {
    assert_eq!(convention_path("/repo/lib/foo-1.0.jar"), Some("/repo/lib/foo-1.0-sources.jar".to_string()));
    assert_eq!(
        maven_cache_path("/home/u", "com.google.guava", "guava", "33.0"),
        "/home/u/.m2/repository/com/google/guava/guava/33.0/guava-33.0-sources.jar"
    );
}

#[test]
fn dependency_on_an_alias_reaches_its_canonical_target() {
    let mut g = DependencyGraph::new();
    g.populate_from_aspects(
        &[TargetIdeInfo::new("@@rules_jvm_external~maven~maven//:guava".to_string(), "java_import".to_string())],
        "/workspace",
        None,
    );
    g.add_dep("//app:app", "@maven//:guava");
    assert!(g.has_target("//app:app"));
    assert!(g.has_target("@maven//:guava"));
    let deps = g.transitive_deps("//app:app").unwrap();
    assert_eq!(deps, vec!["@@rules_jvm_external~maven~maven//:guava".to_string()]);
    assert_eq!(g.target_count(), 2);
}

#[test]
fn transitive_deps_follow_breadth_first_order() {
    let mut graph = DependencyGraph::new();
    graph.add_dep("//a:a", "//b:b");
    graph.add_dep("//a:a", "//c:c");
    graph.add_dep("//b:b", "//d:d");
    graph.add_dep("//c:c", "//e:e");
    graph.add_dep("//e:e", "//d:d");
    let deps = graph.transitive_deps("//a:a").unwrap();
    assert_eq!(deps, vec!["//c:c", "//b:b", "//e:e", "//d:d"]);
    let reverse = graph.reverse_transitive_deps("//d:d");
    assert_eq!(reverse, vec!["//e:e", "//b:b", "//c:c", "//a:a"]);
}

#[test]
fn classpath_entries_follow_dependency_order() {
    let mut graph = DependencyGraph::new();
    graph.add_dep("//app:app", "//lib:one");
    graph.add_dep("//app:app", "//lib:two");
    graph.add_dep("//lib:one", "//lib:three");
    let cp = ComputedClasspath::compute_for(&graph, "//app:app", TargetKind::JavaLibrary, None).unwrap();
    let paths: Vec<String> = cp.entries.iter().map(|e| e.path.clone()).collect();
    assert_eq!(paths, vec!["//lib:two", "//lib:one", "//lib:three"]);
}
