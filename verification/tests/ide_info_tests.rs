use bazel_jdt::ide_info::{canonical_to_apparent_label, ArtifactLocation, TargetIdeInfo};
use bazel_jdt::text_proto::{parse_text_proto, parse_text_proto_quiet, TextProtoParser};

#[test]
fn test_canonical_maven_label_to_apparent() {
    assert_eq!(
        canonical_to_apparent_label("@@rules_jvm_external~maven~maven//:com_google_guava_guava"),
        Some("@maven//:com_google_guava_guava".to_string())
    );
}

#[test]
fn test_canonical_multi_segment_repo() {
    assert_eq!(
        canonical_to_apparent_label("@@some_module~ext~my_repo~nested//pkg:target"),
        Some("@nested//pkg:target".to_string())
    );
}

#[test]
fn test_single_at_label_returns_none() {
    assert_eq!(canonical_to_apparent_label("@maven//:com_google_guava_guava"), None);
}

#[test]
fn test_workspace_internal_returns_none() {
    assert_eq!(canonical_to_apparent_label("//utils:string_utils"), None);
}

#[test]
fn test_bazel_tools_returns_none() {
    assert_eq!(canonical_to_apparent_label("@@bazel_tools//tools/jdk:toolchain"), None);
}

#[test]
fn test_platforms_returns_none() {
    assert_eq!(canonical_to_apparent_label("@@platforms//cpu:cpu"), None);
}

#[test]
fn canonical_label_without_double_slash_has_no_apparent_form() {
    assert_eq!(canonical_to_apparent_label("@@mod~ext~repo"), None);
}

#[test]
fn canonical_label_with_trailing_tilde_gives_empty_repo() {
    assert_eq!(canonical_to_apparent_label("@@mod~//:t"), Some("@//:t".to_string()));
}

#[test]
fn test_best_path_prefers_absolute_path() {
    let loc = ArtifactLocation {
        absolute_path: Some("/execroot/ws/external/maven/v1/lib.jar".to_string()),
        root_path: Some("external/maven/v1".to_string()),
        relative_path: Some("lib.jar".to_string()),
        ..Default::default()
    };
    assert_eq!(loc.best_path(), Some("/execroot/ws/external/maven/v1/lib.jar".to_string()));
}

#[test]
fn test_best_path_falls_back_to_root_plus_relative() {
    let loc = ArtifactLocation {
        absolute_path: None,
        root_path: Some("bazel-out/k8-fastbuild/bin".to_string()),
        relative_path: Some("app/libapp.jar".to_string()),
        ..Default::default()
    };
    assert_eq!(loc.best_path(), Some("bazel-out/k8-fastbuild/bin/app/libapp.jar".to_string()));
}

#[test]
fn test_best_path_relative_only() {
    let loc = ArtifactLocation {
        absolute_path: None,
        root_path: None,
        relative_path: Some("src/Main.java".to_string()),
        ..Default::default()
    };
    assert_eq!(loc.best_path(), Some("src/Main.java".to_string()));
}

#[test]
fn best_path_collapses_slashes_between_root_and_relative() {
    let loc = ArtifactLocation {
        root_path: Some("root//".to_string()),
        relative_path: Some("//rel.jar".to_string()),
        ..Default::default()
    };
    assert_eq!(loc.best_path(), Some("root/rel.jar".to_string()));
}

#[test]
fn best_path_none_without_relative_path() {
    let loc = ArtifactLocation { root_path: Some("root".to_string()), ..Default::default() };
    assert_eq!(loc.best_path(), None);
}

#[test]
fn new_target_is_not_java() {
    let t = TargetIdeInfo::new("//a:b".to_string(), "java_library".to_string());
    assert!(!t.is_java_target());
    assert!(t.deps.is_empty());
    let d = TargetIdeInfo::default();
    assert!(d.label.is_empty());
}

#[test]
fn test_parse_simple_target() {
    let input = r#"
        label: "//foo:bar"
        kind: "java_library"
    "#;
    let result = parse_text_proto(input);
    assert_eq!(result.value.label, "//foo:bar");
    assert_eq!(result.value.kind, "java_library");
    assert!(result.errors.is_empty());
}

#[test]
fn test_parse_with_deps() {
    let input = r#"
        label: "//foo:bar"
        kind: "java_library"
        deps: "//foo:baz"
        deps: "//common:util"
    "#;
    let result = parse_text_proto(input);
    assert_eq!(result.value.deps, vec!["//foo:baz", "//common:util"]);
}

#[test]
fn test_parse_with_java_info() {
    let input = r#"
        label: "//foo:bar"
        kind: "java_library"
        java_info {
            sources {
                relative_path: "src/main/java/Foo.java"
                is_source: true
            }
            jars {
                jar {
                    relative_path: "bazel-out/bin/foo/bar.jar"
                }
            }
        }
    "#;
    let result = parse_text_proto(input);
    assert!(result.value.is_java_target());
    let java_info = result.value.java_info.as_ref().unwrap();
    assert_eq!(java_info.sources.len(), 1);
    assert_eq!(java_info.jars.len(), 1);
}

#[test]
fn test_parse_error_recovery() {
    let input = r#"
        label: "//foo:bar"
        kind: "java_library"
        : "orphan_value"
        deps: "//foo:baz"
    "#;
    let result = parse_text_proto(input);
    assert_eq!(result.value.label, "//foo:bar");
    assert_eq!(result.value.kind, "java_library");
    assert_eq!(result.value.deps, vec!["//foo:baz"]);
    assert!(!result.errors.is_empty());
}

#[test]
fn test_parse_string_escapes() {
    let input = r#"
        label: "//foo:bar"
        kind: "java_library"
    "#;
    let result = parse_text_proto(input);
    assert_eq!(result.value.label, "//foo:bar");
}

#[test]
fn test_parse_quoted_strings() {
    let input = r#"
        label: "//foo:bar"
        kind: "java_library"
    "#;
    let result = parse_text_proto(input);
    assert_eq!(result.value.label, "//foo:bar");
    assert_eq!(result.value.kind, "java_library");
}

#[test]
fn parse_escapes_and_single_quotes() {
    let input = "label: \"//a:\\\"b\\\"\\n\"\nkind: 'java_\\'x'\n";
    let r = parse_text_proto(input);
    assert_eq!(r.value.label, "//a:\"b\"\n");
    assert_eq!(r.value.kind, "java_'x");
    assert!(r.errors.is_empty());
}

#[test]
fn parse_comments_booleans_and_arrays() {
    let input = r#"
        # a comment
        label: "//x:y"  # trailing
        java_info {
            source_jars [ { relative_path: "a-src.jar" is_source: true }, { relative_path: "b-src.jar" } ]
            compile_jars { absolute_path: "/c.jar" is_external: true }
            compile_jars { absolute_path: "/d.jar" }
            javac_options: "-g"
            javac_options: "-Xlint"
            annotation_processors: "p1"
        }
        exports: "//e:e"
    "#;
    let r = parse_text_proto(input);
    assert!(r.errors.is_empty());
    assert_eq!(r.value.exports, vec!["//e:e"]);
    let j = r.value.java_info.unwrap();
    assert_eq!(j.source_jars.len(), 2);
    assert!(j.source_jars[0].is_source);
    assert_eq!(j.source_jars[1].relative_path.as_deref(), Some("b-src.jar"));
    assert_eq!(j.compile_jars.len(), 2);
    assert!(j.compile_jars[0].is_external);
    assert_eq!(j.javac_options.unwrap().options, vec!["-g", "-Xlint"]);
    // a single annotation processor is a plain string, which is not a list
    assert!(j.annotation_processors.is_empty());
}

#[test]
fn parse_unterminated_string_is_an_error() {
    let r = parse_text_proto("label: \"//a:b");
    assert!(!r.errors.is_empty());
    assert_eq!(r.skipped_fields, r.errors.len());
    assert_eq!(r.value.label, "");
}

#[test]
fn parse_stray_closing_brace_terminates() {
    let r = parse_text_proto("label: \"//a:b\" }");
    assert_eq!(r.value.label, "//a:b");
    assert!(!r.errors.is_empty());
}

#[test]
fn parse_invalid_character_terminates() {
    let r = parse_text_proto("label: @");
    assert_eq!(r.value.label, "");
    assert!(!r.errors.is_empty());
}

#[test]
fn parse_quiet_returns_value() {
    let t = parse_text_proto_quiet("label: \"//q:q\" kind: java_import");
    assert_eq!(t.label, "//q:q");
    assert_eq!(t.kind, "java_import");
    let mut p = TextProtoParser::new("label: \"//z:z\"");
    assert_eq!(p.parse_target_ide_info().value.label, "//z:z");
}

#[test]
fn stray_closing_brace_is_skipped_and_parsing_goes_on() {
    let r = parse_text_proto("} label: \"//a:b\" kind: \"java_library\"");
    assert_eq!(r.value.label, "//a:b");
    assert_eq!(r.value.kind, "java_library");
    assert_eq!(r.errors.len(), 1);
    assert_eq!(r.skipped_fields, 1);
}
