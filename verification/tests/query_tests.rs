use bazel_jdt::ide_info::{ArtifactLocation, JarInfo, JavaIdeInfo, TargetIdeInfo};
use bazel_jdt::query::{
    aspect_build_args, aspect_build_outcome, build_java_target_query, is_aspect_output, parse_aspect_output_locations,
    parse_label_output, query_args, query_outcome, query_output_targets, resolve_artifact_paths, shell_escape_str,
    BazelError, BazelInvoker,
};

#[test]
fn test_build_query_no_scope() {
    let query = build_java_target_query(None);
    assert!(query.contains("kind(java_library, //...:*)"));
    assert!(query.contains("kind(java_binary, //...:*)"));
    assert!(query.contains("kind(java_test, //...:*)"));
    assert!(query.contains("kind(java_import, //...:*)"));
    assert!(!query.contains("except"));
}

#[test]
fn test_build_query_empty_scope() {
    let empty: Vec<String> = vec![];
    let query = build_java_target_query(Some(&empty));
    assert!(query.contains("kind(java_library, //...:*)"));
    assert!(!query.contains("except"));
}

#[test]
fn test_build_query_with_scope() {
    let patterns = vec!["//services/...:*".to_string()];
    let query = build_java_target_query(Some(&patterns));
    assert!(query.contains("kind(java_library, //services/...:*)"));
    assert!(query.contains("kind(java_binary, //services/...:*)"));
    assert!(!query.contains("//...:*"));
    assert!(!query.contains("except"));
}

#[test]
fn test_build_query_with_multiple_scopes() {
    let patterns = vec!["//services/...:*".to_string(), "//libs/core/...:*".to_string()];
    let query = build_java_target_query(Some(&patterns));
    assert!(query.contains("//services/...:*"));
    assert!(query.contains("//libs/core/...:*"));
    assert!(!query.contains("except"));
}

#[test]
fn test_build_query_with_negative_patterns() {
    let patterns = vec!["//...:*".to_string(), "-//experimental/...:*".to_string()];
    let query = build_java_target_query(Some(&patterns));
    assert!(query.contains("kind(java_library, //...:*)"));
    assert!(query.contains("except //experimental/...:*"));
    assert!(!query.contains("-//"));
}

#[test]
fn test_build_query_multiple_negative_patterns() {
    let patterns = vec![
        "//...:*".to_string(),
        "-//experimental/...:*".to_string(),
        "-//third_party/...:*".to_string(),
    ];
    let query = build_java_target_query(Some(&patterns));
    assert!(query.contains("except"));
    assert!(query.contains("//experimental/...:*"));
    assert!(query.contains("//third_party/...:*"));
    assert!(!query.contains("-//"));
}

#[test]
fn test_build_query_only_negative_uses_default_scope() {
    let patterns = vec!["-//experimental/...:*".to_string()];
    let query = build_java_target_query(Some(&patterns));
    assert!(query.contains("kind(java_library, //...:*)"));
    assert!(query.contains("except //experimental/...:*"));
}

#[test]
fn build_query_exact_text() {
    assert_eq!(
        build_java_target_query(None),
        "kind(java_library, //...:*) union kind(java_binary, //...:*) union kind(java_test, //...:*) union kind(java_import, //...:*)"
    );
    let patterns = vec!["//a/...".to_string(), "-//a/x/...".to_string(), "//b/...".to_string(), "-//a/y/...".to_string()];
    assert_eq!(
        build_java_target_query(Some(&patterns)),
        "kind(java_library, //a/... union //b/...) union kind(java_binary, //a/... union //b/...) union kind(java_test, //a/... union //b/...) union kind(java_import, //a/... union //b/...) except //a/x/... union //a/y/..."
    );
}

#[test]
fn test_parse_label_output() {
    let output = "//java/com/example:lib\n//java/com/example:lib_test\n";
    let labels = parse_label_output(output);
    assert_eq!(labels, vec!["//java/com/example:lib", "//java/com/example:lib_test"]);
}

#[test]
fn test_parse_label_output_empty() {
    assert!(parse_label_output("").is_empty());
}

#[test]
fn label_output_skips_noise() {
    let labels = parse_label_output("Loading: 0 packages\n  //a:b  \n\n@maven//:x\n");
    assert_eq!(labels, vec!["//a:b"]);
}

#[test]
fn test_parse_aspect_output_locations() {
    let output = "bazel-out/k8-fastbuild/bin/java/com/example/lib-abc123.intellij-info.txt\n";
    let locations = parse_aspect_output_locations(output);
    assert_eq!(locations.len(), 1);
    assert!(locations[0].ends_with(".intellij-info.txt"));
}

#[test]
fn aspect_output_locations_are_deduplicated() {
    let output = "INFO: x\n  a.intellij-info.txt\nb.intellij-info.txt\na.intellij-info.txt\nother.txt\n";
    assert_eq!(parse_aspect_output_locations(output), vec!["a.intellij-info.txt", "b.intellij-info.txt"]);
    assert!(is_aspect_output("lib-abc.intellij-info.txt"));
    assert!(!is_aspect_output("other.txt"));
}

#[test]
fn command_arguments() {
    let flags = vec!["--config=ci".to_string()];
    assert_eq!(query_args(Some(&flags), "q"), vec!["query", "--config=ci", "--output=label", "q"]);
    assert_eq!(query_args(None, "q"), vec!["query", "--output=label", "q"]);
    let targets = vec!["//a:a".to_string(), "//b:b".to_string()];
    assert_eq!(
        aspect_build_args(&targets, "//x:y.bzl%asp", Some(&flags)),
        vec![
            "build",
            "--config=ci",
            "--aspects=//x:y.bzl%asp",
            "--output_groups=intellij-info-java,intellij-info-generic",
            "--show_result=2147483647",
            "//a:a",
            "//b:b",
        ]
    );
}

#[test]
fn command_outcomes() {
    let ok = query_outcome(true, Ok(" //a:a \n\n//b:b\n".to_string()), "").unwrap();
    assert_eq!(ok, vec!["//a:a", "//b:b"]);
    match query_outcome(false, Ok(String::new()), "ERROR: no such package") {
        Err(BazelError::CommandFailed { message }) => assert_eq!(message, "bazel query failed: ERROR: no such package"),
        other => panic!("unexpected {:?}", other),
    }
    assert!(matches!(query_outcome(true, Err("bad utf8".to_string()), ""), Err(BazelError::Utf8Error(_))));
    assert_eq!(aspect_build_outcome(true, Ok("files".to_string())).unwrap(), "files");
    match aspect_build_outcome(false, Ok("boom".to_string())) {
        Err(e) => assert_eq!(e.message(), "Bazel command failed: bazel build with aspects failed: boom"),
        Ok(_) => panic!("expected failure"),
    }
    assert!(matches!(aspect_build_outcome(false, Err("x".to_string())), Err(BazelError::Utf8Error(_))));
    assert_eq!(query_output_targets("a\n  \n b \n"), vec!["a", "b"]);
}

#[test]
fn invoker_paths() {
    let inv = BazelInvoker::new("/usr/bin/bazel", "/ws", "//asp:a.bzl%x");
    assert_eq!(inv.bazel_path(), "/usr/bin/bazel");
    assert_eq!(inv.get_execution_root(), "/ws/bazel-out");
    let d = BazelInvoker::with_default_bazel("/ws", "label", false);
    assert_eq!(d.bazel_path(), "bazel");
    assert_eq!(BazelInvoker::with_default_bazel("/ws", "label", true).bazel_path(), "bazel.exe");
}

#[test]
fn shell_words_are_quoted() {
    assert_eq!(shell_escape_str("abc"), "'abc'");
    assert_eq!(shell_escape_str("it's"), "'it'\\''s'");
}

#[test]
fn artifact_paths_resolved_against_workspace() {
    let rel = |p: &str| ArtifactLocation { relative_path: Some(p.to_string()), ..Default::default() };
    let mut info = TargetIdeInfo {
        label: "//a:a".to_string(),
        kind: "java_library".to_string(),
        build_file: None,
        java_info: Some(JavaIdeInfo {
            jars: vec![JarInfo {
                jar: rel("bazel-out/bin/a/liba.jar"),
                source_jar: Some(ArtifactLocation {
                    root_path: Some("root/".to_string()),
                    relative_path: Some("/src.jar".to_string()),
                    ..Default::default()
                }),
                interface_jar: Some(rel("iface.jar")),
            }],
            generated_jars: vec![JarInfo { jar: rel("gen.jar"), source_jar: None, interface_jar: Some(rel("gi.jar")) }],
            compile_jars: vec![ArtifactLocation { absolute_path: Some("/abs.jar".to_string()), ..Default::default() }],
            sources: vec![ArtifactLocation::default()],
            ..Default::default()
        }),
        deps: vec![],
        runtime_deps: vec![],
        exports: vec![],
    };
    resolve_artifact_paths(&mut info, "/ws");
    let j = info.java_info.as_ref().unwrap();
    assert_eq!(j.jars[0].jar.absolute_path.as_deref(), Some("/ws/bazel-out/bin/a/liba.jar"));
    assert_eq!(j.jars[0].source_jar.as_ref().unwrap().absolute_path.as_deref(), Some("/ws/root/src.jar"));
    assert_eq!(j.jars[0].interface_jar.as_ref().unwrap().absolute_path.as_deref(), Some("/ws/iface.jar"));
    assert_eq!(j.generated_jars[0].jar.absolute_path.as_deref(), Some("/ws/gen.jar"));
    assert_eq!(j.generated_jars[0].interface_jar.as_ref().unwrap().absolute_path, None);
    assert_eq!(j.compile_jars[0].absolute_path.as_deref(), Some("/abs.jar"));
    assert_eq!(j.sources[0].absolute_path, None);
}
