use bazel_jdt::ide_info::{JavaIdeInfo, TargetIdeInfo};
use bazel_jdt::request::{aspect_build_stats, classpath_step, ClasspathAction, ClasspathEvent};
use bazel_jdt::state::SyncState;

#[test]
fn request_starts_with_the_cache_and_syncs() {
    let step = classpath_step(&ClasspathEvent::Requested, "//pkg:a");
    assert_eq!(step.action, ClasspathAction::LookUpCache);
    assert_eq!(step.sync_state, Some(SyncState::Syncing));
    assert!(step.message.is_none());
}

#[test]
fn cache_hit_answers_and_goes_idle() {
    let step = classpath_step(&ClasspathEvent::CacheHit, "//pkg:a");
    assert_eq!(step.action, ClasspathAction::RespondFromCache);
    assert_eq!(step.sync_state, Some(SyncState::Idle));
}

#[test]
fn cache_miss_looks_in_the_graph() {
    let step = classpath_step(&ClasspathEvent::CacheMiss, "//pkg:a");
    assert_eq!(step.action, ClasspathAction::LookUpGraph);
    assert_eq!(step.sync_state, None);
}

#[test]
fn graph_without_jars_or_failing_resolves_with_aspect() {
    let a = classpath_step(&ClasspathEvent::GraphHasNoJars, "//pkg:a");
    let b = classpath_step(&ClasspathEvent::GraphFailed, "//pkg:a");
    assert_eq!(a.action, ClasspathAction::ResolveWithAspect);
    assert_eq!(b.action, ClasspathAction::ResolveWithAspect);
    assert_eq!(a.sync_state, None);
    assert_eq!(b.sync_state, None);
}

#[test]
fn computed_classpath_is_stored_and_returned() {
    for event in [ClasspathEvent::GraphComputed, ClasspathEvent::AspectComputed] {
        let step = classpath_step(&event, "//pkg:a");
        assert_eq!(step.action, ClasspathAction::StoreAndRespond);
        assert_eq!(step.sync_state, Some(SyncState::Idle));
        assert!(step.message.is_none());
    }
}

#[test]
fn failed_aspect_build_fails_the_request() {
    let step = classpath_step(
        &ClasspathEvent::AspectBuildFailed { error: "Bazel command failed: boom".to_string() },
        "//pkg:a",
    );
    assert_eq!(step.action, ClasspathAction::Fail);
    assert_eq!(step.sync_state, Some(SyncState::Error));
    assert_eq!(
        step.message.unwrap(),
        "Classpath resolution failed for '//pkg:a': Bazel aspect build failed: Bazel command failed: boom. Try running 'bazel-jdt.cleanCache' then reimporting."
    );
}

#[test]
fn missing_aspect_repository_points_at_reimport() {
    let step = classpath_step(
        &ClasspathEvent::AspectBuildFailed { error: "repository 'x' not found".to_string() },
        "//a:b",
    );
    assert_eq!(
        step.message.unwrap(),
        "Classpath resolution failed for '//a:b': Bazel aspect build failed: the IDE aspect files are missing. Try running 'Bazel: Import Project' to re-extract them. Details: repository 'x' not found. Try running 'bazel-jdt.cleanCache' then reimporting."
    );
}

#[test]
fn empty_aspect_output_fails_the_request() {
    let step = classpath_step(&ClasspathEvent::AspectProducedNothing, "//pkg:a");
    assert_eq!(step.action, ClasspathAction::Fail);
    assert_eq!(
        step.message.unwrap(),
        "Classpath resolution failed for '//pkg:a': No aspect output produced for target '//pkg:a'. Verify the target exists and has Java rules.. Try running 'bazel-jdt.cleanCache' then reimporting."
    );
}

#[test]
fn uncomputable_classpath_after_aspect_fails_the_request() {
    let step = classpath_step(
        &ClasspathEvent::AspectComputeFailed { error: "Target not found: //pkg:a".to_string() },
        "//pkg:a",
    );
    assert_eq!(step.sync_state, Some(SyncState::Error));
    assert_eq!(
        step.message.unwrap(),
        "Classpath resolution failed for '//pkg:a': Graph computation failed: Target not found: //pkg:a. Try running 'bazel-jdt.cleanCache' then reimporting."
    );
}

#[test]
fn aspect_build_stats_count_files_and_java_targets() {
    let java = TargetIdeInfo {
        java_info: Some(JavaIdeInfo::default()),
        ..TargetIdeInfo::new("//a:a".to_string(), "java_library".to_string())
    };
    let other = TargetIdeInfo::new("//b:b".to_string(), "genrule".to_string());
    assert_eq!(aspect_build_stats(&[java.clone(), other.clone(), java]), (3, 2));
    assert_eq!(aspect_build_stats(&[other]), (1, 0));
    assert_eq!(aspect_build_stats(&[]), (0, 0));
}
