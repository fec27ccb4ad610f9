//! The steps of a classpath request: the cache first, then the graph, then
//! an aspect build.  Each answer from the outside decides the next step and
//! the bridge's synchronisation state.
use vstd::prelude::*;
use crate::state::{SyncState, spec_resolution_error, resolution_error_message};
use crate::strutil::{concat2, concat3};

verus! {

/// What the last step of a classpath request learned.
pub enum ClasspathEvent {
    /// The request arrived.
    Requested,
    /// The cache held a classpath that could be read back.
    CacheHit,
    /// The cache held nothing usable.
    CacheMiss,
    /// The graph has no JARs recorded for the target.
    GraphHasNoJars,
    /// The classpath was computed from the graph.
    GraphComputed,
    /// Computing from the graph failed.
    GraphFailed,
    /// The aspect build failed with the given error.
    AspectBuildFailed { error: String },
    /// The aspect build produced no output for the target.
    AspectProducedNothing,
    /// The classpath was computed after the aspect build.
    AspectComputed,
    /// Computing after the aspect build failed with the given error.
    AspectComputeFailed { error: String },
}

/// What a classpath request does next.
#[derive(Debug, Clone, Copy, PartialEq, Eq, Structural)]
pub enum ClasspathAction {
    LookUpCache,
    LookUpGraph,
    ResolveWithAspect,
    /// Answer with the cached classpath.
    RespondFromCache,
    /// Answer with the classpath just computed, and store it in the cache.
    StoreAndRespond,
    /// Give up (with the step's message).
    Fail,
}

/// The next step of a request: its action, the state the bridge moves to
/// (if it moves) and, when the request fails, the message it fails with.
pub struct ClasspathStep {
    pub action: ClasspathAction,
    pub sync_state: Option<SyncState>,
    pub message: Option<String>,
}

/// Why resolving a target through an aspect build failed, from what the
/// build reported; `None` for events of other steps.
pub open spec fn resolution_failure(e: ClasspathEvent, label: Seq<char>) -> Option<Seq<char>> {
    match e {
        ClasspathEvent::AspectBuildFailed { error } => Some(spec_resolution_error(error@)),
        ClasspathEvent::AspectProducedNothing => Some(
            "No aspect output produced for target '"@ + label + "'. Verify the target exists and has Java rules."@,
        ),
        ClasspathEvent::AspectComputeFailed { error } => Some("Graph computation failed: "@ + error@),
        _ => None,
    }
}

/// The message a failed request is answered with.
pub open spec fn failure_message(label: Seq<char>, reason: Seq<char>) -> Seq<char> {
    "Classpath resolution failed for '"@ + label + "': "@ + reason
        + ". Try running 'bazel-jdt.cleanCache' then reimporting."@
}

/// The step that follows an event: a request looks in the cache, then in
/// the graph (when the graph has JARs for the target), then resolves
/// through an aspect build; a computed classpath is stored and returned;
/// an aspect build that fails, yields nothing or leaves the classpath
/// uncomputable fails the request.  The bridge syncs from the request on,
/// is idle once it answers and in error once it fails.
pub open spec fn spec_classpath_step(e: ClasspathEvent, label: Seq<char>) -> (ClasspathAction, Option<SyncState>) {
    match e {
        ClasspathEvent::Requested => (ClasspathAction::LookUpCache, Some(SyncState::Syncing)),
        ClasspathEvent::CacheHit => (ClasspathAction::RespondFromCache, Some(SyncState::Idle)),
        ClasspathEvent::CacheMiss => (ClasspathAction::LookUpGraph, None),
        ClasspathEvent::GraphHasNoJars => (ClasspathAction::ResolveWithAspect, None),
        ClasspathEvent::GraphComputed => (ClasspathAction::StoreAndRespond, Some(SyncState::Idle)),
        ClasspathEvent::GraphFailed => (ClasspathAction::ResolveWithAspect, None),
        ClasspathEvent::AspectComputed => (ClasspathAction::StoreAndRespond, Some(SyncState::Idle)),
        _ => (ClasspathAction::Fail, Some(SyncState::Error)),
    }
}

/// Decides the next step of a classpath request for `label` from what the
/// last step learned.
pub fn classpath_step(event: &ClasspathEvent, label: &str) -> (r: ClasspathStep)
    ensures
        r.action == spec_classpath_step(*event, label@).0,
        r.sync_state == spec_classpath_step(*event, label@).1,
        match r.message {
            Some(m) => resolution_failure(*event, label@) matches Some(reason) && m@ == failure_message(label@, reason),
            None => resolution_failure(*event, label@) is None,
        },
{
    match event {
        ClasspathEvent::Requested => ClasspathStep { action: ClasspathAction::LookUpCache, sync_state: Some(SyncState::Syncing), message: None },
        ClasspathEvent::CacheHit => ClasspathStep { action: ClasspathAction::RespondFromCache, sync_state: Some(SyncState::Idle), message: None },
        ClasspathEvent::CacheMiss => ClasspathStep { action: ClasspathAction::LookUpGraph, sync_state: None, message: None },
        ClasspathEvent::GraphHasNoJars => ClasspathStep { action: ClasspathAction::ResolveWithAspect, sync_state: None, message: None },
        ClasspathEvent::GraphComputed => ClasspathStep { action: ClasspathAction::StoreAndRespond, sync_state: Some(SyncState::Idle), message: None },
        ClasspathEvent::GraphFailed => ClasspathStep { action: ClasspathAction::ResolveWithAspect, sync_state: None, message: None },
        ClasspathEvent::AspectComputed => ClasspathStep { action: ClasspathAction::StoreAndRespond, sync_state: Some(SyncState::Idle), message: None },
        ClasspathEvent::AspectBuildFailed { error } => {
            let reason = resolution_error_message(error.as_str());
            ClasspathStep {
                action: ClasspathAction::Fail,
                sync_state: Some(SyncState::Error),
                message: Some(failure_text(label, reason.as_str())),
            }
        },
        ClasspathEvent::AspectProducedNothing => {
            let reason = concat3(
                "No aspect output produced for target '",
                label,
                "'. Verify the target exists and has Java rules.",
            );
            ClasspathStep {
                action: ClasspathAction::Fail,
                sync_state: Some(SyncState::Error),
                message: Some(failure_text(label, reason.as_str())),
            }
        },
        ClasspathEvent::AspectComputeFailed { error } => {
            let reason = concat2("Graph computation failed: ", error.as_str());
            ClasspathStep {
                action: ClasspathAction::Fail,
                sync_state: Some(SyncState::Error),
                message: Some(failure_text(label, reason.as_str())),
            }
        },
    }
}

/// The message of a failed request.
fn failure_text(label: &str, reason: &str) -> (r: String)
    ensures
        r@ == failure_message(label@, reason@),
{
    let mut s = concat3("Classpath resolution failed for '", label, "': ");
    s.append(reason);
    s.append(". Try running 'bazel-jdt.cleanCache' then reimporting.");
    s
}

/// Whether the action ends the request.
pub open spec fn ends_request(a: ClasspathAction) -> bool {
    match a {
        ClasspathAction::RespondFromCache => true,
        ClasspathAction::StoreAndRespond => true,
        ClasspathAction::Fail => true,
        _ => false,
    }
}

/// A request that ends is answered with the bridge idle, or fails with the
/// bridge in error; until it ends the state stays as it was, but for the
/// move to syncing when the request arrives.
pub proof fn law_request_ends_idle_or_in_error(e: ClasspathEvent, label: Seq<char>)
    ensures
        ({
            let (a, st) = spec_classpath_step(e, label);
            &&& (a is RespondFromCache || a is StoreAndRespond) ==> st == Some(SyncState::Idle)
            &&& a is Fail ==> st == Some(SyncState::Error) && resolution_failure(e, label) is Some
            &&& !ends_request(a) ==> (st is None || (e is Requested && st == Some(SyncState::Syncing)))
        }),
{
}

/// How many of the aspect results carry Java information.
pub open spec fn java_count(rs: Seq<crate::ide_info::TargetIdeInfo>) -> nat
    decreases rs.len(),
{
    if rs.len() == 0 {
        0
    } else {
        java_count(rs.drop_last()) + if rs.last().java_info is Some {
            1nat
        } else {
            0nat
        }
    }
}

/// The statistics of an aspect build: how many output files it produced
/// and how many of them carry Java information.
pub fn aspect_build_stats(results: &[crate::ide_info::TargetIdeInfo]) -> (r: (usize, usize))
    ensures
        r.0 == results@.len(),
        r.1 == java_count(results@),
{
    let mut with_jars: usize = 0;
    let mut k: usize = 0;
    while k < results.len()
        invariant
            k <= results@.len(),
            with_jars == java_count(results@.subrange(0, k as int)),
            with_jars <= k,
        decreases results@.len() - k,
    {
        proof {
            assert(results@.subrange(0, k + 1).drop_last() =~= results@.subrange(0, k as int));
        }
        if results[k].is_java_target() {
            with_jars = with_jars + 1;
        }
        k = k + 1;
    }
    proof {
        assert(results@.subrange(0, results@.len() as int) =~= results@);
    }
    (results.len(), with_jars)
}

} // verus!
