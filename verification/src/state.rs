//! The bridge's synchronisation state, and the decisions an incremental
//! sync of changed BUILD files makes between its I/O steps.
use vstd::prelude::*;
use crate::model::{JavaRule, JavaRuleView, ParsedBuildFile, RuleType, rules_view};
use crate::change_detector::{detect_changes, some_relevant, spec_rule_diffs};
use crate::graph::{str_list, lemma_str_list_push, DependencyGraph, GraphView, reached_label, node_index};
use crate::strutil::{chars_of, substring, str_starts_with, seq_starts_with, push_char, seq_contains_sub, str_contains, concat2, str_eq, owned};
use crate::change_detector::{HashLookup, lookup_view};
use crate::labels::rfind_char;
use crate::strutil::last_occurrence;
use crate::paths::{path_join, path_join_of};

verus! {

/// Where the bridge stands in synchronising with Bazel.
#[derive(Debug, Clone, Copy, PartialEq, Eq, Structural)]
pub enum SyncState {
    Idle,
    Syncing,
    Error,
    Dead,
}

/// The number a state is stored as.
pub open spec fn spec_state_code(s: SyncState) -> i32 {
    match s {
        SyncState::Idle => 0,
        SyncState::Syncing => 1,
        SyncState::Error => 2,
        SyncState::Dead => 3,
    }
}

/// The state a stored number stands for; an unknown number reads as an
/// error.
pub open spec fn spec_state_of(code: i32) -> SyncState {
    if code == 0 {
        SyncState::Idle
    } else if code == 1 {
        SyncState::Syncing
    } else if code == 2 {
        SyncState::Error
    } else if code == 3 {
        SyncState::Dead
    } else {
        SyncState::Error
    }
}

impl SyncState {
    /// The number the state is stored as.
    pub fn code(&self) -> (c: i32)
        ensures
            c == spec_state_code(*self),
    {
        match self {
            SyncState::Idle => 0,
            SyncState::Syncing => 1,
            SyncState::Error => 2,
            SyncState::Dead => 3,
        }
    }

    /// The state a stored number stands for.
    pub fn from_code(code: i32) -> (s: SyncState)
        ensures
            s == spec_state_of(code),
    {
        if code == 0 {
            SyncState::Idle
        } else if code == 1 {
            SyncState::Syncing
        } else if code == 2 {
            SyncState::Error
        } else if code == 3 {
            SyncState::Dead
        } else {
            SyncState::Error
        }
    }
}

/// Storing a state and reading it back gives the same state.
pub proof fn lemma_state_code_roundtrip(s: SyncState)
    ensures
        spec_state_of(spec_state_code(s)) == s,
{
}

/// Whether a changed BUILD file needs an aspect build: when it added
/// targets, when it has no earlier version to compare with, or when the
/// comparison finds a change that affects the classpath.
pub open spec fn spec_should_run_aspect(
    old_rules: Option<Seq<JavaRuleView>>,
    new_rules: Seq<JavaRuleView>,
    added: Seq<Seq<char>>,
) -> bool {
    added.len() > 0 || match old_rules {
        Some(o) => some_relevant(spec_rule_diffs(o, new_rules)),
        None => true,
    }
}

/// Decides whether a changed BUILD file needs an aspect build.
pub fn should_run_aspect(old_parsed: &Option<ParsedBuildFile>, new_parsed: &ParsedBuildFile, added: &[String]) -> (b: bool)
    ensures
        b == spec_should_run_aspect(
            match old_parsed {
                Some(o) => Some(rules_view(o.rules@)),
                None => None,
            },
            rules_view(new_parsed.rules@),
            str_list(added@),
        ),
{
    if added.len() > 0 {
        return true;
    }
    match old_parsed {
        Some(old) => detect_changes(old, new_parsed).is_classpath_relevant,
        None => true,
    }
}

/// A package label without its leading `//` (every leading repeat).
pub open spec fn strip_dslashes(s: Seq<char>) -> Seq<char>
    decreases s.len(),
{
    if s.len() >= 2 && s[0] == '/' && s[1] == '/' {
        strip_dslashes(s.subrange(2, s.len() as int))
    } else {
        s
    }
}

/// `s` with every `/` replaced by `sep`.
pub open spec fn with_separator(s: Seq<char>, sep: char) -> Seq<char> {
    s.map_values(|c: char| if c == '/' { sep } else { c })
}

/// The target name of a label: what follows its last `:` (the whole
/// label when it has none).
pub open spec fn target_name(l: Seq<char>) -> Seq<char> {
    match last_occurrence(l, seq![':']) {
        Some(i) => l.subrange(i + 1, l.len() as int),
        None => l,
    }
}

/// A Java library rule with only a name.
pub open spec fn bare_rule(name: Seq<char>) -> JavaRuleView {
    JavaRuleView {
        rule_type: RuleType::JavaLibrary,
        name: name,
        srcs: Seq::empty(),
        deps: Seq::empty(),
        runtime_deps: Seq::empty(),
        resources: Seq::empty(),
        plugins: Seq::empty(),
        exports: Seq::empty(),
        test_only: false,
        visibility: Seq::empty(),
    }
}

fn package_dir(package_label: &str, separator: char) -> (r: String)
    ensures
        r@ == with_separator(strip_dslashes(package_label@), separator),
{
    let c = chars_of(package_label);
    let mut start: usize = 0;
    proof {
        assert(c@.subrange(0, c@.len() as int) =~= c@);
    }
    while c.len() - start >= 2 && c[start] == '/' && c[start + 1] == '/'
        invariant
            start <= c@.len(),
            c@ == package_label@,
            strip_dslashes(c@.subrange(start as int, c@.len() as int)) == strip_dslashes(package_label@),
        decreases c@.len() - start,
    {
        proof {
            let t = c@.subrange(start as int, c@.len() as int);
            assert(t.subrange(2, t.len() as int) =~= c@.subrange(start + 2, c@.len() as int));
        }
        start = start + 2;
    }
    let ghost rest = c@.subrange(start as int, c@.len() as int);
    let mut r = String::new();
    let mut k: usize = start;
    while k < c.len()
        invariant
            start <= k <= c@.len(),
            rest == c@.subrange(start as int, c@.len() as int),
            strip_dslashes(rest) == rest,
            r@ == with_separator(c@.subrange(start as int, k as int), separator),
        decreases c@.len() - k,
    {
        let ch = if c[k] == '/' { separator } else { c[k] };
        push_char(&mut r, ch);
        proof {
            assert(r@ =~= with_separator(c@.subrange(start as int, k + 1), separator));
        }
        k = k + 1;
    }
    r
}

/// A bare rule per label.
pub open spec fn bare_rules(labels: Seq<Seq<char>>) -> Seq<JavaRuleView> {
    labels.map_values(|l: Seq<char>| bare_rule(target_name(l)))
}

/// The name part of a label.
fn label_target_name(label: &str) -> (r: String)
    ensures
        r@ == target_name(label@),
{
    let c = chars_of(label);
    match rfind_char(&c, ':') {
        Some(i) => substring(&c, i + 1, c.len()),
        None => substring(&c, 0, c.len()),
    }
}

/// A stand-in for the earlier version of a BUILD file, made from the
/// targets the graph holds for its package: a Java library rule with only a
/// name per target, at the package's directory under the workspace root.
/// `None` when the graph holds no target of the package.
pub fn cached_build_file(workspace_root: &str, package_label: &str, labels: &[String], separator: char) -> (r: Option<ParsedBuildFile>)
    ensures
        labels@.len() == 0 ==> r is None,
        labels@.len() > 0 ==> (r matches Some(f) && {
            &&& f.path@ == path_join_of(workspace_root@, with_separator(strip_dslashes(package_label@), separator))
            &&& f.content_hash@.len() == 0
            &&& rules_view(f.rules@) == bare_rules(str_list(labels@))
            &&& f.loads@.len() == 0
        }),
{
    if labels.len() == 0 {
        return None;
    }
    let ghost want = bare_rules(str_list(labels@));
    let mut rules: Vec<JavaRule> = Vec::new();
    let mut k: usize = 0;
    while k < labels.len()
        invariant
            k <= labels@.len(),
            want == bare_rules(str_list(labels@)),
            rules@.len() == k,
            rules_view(rules@) == want.subrange(0, k as int),
        decreases labels@.len() - k,
    {
        let name = label_target_name(labels[k].as_str());
        let rule = JavaRule {
            rule_type: RuleType::JavaLibrary,
            name,
            srcs: Vec::new(),
            deps: Vec::new(),
            runtime_deps: Vec::new(),
            resources: Vec::new(),
            plugins: Vec::new(),
            exports: Vec::new(),
            test_only: false,
            visibility: Vec::new(),
        };
        let ghost before = rules@;
        rules.push(rule);
        proof {
            assert(rule@.srcs =~= Seq::<Seq<char>>::empty());
            assert(rule@.deps =~= Seq::<Seq<char>>::empty());
            assert(rule@.runtime_deps =~= Seq::<Seq<char>>::empty());
            assert(rule@.resources =~= Seq::<Seq<char>>::empty());
            assert(rule@.plugins =~= Seq::<Seq<char>>::empty());
            assert(rule@.exports =~= Seq::<Seq<char>>::empty());
            assert(rule@.visibility =~= Seq::<Seq<char>>::empty());
            assert(rule@ == bare_rule(target_name(labels@[k as int]@)));
            assert(rules_view(rules@) =~= want.subrange(0, k + 1));
        }
        k = k + 1;
    }
    proof {
        assert(want.subrange(0, labels@.len() as int) =~= want);
    }
    let dir = package_dir(package_label, separator);
    Some(ParsedBuildFile {
        path: path_join(workspace_root, dir.as_str()),
        content_hash: String::new(),
        rules,
        loads: Vec::new(),
    })
}

/// The targets an aspect build covers after an update: the added and the
/// modified ones.
pub fn aspect_build_targets(added: &[String], modified: &[String]) -> (r: Vec<String>)
    ensures
        str_list(r@) == str_list(added@) + str_list(modified@),
{
    let mut r: Vec<String> = Vec::new();
    let mut k: usize = 0;
    while k < added.len()
        invariant
            k <= added@.len(),
            str_list(r@) == str_list(added@).subrange(0, k as int),
        decreases added@.len() - k,
    {
        let ghost before = r@;
        let x = added[k].clone();
        r.push(x);
        proof {
            lemma_str_list_push(before, x);
            assert(str_list(r@) =~= str_list(added@).subrange(0, k + 1));
        }
        k = k + 1;
    }
    let mut j: usize = 0;
    while j < modified.len()
        invariant
            j <= modified@.len(),
            str_list(r@) == str_list(added@) + str_list(modified@).subrange(0, j as int),
        decreases modified@.len() - j,
    {
        let ghost before = r@;
        let x = modified[j].clone();
        r.push(x);
        proof {
            lemma_str_list_push(before, x);
            assert(str_list(r@) =~= str_list(added@) + str_list(modified@).subrange(0, j + 1));
        }
        j = j + 1;
    }
    proof {
        assert(str_list(added@).subrange(0, added@.len() as int) =~= str_list(added@));
        assert(str_list(modified@).subrange(0, modified@.len() as int) =~= str_list(modified@));
    }
    r
}

/// Some listed target is a node that `x` transitively depends on, and `x`
/// is no external label: `x` is invalidated along with it.
pub open spec fn depends_on_any(v: GraphView, d: Seq<Seq<char>>, x: Seq<char>) -> bool
    decreases d.len(),
{
    d.len() > 0 && (depends_on_any(v, d.drop_last(), x) || (v.nodes.contains(d.last()) && reached_label(
        v,
        v.inc,
        node_index(v.nodes, d.last()),
        x,
    ) && !seq_starts_with(x, seq!['@'])))
}

proof fn lemma_concat_contains(a: Seq<Seq<char>>, b: Seq<Seq<char>>, x: Seq<char>)
    ensures
        (a + b).contains(x) <==> (a.contains(x) || b.contains(x)),
{
    if a.contains(x) {
        let i = choose|i: int| 0 <= i < a.len() && a[i] == x;
        assert((a + b)[i] == x);
    }
    if b.contains(x) {
        let i = choose|i: int| 0 <= i < b.len() && b[i] == x;
        assert((a + b)[a.len() + i] == x);
    }
    if (a + b).contains(x) {
        let i = choose|i: int| 0 <= i < (a + b).len() && (a + b)[i] == x;
        if i < a.len() {
            assert(a[i] == x);
        } else {
            assert(b[i - a.len()] == x);
        }
    }
}

/// Appends copies of strings to a list.
fn append_all(v: &mut Vec<String>, extra: &Vec<String>)
    ensures
        str_list(final(v)@) == str_list(old(v)@) + str_list(extra@),
{
    let mut k: usize = 0;
    while k < extra.len()
        invariant
            k <= extra@.len(),
            str_list(v@) == str_list(old(v)@) + str_list(extra@).subrange(0, k as int),
        decreases extra@.len() - k,
    {
        let ghost before = v@;
        let x = extra[k].clone();
        v.push(x);
        proof {
            lemma_str_list_push(before, x);
            assert(str_list(old(v)@) + str_list(extra@).subrange(0, k + 1) =~= (str_list(old(v)@)
                + str_list(extra@).subrange(0, k as int)).push(extra@[k as int]@));
        }
        k = k + 1;
    }
    proof {
        assert(str_list(extra@).subrange(0, extra@.len() as int) =~= str_list(extra@));
    }
}

/// The targets an update of a BUILD file invalidates: those it added,
/// removed or modified, and every workspace target that transitively
/// depends on one of them.  A label may be listed more than once.
pub fn invalidated_by_update(graph: &DependencyGraph, added: &[String], removed: &[String], modified: &[String]) -> (r: Vec<String>)
    requires
        graph.wf(),
    ensures
        forall|x: Seq<char>| #[trigger] str_list(r@).contains(x) <==> ({
            let direct = str_list(added@) + str_list(removed@) + str_list(modified@);
            direct.contains(x) || depends_on_any(graph@, direct, x)
        }),
{
    let first = aspect_build_targets(added, removed);
    let direct = aspect_build_targets(first.as_slice(), modified);
    let ghost dv = str_list(direct@);
    proof {
        assert(dv == str_list(added@) + str_list(removed@) + str_list(modified@));
    }
    let mut r: Vec<String> = Vec::new();
    append_all(&mut r, &direct);
    proof {
        assert(str_list(r@) =~= dv);
    }
    let mut k: usize = 0;
    while k < direct.len()
        invariant
            k <= direct@.len(),
            graph.wf(),
            dv == str_list(direct@),
            forall|x: Seq<char>| #[trigger] str_list(r@).contains(x) <==> (dv.contains(x) || depends_on_any(
                graph@,
                dv.subrange(0, k as int),
                x,
            )),
        decreases direct@.len() - k,
    {
        let deps = graph.reverse_transitive_deps(direct[k].as_str());
        let ghost before = str_list(r@);
        append_all(&mut r, &deps);
        proof {
            let t = dv.subrange(0, k + 1);
            assert(t.drop_last() =~= dv.subrange(0, k as int));
            assert(t.last() == direct@[k as int]@);
            assert forall|x: Seq<char>| #[trigger] str_list(r@).contains(x) <==> (dv.contains(x) || depends_on_any(
                graph@,
                t,
                x,
            )) by {
                lemma_concat_contains(before, str_list(deps@), x);
                if !graph@.nodes.contains(direct@[k as int]@) {
                    assert(!str_list(deps@).contains(x));
                }
            }
        }
        k = k + 1;
    }
    proof {
        assert(dv.subrange(0, direct@.len() as int) =~= dv);
    }
    r
}

/// An aspect build error that says a repository or package was not
/// found: the aspect files are missing from the workspace.
pub open spec fn aspect_files_missing(e: Seq<char>) -> bool {
    (seq_contains_sub(e, "repository"@) && seq_contains_sub(e, "not found"@)) || (seq_contains_sub(e, "package"@)
        && seq_contains_sub(e, "not found"@))
}

/// The message for a failed aspect build during full resolution.
pub open spec fn spec_resolution_error(e: Seq<char>) -> Seq<char> {
    if aspect_files_missing(e) {
        "Bazel aspect build failed: the IDE aspect files are missing. Try running 'Bazel: Import Project' to re-extract them. Details: "@
            + e
    } else {
        "Bazel aspect build failed: "@ + e
    }
}

/// Explains a failed aspect build; a missing repository or package points
/// at missing aspect files.
pub fn resolution_error_message(error: &str) -> (r: String)
    ensures
        r@ == spec_resolution_error(error@),
{
    let missing = (str_contains(error, "repository") && str_contains(error, "not found")) || (str_contains(error, "package")
        && str_contains(error, "not found"));
    if missing {
        concat2(
            "Bazel aspect build failed: the IDE aspect files are missing. Try running 'Bazel: Import Project' to re-extract them. Details: ",
            error,
        )
    } else {
        concat2("Bazel aspect build failed: ", error)
    }
}

/// Whether a watched BUILD file needs its hash recorded again: unless the
/// cache holds the same hash.
pub fn hash_needs_update(cached: &HashLookup, current_hash: &str) -> (b: bool)
    ensures
        b == !(lookup_view(*cached) == Some(Some(current_hash@))),
{
    match cached {
        HashLookup::Found(h) => !str_eq(h.as_str(), current_hash),
        HashLookup::Missing => true,
        HashLookup::Failed(_) => true,
    }
}

/// The pending entry that stands for a change of the project view.
pub open spec fn config_changed_sentinel() -> Seq<char> {
    "__CONFIG_CHANGED__"@
}

/// Adding entries to the pending list, each unless already there.
pub open spec fn add_pending(p: Seq<Seq<char>>, new: Seq<Seq<char>>) -> Seq<Seq<char>>
    decreases new.len(),
{
    if new.len() == 0 {
        p
    } else {
        let r = add_pending(p, new.drop_last());
        if r.contains(new.last()) {
            r
        } else {
            r.push(new.last())
        }
    }
}

/// Records what a batch of watched file changes leaves to do: the project
/// view marker when the configuration changed, then each affected package,
/// none of them twice.
pub fn record_pending(pending: &mut Vec<String>, config_changed: bool, packages: &[String])
    ensures
        str_list(final(pending)@) == add_pending(
            str_list(old(pending)@),
            (if config_changed { seq![config_changed_sentinel()] } else { Seq::empty() }) + str_list(packages@),
        ),
{
    let mut all: Vec<String> = Vec::new();
    if config_changed {
        all.push(owned("__CONFIG_CHANGED__"));
        proof {
            assert(str_list(all@) =~= seq![config_changed_sentinel()]);
        }
    } else {
        proof {
            assert(str_list(all@) =~= Seq::<Seq<char>>::empty());
        }
    }
    let ghost pre = str_list(all@);
    let mut k: usize = 0;
    while k < packages.len()
        invariant
            k <= packages@.len(),
            str_list(all@) == pre + str_list(packages@).subrange(0, k as int),
        decreases packages@.len() - k,
    {
        let ghost before = all@;
        let x = packages[k].clone();
        all.push(x);
        proof {
            lemma_str_list_push(before, x);
            assert(pre + str_list(packages@).subrange(0, k + 1) =~= (pre + str_list(packages@).subrange(0, k as int)).push(
                packages@[k as int]@,
            ));
        }
        k = k + 1;
    }
    proof {
        assert(str_list(packages@).subrange(0, packages@.len() as int) =~= str_list(packages@));
    }
    let ghost want = str_list(all@);
    let ghost p0 = str_list(pending@);
    let mut j: usize = 0;
    while j < all.len()
        invariant
            j <= all@.len(),
            want == str_list(all@),
            str_list(pending@) == add_pending(p0, want.subrange(0, j as int)),
        decreases all@.len() - j,
    {
        proof {
            let t = want.subrange(0, j + 1);
            assert(t.drop_last() =~= want.subrange(0, j as int));
            assert(t.last() == all@[j as int]@);
        }
        let seen = crate::assoc::find_str(pending, all[j].as_str());
        proof {
            if seen is None {
                assert forall|i: int| 0 <= i < str_list(pending@).len() implies str_list(pending@)[i] != all@[j as int]@ by {
                    assert(str_list(pending@)[i] == pending@[i]@);
                }
                assert(!str_list(pending@).contains(all@[j as int]@));
            } else {
                assert(str_list(pending@)[seen->0 as int] == all@[j as int]@);
            }
        }
        if seen.is_none() {
            let ghost before = pending@;
            let x = all[j].clone();
            pending.push(x);
            proof {
                lemma_str_list_push(before, x);
            }
        }
        j = j + 1;
    }
    proof {
        assert(want.subrange(0, all@.len() as int) =~= want);
    }
}

} // verus!
