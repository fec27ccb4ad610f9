//! Change detection for BUILD files: which rules were added, removed or
//! modified, which targets need resolving again, and which files changed.
use vstd::prelude::*;
use crate::model::{JavaRule, JavaRuleView, ParsedBuildFile, RuleType, rules_view};
use crate::ide_info::strs_view;
use crate::strutil::{chars_of, concat3, str_eq, seq_starts_with, str_starts_with, owned};
use crate::labels::{slash_label, slash_label_of};
use crate::paths::{path_parent, path_parent_of, path_strip_prefix, path_strip_prefix_of, path_file_name,
    path_file_name_of, path_join, path_join_of, paths_equal, same_path};
use crate::graph::{str_list, lemma_str_list_push};
use crate::text::{trim_ws, trim_str, str_lines, lines_of};

verus! {

/// How a rule changed.
#[derive(Debug, Clone, Copy, PartialEq, Eq, Structural)]
pub enum ChangeType {
    /// The rule is new.
    Added,
    /// The rule is gone.
    Removed,
    /// The rule is in both versions, with field changes.
    Modified,
    /// The rule is in both versions, unchanged.
    Unchanged,
}

/// Which attribute of a Java rule changed.
#[derive(Debug, Clone, Copy, PartialEq, Eq, Structural)]
pub enum FieldChange {
    DepsChanged,
    SrcsChanged,
    RuntimeDepsChanged,
    ResourcesChanged,
    PluginsChanged,
    ExportsChanged,
    VisibilityChanged,
    TestOnlyChanged,
}

/// The attribute changes that affect the classpath.
pub open spec fn spec_classpath_relevant(f: FieldChange) -> bool {
    match f {
        FieldChange::DepsChanged | FieldChange::SrcsChanged | FieldChange::RuntimeDepsChanged
        | FieldChange::ExportsChanged | FieldChange::PluginsChanged => true,
        FieldChange::VisibilityChanged | FieldChange::TestOnlyChanged | FieldChange::ResourcesChanged => false,
    }
}

impl FieldChange {
    /// Whether the change affects the classpath, so that dependencies must
    /// be resolved again.
    pub fn is_classpath_relevant(&self) -> (b: bool)
        ensures
            b == spec_classpath_relevant(*self),
    {
        match self {
            FieldChange::DepsChanged | FieldChange::SrcsChanged | FieldChange::RuntimeDepsChanged
            | FieldChange::ExportsChanged | FieldChange::PluginsChanged => true,
            FieldChange::VisibilityChanged | FieldChange::TestOnlyChanged | FieldChange::ResourcesChanged => false,
        }
    }
}

/// The change of one rule between two versions of a BUILD file.
#[derive(Debug, Clone)]
pub struct RuleDiff {
    pub rule_name: String,
    pub rule_type: RuleType,
    pub change_type: ChangeType,
    /// Empty unless the rule was modified.
    pub field_changes: Vec<FieldChange>,
}

/// Abstract rule change.
pub struct RuleDiffView {
    pub rule_name: Seq<char>,
    pub rule_type: RuleType,
    pub change_type: ChangeType,
    pub field_changes: Seq<FieldChange>,
}

impl View for RuleDiff {
    type V = RuleDiffView;

    open spec fn view(&self) -> RuleDiffView {
        RuleDiffView {
            rule_name: self.rule_name@,
            rule_type: self.rule_type,
            change_type: self.change_type,
            field_changes: self.field_changes@,
        }
    }
}

/// The views of rule changes.
pub open spec fn diffs_view(v: Seq<RuleDiff>) -> Seq<RuleDiffView> {
    v.map_values(|d: RuleDiff| d@)
}

/// The comparison of two versions of a BUILD file.
#[derive(Debug, Clone)]
pub struct ChangeResult {
    pub file_path: String,
    pub rule_diffs: Vec<RuleDiff>,
    /// Labels (`//package:name`) to resolve again.
    pub affected_labels: Vec<String>,
    pub is_classpath_relevant: bool,
}

/// The attributes that differ between two versions of a rule, in the
/// order deps, srcs, runtime_deps, resources, plugins, exports,
/// visibility, testonly.
pub open spec fn spec_field_changes(b: JavaRuleView, a: JavaRuleView) -> Seq<FieldChange> {
    let s1 = if b.deps != a.deps { seq![FieldChange::DepsChanged] } else { Seq::empty() };
    let s2 = if b.srcs != a.srcs { s1.push(FieldChange::SrcsChanged) } else { s1 };
    let s3 = if b.runtime_deps != a.runtime_deps { s2.push(FieldChange::RuntimeDepsChanged) } else { s2 };
    let s4 = if b.resources != a.resources { s3.push(FieldChange::ResourcesChanged) } else { s3 };
    let s5 = if b.plugins != a.plugins { s4.push(FieldChange::PluginsChanged) } else { s4 };
    let s6 = if b.exports != a.exports { s5.push(FieldChange::ExportsChanged) } else { s5 };
    let s7 = if b.visibility != a.visibility { s6.push(FieldChange::VisibilityChanged) } else { s6 };
    if b.test_only != a.test_only { s7.push(FieldChange::TestOnlyChanged) } else { s7 }
}

/// Whether two string lists are equal.
fn strs_equal(a: &Vec<String>, b: &Vec<String>) -> (r: bool)
    ensures
        r == (strs_view(*a) == strs_view(*b)),
{
    if a.len() != b.len() {
        proof {
            assert(strs_view(*a).len() != strs_view(*b).len());
        }
        return false;
    }
    let mut k: usize = 0;
    while k < a.len()
        invariant
            k <= a@.len(),
            a@.len() == b@.len(),
            forall|i: int| 0 <= i < k ==> a@[i]@ == b@[i]@,
        decreases a@.len() - k,
    {
        if !str_eq(a[k].as_str(), b[k].as_str()) {
            proof {
                assert(strs_view(*a)[k as int] != strs_view(*b)[k as int]);
            }
            return false;
        }
        k = k + 1;
    }
    proof {
        assert(strs_view(*a) =~= strs_view(*b));
    }
    true
}

/// The attribute changes between two versions of a rule.
pub fn compute_field_changes(before: &JavaRule, after: &JavaRule) -> (r: Vec<FieldChange>)
    ensures
        r@ == spec_field_changes(before@, after@),
{
    let mut changes: Vec<FieldChange> = Vec::new();
    if !strs_equal(&before.deps, &after.deps) {
        changes.push(FieldChange::DepsChanged);
    }
    if !strs_equal(&before.srcs, &after.srcs) {
        changes.push(FieldChange::SrcsChanged);
    }
    if !strs_equal(&before.runtime_deps, &after.runtime_deps) {
        changes.push(FieldChange::RuntimeDepsChanged);
    }
    if !strs_equal(&before.resources, &after.resources) {
        changes.push(FieldChange::ResourcesChanged);
    }
    if !strs_equal(&before.plugins, &after.plugins) {
        changes.push(FieldChange::PluginsChanged);
    }
    if !strs_equal(&before.exports, &after.exports) {
        changes.push(FieldChange::ExportsChanged);
    }
    if !strs_equal(&before.visibility, &after.visibility) {
        changes.push(FieldChange::VisibilityChanged);
    }
    if before.test_only != after.test_only {
        changes.push(FieldChange::TestOnlyChanged);
    }
    proof {
        assert(changes@ =~= spec_field_changes(before@, after@));
    }
    changes
}

/// The rule names, each once, in order of first appearance.
pub open spec fn distinct_names(rs: Seq<JavaRuleView>) -> Seq<Seq<char>>
    decreases rs.len(),
{
    if rs.len() == 0 {
        Seq::empty()
    } else {
        let r = distinct_names(rs.drop_last());
        if r.contains(rs.last().name) {
            r
        } else {
            r.push(rs.last().name)
        }
    }
}

/// The last rule with a name: the one a name lookup keeps when a file
/// repeats a name.
pub open spec fn last_named(rs: Seq<JavaRuleView>, n: Seq<char>) -> Option<JavaRuleView>
    decreases rs.len(),
{
    if rs.len() == 0 {
        None
    } else if rs.last().name == n {
        Some(rs.last())
    } else {
        last_named(rs.drop_last(), n)
    }
}

proof fn lemma_distinct_named(rs: Seq<JavaRuleView>, n: Seq<char>)
    requires
        distinct_names(rs).contains(n),
    ensures
        last_named(rs, n) is Some,
    decreases rs.len(),
{
    if rs.len() > 0 && rs.last().name != n {
        let r = distinct_names(rs.drop_last());
        if !r.contains(rs.last().name) {
            let i = choose|i: int| 0 <= i < r.push(rs.last().name).len() && r.push(rs.last().name)[i] == n;
            assert(r[i] == n);
        }
        lemma_distinct_named(rs.drop_last(), n);
    }
}

/// The change of a rule present after the edit: added when no rule had
/// its name before, else modified or unchanged by its attribute changes.
pub open spec fn after_diff(n: Seq<char>, bs: Seq<JavaRuleView>, as_: Seq<JavaRuleView>) -> RuleDiffView {
    let a = last_named(as_, n).unwrap();
    match last_named(bs, n) {
        Some(b) => {
            let fc = spec_field_changes(b, a);
            RuleDiffView {
                rule_name: n,
                rule_type: a.rule_type,
                change_type: if fc.len() == 0 { ChangeType::Unchanged } else { ChangeType::Modified },
                field_changes: fc,
            }
        },
        None => RuleDiffView {
            rule_name: n,
            rule_type: a.rule_type,
            change_type: ChangeType::Added,
            field_changes: Seq::empty(),
        },
    }
}

/// The change of a rule that is gone.
pub open spec fn removed_diff(n: Seq<char>, bs: Seq<JavaRuleView>) -> RuleDiffView {
    RuleDiffView {
        rule_name: n,
        rule_type: last_named(bs, n).unwrap().rule_type,
        change_type: ChangeType::Removed,
        field_changes: Seq::empty(),
    }
}

/// The names no rule has after the edit.
pub open spec fn gone_names(names: Seq<Seq<char>>, as_: Seq<JavaRuleView>) -> Seq<Seq<char>>
    decreases names.len(),
{
    if names.len() == 0 {
        Seq::empty()
    } else {
        let r = gone_names(names.drop_last(), as_);
        if last_named(as_, names.last()) is None {
            r.push(names.last())
        } else {
            r
        }
    }
}

/// The changes between two rule lists: one per rule name after the edit,
/// in order of first appearance, then one per name that is gone.
pub open spec fn spec_rule_diffs(bs: Seq<JavaRuleView>, as_: Seq<JavaRuleView>) -> Seq<RuleDiffView> {
    distinct_names(as_).map_values(|n: Seq<char>| after_diff(n, bs, as_))
        + gone_names(distinct_names(bs), as_).map_values(|n: Seq<char>| removed_diff(n, bs))
}

/// Some attribute change affects the classpath.
pub open spec fn any_relevant(fc: Seq<FieldChange>) -> bool
    decreases fc.len(),
{
    fc.len() > 0 && (any_relevant(fc.drop_last()) || spec_classpath_relevant(fc.last()))
}

/// A rule change needs resolving again: an added or removed rule, or a
/// modified one with a classpath-relevant attribute change.
pub open spec fn diff_relevant(d: RuleDiffView) -> bool {
    match d.change_type {
        ChangeType::Added | ChangeType::Removed => true,
        ChangeType::Modified => any_relevant(d.field_changes),
        ChangeType::Unchanged => false,
    }
}

/// The labels of the rule changes that need resolving again.
pub open spec fn relevant_labels(ds: Seq<RuleDiffView>, pkg: Seq<char>) -> Seq<Seq<char>>
    decreases ds.len(),
{
    if ds.len() == 0 {
        Seq::empty()
    } else {
        let r = relevant_labels(ds.drop_last(), pkg);
        if diff_relevant(ds.last()) {
            r.push(pkg + seq![':'] + ds.last().rule_name)
        } else {
            r
        }
    }
}

/// Some rule change needs resolving again.
pub open spec fn some_relevant(ds: Seq<RuleDiffView>) -> bool
    decreases ds.len(),
{
    ds.len() > 0 && (some_relevant(ds.drop_last()) || diff_relevant(ds.last()))
}

/// The package label of a BUILD file path: `//` followed by its directory.
pub open spec fn spec_package_label_from_path(p: Seq<char>) -> Seq<char> {
    match path_parent_of(p) {
        Some(d) => slash_label(d),
        None => "//"@,
    }
}

/// The package label of a BUILD file path (`//` and its directory).
pub fn compute_package_label_from_path(build_file_path: &str) -> (r: String)
    ensures
        r@ == spec_package_label_from_path(build_file_path@),
{
    match path_parent(build_file_path) {
        Some(d) => slash_label_of(d.as_str()),
        None => {
            proof {
                reveal_strlit("//");
            }
            crate::strutil::owned("//")
        },
    }
}

/// The package label of a BUILD file: `//` and its directory relative to
/// the workspace root, or (outside the root) its whole directory.
pub open spec fn spec_build_file_package_label(p: Seq<char>, ws: Seq<char>) -> Seq<char> {
    match path_strip_prefix_of(p, ws) {
        Some(rel) => match path_parent_of(rel) {
            Some(d) => slash_label(d),
            None => "//"@,
        },
        None => spec_package_label_from_path(p),
    }
}

/// Computes the Bazel package label of a BUILD file in a workspace.
pub fn compute_build_file_package_label(build_file_path: &str, workspace_root: &str) -> (r: String)
    ensures
        r@ == spec_build_file_package_label(build_file_path@, workspace_root@),
{
    match path_strip_prefix(build_file_path, workspace_root) {
        Some(rel) => match path_parent(rel.as_str()) {
            Some(d) => slash_label_of(d.as_str()),
            None => crate::strutil::owned("//"),
        },
        None => compute_package_label_from_path(build_file_path),
    }
}

/// The index of the last rule with a name.
fn last_named_index(rs: &Vec<JavaRule>, n: &str) -> (r: Option<usize>)
    ensures
        match r {
            Some(i) => i < rs@.len() && last_named(rules_view(rs@), n@) == Some(rs@[i as int]@),
            None => last_named(rules_view(rs@), n@) is None,
        },
{
    let ghost rv = rules_view(rs@);
    let mut k: usize = rs.len();
    proof {
        assert(rv.subrange(0, rv.len() as int) =~= rv);
    }
    while k > 0
        invariant
            k <= rs@.len(),
            rv == rules_view(rs@),
            last_named(rv.subrange(0, k as int), n@) == last_named(rv, n@),
        decreases k,
    {
        let ghost sub = rv.subrange(0, k as int);
        proof {
            assert(sub.last() == rs@[k - 1]@);
            assert(sub.drop_last() =~= rv.subrange(0, k - 1));
        }
        if str_eq(rs[k - 1].name.as_str(), n) {
            return Some(k - 1);
        }
        k = k - 1;
    }
    None
}

/// The rule names, each once, in order of first appearance.
fn distinct_rule_names(rs: &Vec<JavaRule>) -> (r: Vec<String>)
    ensures
        str_list(r@) == distinct_names(rules_view(rs@)),
{
    let ghost rv = rules_view(rs@);
    let mut r: Vec<String> = Vec::new();
    let mut k: usize = 0;
    while k < rs.len()
        invariant
            k <= rs@.len(),
            rv == rules_view(rs@),
            str_list(r@) == distinct_names(rv.subrange(0, k as int)),
        decreases rs@.len() - k,
    {
        let ghost sub = rv.subrange(0, k + 1);
        proof {
            assert(sub.drop_last() =~= rv.subrange(0, k as int));
            assert(sub.last() == rs@[k as int]@);
        }
        let seen = crate::assoc::find_str(&r, rs[k].name.as_str());
        proof {
            if seen is None {
                assert forall|i: int| 0 <= i < str_list(r@).len() implies str_list(r@)[i] != rs@[k as int].name@ by {
                    assert(str_list(r@)[i] == r@[i]@);
                }
                assert(!str_list(r@).contains(rs@[k as int].name@));
            } else {
                assert(str_list(r@)[seen->0 as int] == rs@[k as int].name@);
            }
        }
        if seen.is_none() {
            let ghost before = r@;
            let nm = rs[k].name.clone();
            r.push(nm);
            proof {
                lemma_str_list_push(before, nm);
            }
        }
        k = k + 1;
    }
    proof {
        assert(rv.subrange(0, rs@.len() as int) =~= rv);
    }
    r
}

/// Compares two versions of a BUILD file: the change of each rule (rules
/// present after the edit first, in order of first appearance, then the
/// removed ones), the labels of the changes that need resolving again,
/// and whether there are any.
pub fn detect_changes(before: &ParsedBuildFile, after: &ParsedBuildFile) -> (r: ChangeResult)
    ensures
        r.file_path@ == after.path@,
        diffs_view(r.rule_diffs@) == spec_rule_diffs(rules_view(before.rules@), rules_view(after.rules@)),
        str_list(r.affected_labels@) == relevant_labels(
            spec_rule_diffs(rules_view(before.rules@), rules_view(after.rules@)),
            spec_package_label_from_path(after.path@),
        ),
        r.is_classpath_relevant == some_relevant(spec_rule_diffs(rules_view(before.rules@), rules_view(after.rules@))),
{
    let ghost bs = rules_view(before.rules@);
    let ghost as_ = rules_view(after.rules@);
    let ghost all = spec_rule_diffs(bs, as_);
    let ghost firsts = distinct_names(as_).map_values(|n: Seq<char>| after_diff(n, bs, as_));
    let ghost gones = gone_names(distinct_names(bs), as_).map_values(|n: Seq<char>| removed_diff(n, bs));
    let mut diffs: Vec<RuleDiff> = Vec::new();
    let names_after = distinct_rule_names(&after.rules);
    let mut k: usize = 0;
    while k < names_after.len()
        invariant
            k <= names_after@.len(),
            bs == rules_view(before.rules@),
            as_ == rules_view(after.rules@),
            str_list(names_after@) == distinct_names(as_),
            firsts == distinct_names(as_).map_values(|n: Seq<char>| after_diff(n, bs, as_)),
            diffs@.len() == k,
            diffs_view(diffs@) == firsts.subrange(0, k as int),
        decreases names_after@.len() - k,
    {
        let n = names_after[k].as_str();
        proof {
            assert(str_list(names_after@)[k as int] == n@);
            lemma_distinct_named(as_, n@);
        }
        let ia = last_named_index(&after.rules, n);
        let ai = match ia {
            Some(i) => i,
            None => {
                return ChangeResult {
                    file_path: after.path.clone(),
                    rule_diffs: Vec::new(),
                    affected_labels: Vec::new(),
                    is_classpath_relevant: false,
                };
            },
        };
        let ar = &after.rules[ai];
        let d = match last_named_index(&before.rules, n) {
            Some(bi) => {
                let fc = compute_field_changes(&before.rules[bi], ar);
                let ct = if fc.len() == 0 { ChangeType::Unchanged } else { ChangeType::Modified };
                RuleDiff { rule_name: names_after[k].clone(), rule_type: ar.rule_type, change_type: ct, field_changes: fc }
            },
            None => RuleDiff {
                rule_name: names_after[k].clone(),
                rule_type: ar.rule_type,
                change_type: ChangeType::Added,
                field_changes: Vec::new(),
            },
        };
        let ghost before_d = diffs@;
        diffs.push(d);
        proof {
            assert(d@ == after_diff(n@, bs, as_));
            assert(diffs_view(diffs@) =~= firsts.subrange(0, k + 1));
        }
        k = k + 1;
    }
    proof {
        assert(firsts.subrange(0, names_after@.len() as int) =~= firsts);
    }
    let names_before = distinct_rule_names(&before.rules);
    let ghost gn = gone_names(distinct_names(bs), as_);
    let ghost start = diffs@.len();
    let mut k: usize = 0;
    let ghost mut taken: Seq<Seq<char>> = Seq::empty();
    while k < names_before.len()
        invariant
            k <= names_before@.len(),
            bs == rules_view(before.rules@),
            as_ == rules_view(after.rules@),
            str_list(names_before@) == distinct_names(bs),
            gones == gone_names(distinct_names(bs), as_).map_values(|n: Seq<char>| removed_diff(n, bs)),
            firsts == distinct_names(as_).map_values(|n: Seq<char>| after_diff(n, bs, as_)),
            diffs_view(diffs@) == firsts + gone_names(str_list(names_before@).subrange(0, k as int), as_).map_values(
                |n: Seq<char>| removed_diff(n, bs),
            ),
        decreases names_before@.len() - k,
    {
        let n = names_before[k].as_str();
        let ghost pre = str_list(names_before@).subrange(0, k as int);
        let ghost nxt = str_list(names_before@).subrange(0, k + 1);
        proof {
            assert(nxt.drop_last() =~= pre);
            assert(nxt.last() == n@);
        }
        if last_named_index(&after.rules, n).is_none() {
            proof {
                assert(str_list(names_before@)[k as int] == n@);
                lemma_distinct_named(bs, n@);
            }
            match last_named_index(&before.rules, n) {
                Some(bi) => {
                    let d = RuleDiff {
                        rule_name: names_before[k].clone(),
                        rule_type: before.rules[bi].rule_type,
                        change_type: ChangeType::Removed,
                        field_changes: Vec::new(),
                    };
                    let ghost old_view = diffs_view(diffs@);
                    diffs.push(d);
                    proof {
                        assert(d@ == removed_diff(n@, bs));
                        assert(gone_names(nxt, as_) == gone_names(pre, as_).push(n@));
                        assert(gone_names(nxt, as_).map_values(|m: Seq<char>| removed_diff(m, bs)) =~= gone_names(
                            pre,
                            as_,
                        ).map_values(|m: Seq<char>| removed_diff(m, bs)).push(removed_diff(n@, bs)));
                        assert(diffs_view(diffs@) =~= old_view.push(d@));
                    }
                },
                None => {},
            }
        } else {
            proof {
                assert(gone_names(nxt, as_) == gone_names(pre, as_));
            }
        }
        k = k + 1;
    }
    proof {
        assert(str_list(names_before@).subrange(0, names_before@.len() as int) =~= str_list(names_before@));
        assert(diffs_view(diffs@) =~= all);
    }
    let pkg = compute_package_label_from_path(after.path.as_str());
    let mut labels: Vec<String> = Vec::new();
    let mut relevant = false;
    let mut j: usize = 0;
    while j < diffs.len()
        invariant
            j <= diffs@.len(),
            diffs_view(diffs@) == all,
            str_list(labels@) == relevant_labels(all.subrange(0, j as int), pkg@),
            relevant == some_relevant(all.subrange(0, j as int)),
        decreases diffs@.len() - j,
    {
        let d = &diffs[j];
        let rel = match d.change_type {
            ChangeType::Added | ChangeType::Removed => true,
            ChangeType::Modified => any_classpath_relevant(&d.field_changes),
            ChangeType::Unchanged => false,
        };
        proof {
            let t = all.subrange(0, j + 1);
            assert(t.drop_last() =~= all.subrange(0, j as int));
            assert(t.last() == d@);
        }
        if rel {
            proof {
                reveal_strlit(":");
                assert(":"@ =~= seq![':']);
            }
            let l = concat3(pkg.as_str(), ":", d.rule_name.as_str());
            let ghost before_l = labels@;
            labels.push(l);
            proof {
                lemma_str_list_push(before_l, l);
                assert(diff_relevant(d@));
                assert(l@ == pkg@ + seq![':'] + d@.rule_name);
            }
            relevant = true;
        }
        j = j + 1;
    }
    proof {
        assert(all.subrange(0, diffs@.len() as int) =~= all);
    }
    ChangeResult {
        file_path: after.path.clone(),
        rule_diffs: diffs,
        affected_labels: labels,
        is_classpath_relevant: relevant,
    }
}

/// Whether some attribute change affects the classpath.
fn any_classpath_relevant(fc: &Vec<FieldChange>) -> (b: bool)
    ensures
        b == any_relevant(fc@),
{
    let mut r = false;
    let mut k: usize = 0;
    while k < fc.len()
        invariant
            k <= fc@.len(),
            r == any_relevant(fc@.subrange(0, k as int)),
        decreases fc@.len() - k,
    {
        proof {
            let t = fc@.subrange(0, k + 1);
            assert(t.drop_last() =~= fc@.subrange(0, k as int));
        }
        if fc[k].is_classpath_relevant() {
            r = true;
        }
        k = k + 1;
    }
    proof {
        assert(fc@.subrange(0, fc@.len() as int) =~= fc@);
    }
    r
}

/// Some path of the list equals `p`.
pub open spec fn path_in(l: Seq<Seq<char>>, p: Seq<char>) -> bool
    decreases l.len(),
{
    l.len() > 0 && (path_in(l.drop_last(), p) || paths_equal(l.last(), p))
}

/// The paths of `l` that are not in `others`, in order.
pub open spec fn paths_not_in(l: Seq<Seq<char>>, others: Seq<Seq<char>>) -> Seq<Seq<char>>
    decreases l.len(),
{
    if l.len() == 0 {
        Seq::empty()
    } else {
        let r = paths_not_in(l.drop_last(), others);
        if path_in(others, l.last()) {
            r
        } else {
            r.push(l.last())
        }
    }
}

fn contains_path(l: &[String], p: &str) -> (b: bool)
    ensures
        b == path_in(str_list(l@), p@),
{
    let mut r = false;
    let mut k: usize = 0;
    while k < l.len()
        invariant
            k <= l@.len(),
            r == path_in(str_list(l@).subrange(0, k as int), p@),
        decreases l@.len() - k,
    {
        proof {
            let t = str_list(l@).subrange(0, k + 1);
            assert(t.drop_last() =~= str_list(l@).subrange(0, k as int));
            assert(t.last() == l@[k as int]@);
        }
        if same_path(l[k].as_str(), p) {
            r = true;
        }
        k = k + 1;
    }
    proof {
        assert(str_list(l@).subrange(0, l@.len() as int) =~= str_list(l@));
    }
    r
}

fn keep_missing(l: &[String], others: &[String]) -> (r: Vec<String>)
    ensures
        str_list(r@) == paths_not_in(str_list(l@), str_list(others@)),
{
    let mut r: Vec<String> = Vec::new();
    let mut k: usize = 0;
    while k < l.len()
        invariant
            k <= l@.len(),
            str_list(r@) == paths_not_in(str_list(l@).subrange(0, k as int), str_list(others@)),
        decreases l@.len() - k,
    {
        proof {
            let t = str_list(l@).subrange(0, k + 1);
            assert(t.drop_last() =~= str_list(l@).subrange(0, k as int));
            assert(t.last() == l@[k as int]@);
        }
        if !contains_path(others, l[k].as_str()) {
            let ghost before = r@;
            let x = l[k].clone();
            r.push(x);
            proof {
                lemma_str_list_push(before, x);
            }
        }
        k = k + 1;
    }
    proof {
        assert(str_list(l@).subrange(0, l@.len() as int) =~= str_list(l@));
    }
    r
}

/// The files added and removed between two snapshots of file paths, each
/// in the order of its snapshot.
pub fn detect_added_removed_files(before_files: &[String], after_files: &[String]) -> (r: (Vec<String>, Vec<String>))
    ensures
        str_list(r.0@) == paths_not_in(str_list(after_files@), str_list(before_files@)),
        str_list(r.1@) == paths_not_in(str_list(before_files@), str_list(after_files@)),
{
    let added = keep_missing(after_files, before_files);
    let removed = keep_missing(before_files, after_files);
    (added, removed)
}

/// What the cache held for a BUILD file's hash.
#[derive(Debug, Clone)]
pub enum HashLookup {
    Found(String),
    Missing,
    Failed(String),
}

/// A BUILD file with the hash of its content and what the cache held.
#[derive(Debug, Clone)]
pub struct BuildFileHash {
    pub path: String,
    pub current_hash: String,
    pub cached: HashLookup,
}

/// Abstract cached hash: `Some(Some(h))` found, `Some(None)` missing,
/// `None` when the lookup failed.
pub open spec fn lookup_view(l: HashLookup) -> Option<Option<Seq<char>>> {
    match l {
        HashLookup::Found(h) => Some(Some(h@)),
        HashLookup::Missing => Some(None),
        HashLookup::Failed(_) => None,
    }
}

/// Abstract BUILD file state.
pub open spec fn file_hash_view(f: BuildFileHash) -> (Seq<char>, Seq<char>, Option<Option<Seq<char>>>) {
    (f.path@, f.current_hash@, lookup_view(f.cached))
}

/// The views of BUILD file states.
pub open spec fn file_hashes_view(v: Seq<BuildFileHash>) -> Seq<(Seq<char>, Seq<char>, Option<Option<Seq<char>>>)> {
    v.map_values(|f: BuildFileHash| file_hash_view(f))
}

/// The changes found in a workspace.
#[derive(Debug, Clone)]
pub struct WorkspaceChangeScan {
    /// BUILD files whose hash differs from the cached one.
    pub changed_files: Vec<String>,
    /// BUILD files the cache has no hash for.
    pub new_files: Vec<String>,
    /// BUILD files the cache knows but the disk no longer has.
    pub deleted_files: Vec<String>,
    /// The packages of the changed and new files.
    pub affected_labels: Vec<String>,
}

/// Scanning BUILD files in order: a file whose cached hash differs is
/// changed, one without a cached hash is new; both affect their package
/// and get their current hash written; a failed lookup is skipped.  The
/// state is (changed, new, affected, hashes to write).
pub open spec fn scan_of(
    fs: Seq<(Seq<char>, Seq<char>, Option<Option<Seq<char>>>)>,
    ws: Seq<char>,
) -> (Seq<Seq<char>>, Seq<Seq<char>>, Seq<Seq<char>>, Seq<(Seq<char>, Seq<char>)>)
    decreases fs.len(),
{
    if fs.len() == 0 {
        (Seq::empty(), Seq::empty(), Seq::empty(), Seq::empty())
    } else {
        let s = scan_of(fs.drop_last(), ws);
        let (p, h, c) = fs.last();
        let pkg = spec_build_file_package_label(p, ws);
        match c {
            Some(Some(old)) => if old != h {
                (s.0.push(p), s.1, s.2.push(pkg), s.3.push((p, h)))
            } else {
                s
            },
            Some(None) => (s.0, s.1.push(p), s.2.push(pkg), s.3.push((p, h))),
            None => s,
        }
    }
}

/// The paths of the BUILD files found.
pub open spec fn found_paths(fs: Seq<(Seq<char>, Seq<char>, Option<Option<Seq<char>>>)>) -> Seq<Seq<char>> {
    fs.map_values(|f: (Seq<char>, Seq<char>, Option<Option<Seq<char>>>)| f.0)
}

/// The cached BUILD files under the workspace root that were not found, in
/// the order of the cache.
pub open spec fn deleted_of(cached: Seq<Seq<char>>, found: Seq<Seq<char>>, ws: Seq<char>) -> Seq<Seq<char>>
    decreases cached.len(),
{
    if cached.len() == 0 {
        Seq::empty()
    } else {
        let d = deleted_of(cached.drop_last(), found, ws);
        let p = cached.last();
        if seq_starts_with(p, ws) && !found.contains(p) {
            d.push(p)
        } else {
            d
        }
    }
}

/// Whether one of the found BUILD files has path `p`.
fn path_found(files: &[BuildFileHash], p: &str) -> (b: bool)
    ensures
        b == found_paths(file_hashes_view(files@)).contains(p@),
{
    let ghost fp = found_paths(file_hashes_view(files@));
    let mut k: usize = 0;
    while k < files.len()
        invariant
            k <= files@.len(),
            fp == found_paths(file_hashes_view(files@)),
            fp.len() == files@.len(),
            forall|j: int| 0 <= j < k ==> fp[j] != p@,
        decreases files@.len() - k,
    {
        assert(fp[k as int] == files@[k as int].path@);
        if str_eq(files[k].path.as_str(), p) {
            return true;
        }
        k = k + 1;
    }
    false
}

/// Classifies the BUILD files of a workspace against the cached hashes;
/// `cached_paths` are the BUILD files the cache holds a hash for.  Returns
/// the scan and the hashes to write back to the cache.
pub fn scan_workspace_changes(workspace_root: &str, files: &[BuildFileHash], cached_paths: &[String]) -> (r: (WorkspaceChangeScan, Vec<(String, String)>))
    ensures
        str_list(r.0.changed_files@) == scan_of(file_hashes_view(files@), workspace_root@).0,
        str_list(r.0.new_files@) == scan_of(file_hashes_view(files@), workspace_root@).1,
        str_list(r.0.deleted_files@) == deleted_of(str_list(cached_paths@), found_paths(file_hashes_view(files@)), workspace_root@),
        str_list(r.0.affected_labels@) == scan_of(file_hashes_view(files@), workspace_root@).2,
        crate::graph::str_pairs(r.1@) == scan_of(file_hashes_view(files@), workspace_root@).3,
{
    let ghost fv = file_hashes_view(files@);
    let mut changed: Vec<String> = Vec::new();
    let mut new: Vec<String> = Vec::new();
    let mut affected: Vec<String> = Vec::new();
    let mut writes: Vec<(String, String)> = Vec::new();
    let mut k: usize = 0;
    while k < files.len()
        invariant
            k <= files@.len(),
            fv == file_hashes_view(files@),
            str_list(changed@) == scan_of(fv.subrange(0, k as int), workspace_root@).0,
            str_list(new@) == scan_of(fv.subrange(0, k as int), workspace_root@).1,
            str_list(affected@) == scan_of(fv.subrange(0, k as int), workspace_root@).2,
            crate::graph::str_pairs(writes@) == scan_of(fv.subrange(0, k as int), workspace_root@).3,
        decreases files@.len() - k,
    {
        let f = &files[k];
        proof {
            let t = fv.subrange(0, k + 1);
            assert(t.drop_last() =~= fv.subrange(0, k as int));
            assert(t.last() == file_hash_view(*f));
        }
        let fresh = match &f.cached {
            HashLookup::Found(h) => Some(!str_eq(h.as_str(), f.current_hash.as_str())),
            HashLookup::Missing => Some(true),
            HashLookup::Failed(_) => None,
        };
        match fresh {
            Some(true) => {
                let pkg = compute_build_file_package_label(f.path.as_str(), workspace_root);
                let ghost b0 = affected@;
                affected.push(pkg);
                let ghost b1 = writes@;
                writes.push((f.path.clone(), f.current_hash.clone()));
                proof {
                    lemma_str_list_push(b0, pkg);
                    assert(crate::graph::str_pairs(writes@) =~= crate::graph::str_pairs(b1).push((f.path@, f.current_hash@)));
                }
                if matches!(f.cached, HashLookup::Missing) {
                    let ghost b2 = new@;
                    let p = f.path.clone();
                    new.push(p);
                    proof {
                        lemma_str_list_push(b2, p);
                    }
                } else {
                    let ghost b2 = changed@;
                    let p = f.path.clone();
                    changed.push(p);
                    proof {
                        lemma_str_list_push(b2, p);
                    }
                }
            },
            _ => {},
        }
        k = k + 1;
    }
    proof {
        assert(fv.subrange(0, files@.len() as int) =~= fv);
    }
    let ghost cv = str_list(cached_paths@);
    let ghost fp = found_paths(fv);
    let mut deleted: Vec<String> = Vec::new();
    let mut k: usize = 0;
    while k < cached_paths.len()
        invariant
            k <= cached_paths@.len(),
            cv == str_list(cached_paths@),
            fv == file_hashes_view(files@),
            fp == found_paths(fv),
            str_list(deleted@) == deleted_of(cv.subrange(0, k as int), fp, workspace_root@),
        decreases cached_paths@.len() - k,
    {
        proof {
            assert(cv.subrange(0, k + 1).drop_last() =~= cv.subrange(0, k as int));
            assert(cv.subrange(0, k + 1).last() == cached_paths@[k as int]@);
        }
        let p = cached_paths[k].as_str();
        if str_starts_with(p, workspace_root) && !path_found(files, p) {
            let q = owned(p);
            proof {
                lemma_str_list_push(deleted@, q);
            }
            deleted.push(q);
        }
        k = k + 1;
    }
    proof {
        assert(cv.subrange(0, cached_paths@.len() as int) =~= cv);
    }
    (WorkspaceChangeScan { changed_files: changed, new_files: new, deleted_files: deleted, affected_labels: affected }, writes)
}

/// Directories a BUILD file search does not enter: hidden ones and
/// Bazel's output links.
pub open spec fn spec_skipped_dir(name: Seq<char>) -> bool {
    (name.len() > 0 && name[0] == '.') || name == "bazel-out"@ || name == "bazel-bin"@ || name == "bazel-testlogs"@
}

/// Whether a BUILD file search skips a directory of that name.
pub fn skip_dir_name(name: &str) -> (b: bool)
    ensures
        b == spec_skipped_dir(name@),
{
    let c = chars_of(name);
    (c.len() > 0 && c[0] == '.') || str_eq(name, "bazel-out") || str_eq(name, "bazel-bin") || str_eq(name, "bazel-testlogs")
}

/// The names of Bazel BUILD and WORKSPACE files.
pub open spec fn spec_build_file_name(name: Seq<char>) -> bool {
    name == "BUILD"@ || name == "BUILD.bazel"@ || name == "WORKSPACE"@ || name == "WORKSPACE.bazel"@
}

/// Whether a file name is that of a BUILD or WORKSPACE file.
pub fn is_build_file_name(name: &str) -> (b: bool)
    ensures
        b == spec_build_file_name(name@),
{
    str_eq(name, "BUILD") || str_eq(name, "BUILD.bazel") || str_eq(name, "WORKSPACE") || str_eq(name, "WORKSPACE.bazel")
}

/// The trimmed lines naming BUILD or WORKSPACE files, joined to the
/// workspace root.
pub open spec fn build_files_in(ls: Seq<Seq<char>>, ws: Seq<char>) -> Seq<Seq<char>>
    decreases ls.len(),
{
    if ls.len() == 0 {
        Seq::empty()
    } else {
        let r = build_files_in(ls.drop_last(), ws);
        let t = trim_ws(ls.last());
        if path_file_name_of(t) matches Some(n) && spec_build_file_name(n) {
            r.push(path_join_of(ws, t))
        } else {
            r
        }
    }
}

/// The BUILD and WORKSPACE files among the paths `git diff --name-only`
/// printed, as paths under the workspace root.
pub fn git_changed_build_files(stdout: &str, workspace_root: &str) -> (r: Vec<String>)
    ensures
        str_list(r@) == build_files_in(str_lines(stdout@), workspace_root@),
{
    let ls = lines_of(stdout);
    let ghost all = str_list(ls@);
    let mut r: Vec<String> = Vec::new();
    let mut k: usize = 0;
    while k < ls.len()
        invariant
            k <= ls@.len(),
            all == str_list(ls@),
            str_list(r@) == build_files_in(all.subrange(0, k as int), workspace_root@),
        decreases ls@.len() - k,
    {
        let t = trim_str(ls[k].as_str());
        proof {
            let s = all.subrange(0, k + 1);
            assert(s.drop_last() =~= all.subrange(0, k as int));
            assert(s.last() == ls@[k as int]@);
        }
        let keep = match path_file_name(t.as_str()) {
            Some(n) => is_build_file_name(n.as_str()),
            None => false,
        };
        if keep {
            let p = path_join(workspace_root, t.as_str());
            let ghost before = r@;
            r.push(p);
            proof {
                lemma_str_list_push(before, p);
            }
        }
        k = k + 1;
    }
    proof {
        assert(all.subrange(0, ls@.len() as int) =~= all);
    }
    r
}

proof fn lemma_no_gone_names(names: Seq<Seq<char>>, rs: Seq<JavaRuleView>)
    requires
        forall|i: int| 0 <= i < names.len() ==> #[trigger] last_named(rs, names[i]) is Some,
    ensures
        gone_names(names, rs).len() == 0,
    decreases names.len(),
{
    if names.len() > 0 {
        assert(last_named(rs, names[names.len() - 1]) is Some);
        assert forall|i: int| 0 <= i < names.drop_last().len() implies #[trigger] last_named(rs, names.drop_last()[i]) is Some by {
            assert(names.drop_last()[i] == names[i]);
        }
        lemma_no_gone_names(names.drop_last(), rs);
    }
}

proof fn lemma_unchanged_not_relevant(ds: Seq<RuleDiffView>, pkg: Seq<char>)
    requires
        forall|i: int| 0 <= i < ds.len() ==> (#[trigger] ds[i]).change_type == ChangeType::Unchanged,
    ensures
        !some_relevant(ds),
        relevant_labels(ds, pkg).len() == 0,
    decreases ds.len(),
{
    if ds.len() > 0 {
        assert(ds[ds.len() - 1].change_type == ChangeType::Unchanged);
        assert forall|i: int| 0 <= i < ds.drop_last().len() implies (#[trigger] ds.drop_last()[i]).change_type
            == ChangeType::Unchanged by {
            assert(ds.drop_last()[i] == ds[i]);
        }
        lemma_unchanged_not_relevant(ds.drop_last(), pkg);
    }
}

/// Comparing a BUILD file with itself finds every rule unchanged, nothing
/// to resolve again, and no classpath-relevant change.
pub proof fn law_unchanged_file_has_no_changes(rs: Seq<JavaRuleView>, pkg: Seq<char>)
    ensures
        forall|i: int| 0 <= i < spec_rule_diffs(rs, rs).len() ==> (#[trigger] spec_rule_diffs(rs, rs)[i]).change_type
            == ChangeType::Unchanged,
        relevant_labels(spec_rule_diffs(rs, rs), pkg).len() == 0,
        !some_relevant(spec_rule_diffs(rs, rs)),
{
    let names = distinct_names(rs);
    assert forall|i: int| 0 <= i < names.len() implies #[trigger] last_named(rs, names[i]) is Some by {
        assert(names.contains(names[i]));
        lemma_distinct_named(rs, names[i]);
    }
    lemma_no_gone_names(names, rs);
    let ds = spec_rule_diffs(rs, rs);
    assert(gone_names(names, rs).map_values(|n: Seq<char>| removed_diff(n, rs)).len() == 0);
    assert forall|i: int| 0 <= i < ds.len() implies (#[trigger] ds[i]).change_type == ChangeType::Unchanged by {
        let n = names[i];
        assert(last_named(rs, n) is Some);
        let a = last_named(rs, n).unwrap();
        assert(spec_field_changes(a, a) =~= Seq::<FieldChange>::empty());
        assert(ds[i] == after_diff(n, rs, rs));
    }
    lemma_unchanged_not_relevant(ds, pkg);
}

/// No added file was in the earlier snapshot, and no removed file is in
/// the later one.
pub proof fn law_added_removed_are_new_and_gone(before: Seq<Seq<char>>, after: Seq<Seq<char>>)
    ensures
        forall|i: int| 0 <= i < paths_not_in(after, before).len() ==> !path_in(before, #[trigger] paths_not_in(after, before)[i]),
        forall|i: int| 0 <= i < paths_not_in(before, after).len() ==> !path_in(after, #[trigger] paths_not_in(before, after)[i]),
{
    lemma_not_in(after, before);
    lemma_not_in(before, after);
}

proof fn lemma_not_in(l: Seq<Seq<char>>, others: Seq<Seq<char>>)
    ensures
        forall|i: int| 0 <= i < paths_not_in(l, others).len() ==> !path_in(others, #[trigger] paths_not_in(l, others)[i]),
    decreases l.len(),
{
    if l.len() > 0 {
        lemma_not_in(l.drop_last(), others);
        let r = paths_not_in(l.drop_last(), others);
        let t = paths_not_in(l, others);
        assert forall|i: int| 0 <= i < t.len() implies !path_in(others, #[trigger] t[i]) by {
            if i < r.len() {
                assert(t[i] == r[i]);
            }
        }
    }
}

/// Each attribute change is reported exactly when that attribute differs
/// between the two versions of the rule, once, in the order deps, srcs,
/// runtime_deps, resources, plugins, exports, visibility, testonly: no
/// change is reported for equal rules, and every difference is reported.
pub proof fn law_field_changes_are_the_differing_attributes(b: JavaRuleView, a: JavaRuleView)
    ensures
        spec_field_changes(b, a).contains(FieldChange::DepsChanged) <==> b.deps != a.deps,
        spec_field_changes(b, a).contains(FieldChange::SrcsChanged) <==> b.srcs != a.srcs,
        spec_field_changes(b, a).contains(FieldChange::RuntimeDepsChanged) <==> b.runtime_deps != a.runtime_deps,
        spec_field_changes(b, a).contains(FieldChange::ResourcesChanged) <==> b.resources != a.resources,
        spec_field_changes(b, a).contains(FieldChange::PluginsChanged) <==> b.plugins != a.plugins,
        spec_field_changes(b, a).contains(FieldChange::ExportsChanged) <==> b.exports != a.exports,
        spec_field_changes(b, a).contains(FieldChange::VisibilityChanged) <==> b.visibility != a.visibility,
        spec_field_changes(b, a).contains(FieldChange::TestOnlyChanged) <==> b.test_only != a.test_only,
        spec_field_changes(b, a).no_duplicates(),
        forall|i: int, j: int|
            0 <= i < j < spec_field_changes(b, a).len() ==> change_rank(#[trigger] spec_field_changes(b, a)[i]) < change_rank(
                #[trigger] spec_field_changes(b, a)[j],
            ),
{
    broadcast use vstd::seq_lib::lemma_seq_contains_after_push;
    let fc = spec_field_changes(b, a);
    assert forall|i: int, j: int| 0 <= i < j < fc.len() implies change_rank(#[trigger] fc[i]) < change_rank(#[trigger] fc[j]) by {
        lemma_changes_ordered(b, a, i, j);
    }
}

/// The rank of an attribute change in the reporting order.
pub open spec fn change_rank(f: FieldChange) -> int {
    match f {
        FieldChange::DepsChanged => 0,
        FieldChange::SrcsChanged => 1,
        FieldChange::RuntimeDepsChanged => 2,
        FieldChange::ResourcesChanged => 3,
        FieldChange::PluginsChanged => 4,
        FieldChange::ExportsChanged => 5,
        FieldChange::VisibilityChanged => 6,
        FieldChange::TestOnlyChanged => 7,
    }
}

/// Attribute changes are reported in a fixed order, so an earlier one
/// ranks lower.
proof fn lemma_changes_ordered(b: JavaRuleView, a: JavaRuleView, i: int, j: int)
    requires
        0 <= i < j < spec_field_changes(b, a).len(),
    ensures
        change_rank(spec_field_changes(b, a)[i]) < change_rank(spec_field_changes(b, a)[j]),
{
    let s1 = if b.deps != a.deps { seq![FieldChange::DepsChanged] } else { Seq::empty() };
    let s2 = if b.srcs != a.srcs { s1.push(FieldChange::SrcsChanged) } else { s1 };
    let s3 = if b.runtime_deps != a.runtime_deps { s2.push(FieldChange::RuntimeDepsChanged) } else { s2 };
    let s4 = if b.resources != a.resources { s3.push(FieldChange::ResourcesChanged) } else { s3 };
    let s5 = if b.plugins != a.plugins { s4.push(FieldChange::PluginsChanged) } else { s4 };
    let s6 = if b.exports != a.exports { s5.push(FieldChange::ExportsChanged) } else { s5 };
    let s7 = if b.visibility != a.visibility { s6.push(FieldChange::VisibilityChanged) } else { s6 };
    assert(forall|k: int| 0 <= k < s1.len() ==> change_rank(#[trigger] s1[k]) < 1);
    assert(forall|k: int| 0 <= k < s2.len() ==> change_rank(#[trigger] s2[k]) < 2);
    assert(forall|k: int| 0 <= k < s3.len() ==> change_rank(#[trigger] s3[k]) < 3);
    assert(forall|k: int| 0 <= k < s4.len() ==> change_rank(#[trigger] s4[k]) < 4);
    assert(forall|k: int| 0 <= k < s5.len() ==> change_rank(#[trigger] s5[k]) < 5);
    assert(forall|k: int| 0 <= k < s6.len() ==> change_rank(#[trigger] s6[k]) < 6);
    assert(forall|k: int| 0 <= k < s7.len() ==> change_rank(#[trigger] s7[k]) < 7);
    assert(forall|x: int, y: int| 0 <= x < y < s1.len() ==> change_rank(#[trigger] s1[x]) < change_rank(#[trigger] s1[y]));
    assert(forall|x: int, y: int| 0 <= x < y < s2.len() ==> change_rank(#[trigger] s2[x]) < change_rank(#[trigger] s2[y]));
    assert(forall|x: int, y: int| 0 <= x < y < s3.len() ==> change_rank(#[trigger] s3[x]) < change_rank(#[trigger] s3[y]));
    assert(forall|x: int, y: int| 0 <= x < y < s4.len() ==> change_rank(#[trigger] s4[x]) < change_rank(#[trigger] s4[y]));
    assert(forall|x: int, y: int| 0 <= x < y < s5.len() ==> change_rank(#[trigger] s5[x]) < change_rank(#[trigger] s5[y]));
    assert(forall|x: int, y: int| 0 <= x < y < s6.len() ==> change_rank(#[trigger] s6[x]) < change_rank(#[trigger] s6[y]));
    assert(forall|x: int, y: int| 0 <= x < y < s7.len() ==> change_rank(#[trigger] s7[x]) < change_rank(#[trigger] s7[y]));
}

/// A rule kept across an edit with a classpath-relevant attribute
/// (deps, srcs, runtime_deps, plugins or exports) that differs is
/// reported modified with exactly the differing attributes, its label is
/// among the labels to resolve again, and the edit is classpath-relevant.
pub proof fn law_relevant_difference_is_reported(bs: Seq<JavaRuleView>, as_: Seq<JavaRuleView>, n: Seq<char>, pkg: Seq<char>)
    requires
        last_named(bs, n) is Some,
        last_named(as_, n) is Some,
        ({
            let b = last_named(bs, n).unwrap();
            let a = last_named(as_, n).unwrap();
            b.deps != a.deps || b.srcs != a.srcs || b.runtime_deps != a.runtime_deps || b.plugins != a.plugins
                || b.exports != a.exports
        }),
    ensures
        exists|i: int|
            0 <= i < spec_rule_diffs(bs, as_).len() && (#[trigger] spec_rule_diffs(bs, as_)[i]).rule_name == n
                && spec_rule_diffs(bs, as_)[i].change_type == ChangeType::Modified
                && spec_rule_diffs(bs, as_)[i].field_changes == spec_field_changes(
                last_named(bs, n).unwrap(),
                last_named(as_, n).unwrap(),
            ),
        relevant_labels(spec_rule_diffs(bs, as_), pkg).contains(pkg + seq![':'] + n),
        some_relevant(spec_rule_diffs(bs, as_)),
{
    broadcast use vstd::seq_lib::lemma_seq_contains_after_push;
    let b = last_named(bs, n).unwrap();
    let a = last_named(as_, n).unwrap();
    let fc = spec_field_changes(b, a);
    law_field_changes_are_the_differing_attributes(b, a);
    let f = if b.deps != a.deps {
        FieldChange::DepsChanged
    } else if b.srcs != a.srcs {
        FieldChange::SrcsChanged
    } else if b.runtime_deps != a.runtime_deps {
        FieldChange::RuntimeDepsChanged
    } else if b.plugins != a.plugins {
        FieldChange::PluginsChanged
    } else {
        FieldChange::ExportsChanged
    };
    assert(fc.contains(f));
    let k = choose|k: int| 0 <= k < fc.len() && fc[k] == f;
    lemma_any_relevant(fc, k);
    lemma_named_listed(as_, n);
    let names = distinct_names(as_);
    let i = choose|i: int| 0 <= i < names.len() && names[i] == n;
    let ds = spec_rule_diffs(bs, as_);
    assert(ds[i] == after_diff(n, bs, as_));
    assert(diff_relevant(ds[i]));
    lemma_relevant_reported(ds, pkg, i);
}

/// A named rule's name is among the distinct names.
proof fn lemma_named_listed(rs: Seq<JavaRuleView>, n: Seq<char>)
    requires
        last_named(rs, n) is Some,
    ensures
        distinct_names(rs).contains(n),
    decreases rs.len(),
{
    broadcast use vstd::seq_lib::lemma_seq_contains_after_push;
    if rs.last().name != n {
        lemma_named_listed(rs.drop_last(), n);
    }
}

/// A relevant attribute change makes the changes relevant.
proof fn lemma_any_relevant(fc: Seq<FieldChange>, k: int)
    requires
        0 <= k < fc.len(),
        spec_classpath_relevant(fc[k]),
    ensures
        any_relevant(fc),
    decreases fc.len(),
{
    if k < fc.len() - 1 {
        assert(fc.drop_last()[k] == fc[k]);
        lemma_any_relevant(fc.drop_last(), k);
    }
}

/// A relevant rule change has its label among the labels to resolve
/// again, and makes the edit relevant.
proof fn lemma_relevant_reported(ds: Seq<RuleDiffView>, pkg: Seq<char>, i: int)
    requires
        0 <= i < ds.len(),
        diff_relevant(ds[i]),
    ensures
        relevant_labels(ds, pkg).contains(pkg + seq![':'] + ds[i].rule_name),
        some_relevant(ds),
    decreases ds.len(),
{
    broadcast use vstd::seq_lib::lemma_seq_contains_after_push;
    if i < ds.len() - 1 {
        assert(ds.drop_last()[i] == ds[i]);
        lemma_relevant_reported(ds.drop_last(), pkg, i);
    }
}

/// A rule only the later version has is reported added, and one only
/// the earlier version has is reported removed; either way its label is
/// among the labels to resolve again and the edit is classpath-relevant.
/// A rule in both versions with no attribute difference is reported
/// unchanged.
pub proof fn law_added_and_removed_rules_are_reported(bs: Seq<JavaRuleView>, as_: Seq<JavaRuleView>, n: Seq<char>, pkg: Seq<char>)
    ensures
        (last_named(as_, n) is Some && last_named(bs, n) is None) ==> exists|i: int|
            0 <= i < spec_rule_diffs(bs, as_).len() && (#[trigger] spec_rule_diffs(bs, as_)[i]).rule_name == n
                && spec_rule_diffs(bs, as_)[i].change_type == ChangeType::Added,
        (last_named(bs, n) is Some && last_named(as_, n) is None) ==> exists|i: int|
            0 <= i < spec_rule_diffs(bs, as_).len() && (#[trigger] spec_rule_diffs(bs, as_)[i]).rule_name == n
                && spec_rule_diffs(bs, as_)[i].change_type == ChangeType::Removed,
        (last_named(as_, n) is Some) != (last_named(bs, n) is Some) ==> relevant_labels(spec_rule_diffs(bs, as_), pkg).contains(
            pkg + seq![':'] + n,
        ) && some_relevant(spec_rule_diffs(bs, as_)),
        (last_named(as_, n) is Some && last_named(bs, n) is Some && last_named(as_, n) == last_named(bs, n))
            ==> exists|i: int|
            0 <= i < spec_rule_diffs(bs, as_).len() && (#[trigger] spec_rule_diffs(bs, as_)[i]).rule_name == n
                && spec_rule_diffs(bs, as_)[i].change_type == ChangeType::Unchanged,
{
    let ds = spec_rule_diffs(bs, as_);
    let na = distinct_names(as_);
    let firsts = na.map_values(|x: Seq<char>| after_diff(x, bs, as_));
    if last_named(as_, n) is Some {
        lemma_named_listed(as_, n);
        let i = choose|i: int| 0 <= i < na.len() && na[i] == n;
        assert(ds[i] == after_diff(n, bs, as_));
        if last_named(bs, n) is None {
            lemma_relevant_reported(ds, pkg, i);
        } else if last_named(as_, n) == last_named(bs, n) {
            let a = last_named(as_, n).unwrap();
            assert(spec_field_changes(a, a) =~= Seq::<FieldChange>::empty());
        }
    } else if last_named(bs, n) is Some {
        lemma_named_listed(bs, n);
        let nb = distinct_names(bs);
        let k = choose|k: int| 0 <= k < nb.len() && nb[k] == n;
        lemma_gone_listed(nb, as_, k);
        let g = gone_names(nb, as_);
        let j = choose|j: int| 0 <= j < g.len() && g[j] == n;
        assert(ds[firsts.len() + j] == removed_diff(n, bs));
        lemma_relevant_reported(ds, pkg, firsts.len() + j);
    }
}

/// A listed name no rule has after the edit is among the gone names.
proof fn lemma_gone_listed(names: Seq<Seq<char>>, as_: Seq<JavaRuleView>, k: int)
    requires
        0 <= k < names.len(),
        last_named(as_, names[k]) is None,
    ensures
        gone_names(names, as_).contains(names[k]),
    decreases names.len(),
{
    broadcast use vstd::seq_lib::lemma_seq_contains_after_push;
    if k < names.len() - 1 {
        assert(names.drop_last()[k] == names[k]);
        lemma_gone_listed(names.drop_last(), as_, k);
    }
}

} // verus!
