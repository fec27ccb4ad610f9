//! Classpath computation for a target from the dependency graph, and its
//! pipe-delimited form handed to the IDE.
use vstd::prelude::*;
use vstd::string::StringExecFns;
use crate::graph::{
    deps_error, is_dep_list, join_with, spec_get_jars, spec_has_target, str_list, DependencyGraph,
    GraphError, GraphView, ResolvedJar, ResolvedJarView,
};
use crate::jars::{inferred_source, is_effective, label_package_dir, spec_effective_path};
use crate::labels::spec_is_bazel_internal;
use crate::strutil::seq_starts_with;
use crate::ide_info::opt_view;
use crate::strutil::{owned, push_char, str_eq};

verus! {

/// Kind of Bazel Java target for classpath computation.
#[derive(Debug, Clone, Copy, PartialEq, Eq, Structural)]
pub enum TargetKind {
    JavaLibrary,
    JavaBinary,
    JavaTest,
    JavaImport,
    Unknown,
}

impl Default for TargetKind {
    fn default() -> (k: Self)
        ensures
            k == TargetKind::Unknown,
    {
        TargetKind::Unknown
    }
}

/// Type of classpath entry.
#[derive(Debug, Clone, Copy, PartialEq, Eq, Structural, Hash)]
pub enum ClasspathEntryType {
    Library,
    Project,
    Source,
}

/// Visibility level for a classpath entry.
#[derive(Debug, Clone)]
pub enum Visibility {
    Public,
    Private,
    PackagePrivate(Vec<String>),
}

impl Default for Visibility {
    fn default() -> (v: Self)
        ensures
            v is Public,
    {
        Visibility::Public
    }
}

/// Access rule for classpath visibility.
#[derive(Debug, Clone)]
pub struct AccessRule {
    pub pattern: String,
    pub is_accessible: bool,
}

/// A single entry of a computed classpath.
#[derive(Debug, Clone)]
pub struct ClasspathEntry {
    pub entry_type: ClasspathEntryType,
    pub path: String,
    pub source_attachment_path: Option<String>,
    pub is_test: bool,
    pub is_exported: bool,
    pub access_rules: Vec<AccessRule>,
    pub visibility: Visibility,
}

/// A JAR found more than once among the library entries.
#[derive(Debug, Clone)]
pub struct JarConflict {
    pub jar_path: String,
    pub occurrences: usize,
}

/// The computed classpath of a target.
#[derive(Debug, Clone)]
pub struct ComputedClasspath {
    pub target_label: String,
    pub entries: Vec<ClasspathEntry>,
    pub source_roots: Vec<String>,
    pub generated_source_dirs: Vec<String>,
    pub annotation_processors: Vec<String>,
    pub output_jars: Vec<String>,
}

pub struct AccessRuleView {
    pub pattern: Seq<char>,
    pub is_accessible: bool,
}

impl View for AccessRule {
    type V = AccessRuleView;

    open spec fn view(&self) -> AccessRuleView {
        AccessRuleView { pattern: self.pattern@, is_accessible: self.is_accessible }
    }
}

/// The views of access rules.
pub open spec fn rules_view(v: Seq<AccessRule>) -> Seq<AccessRuleView> {
    v.map_values(|x: AccessRule| x@)
}

/// The visibility of an entry, with the packages of a package-private one.
pub enum VisibilityView {
    Public,
    Private,
    PackagePrivate(Seq<Seq<char>>),
}

/// What a classpath entry says.
pub struct EntryView {
    pub entry_type: ClasspathEntryType,
    pub path: Seq<char>,
    pub source: Option<Seq<char>>,
    pub is_test: bool,
    pub is_exported: bool,
    pub access_rules: Seq<AccessRuleView>,
    pub visibility: VisibilityView,
}

impl View for ClasspathEntry {
    type V = EntryView;

    open spec fn view(&self) -> EntryView {
        EntryView {
            entry_type: self.entry_type,
            path: self.path@,
            source: opt_view(self.source_attachment_path),
            is_test: self.is_test,
            is_exported: self.is_exported,
            access_rules: rules_view(self.access_rules@),
            visibility: vis_view(self.visibility),
        }
    }
}

/// The views of entries.
pub open spec fn entries_view(v: Seq<ClasspathEntry>) -> Seq<EntryView> {
    v.map_values(|e: ClasspathEntry| e@)
}

/// The marker of an entry type in the pipe-delimited form.
pub open spec fn type_tag(t: ClasspathEntryType) -> Seq<char> {
    match t {
        ClasspathEntryType::Library => "LIB"@,
        ClasspathEntryType::Project => "PROJ"@,
        ClasspathEntryType::Source => "SRC"@,
    }
}

/// `true` or `false`.
pub open spec fn bool_text(b: bool) -> Seq<char> {
    if b {
        "true"@
    } else {
        "false"@
    }
}

/// An access rule as `+pattern` or `-pattern`.
pub open spec fn rule_text(r: AccessRuleView) -> Seq<char> {
    (if r.is_accessible {
        seq!['+']
    } else {
        seq!['-']
    }) + r.pattern
}

/// The access rules joined with `:`.
pub open spec fn rules_text(rs: Seq<AccessRuleView>) -> Seq<char> {
    join_with(rs.map_values(|r: AccessRuleView| rule_text(r)), seq![':'])
}

/// An entry as `TYPE|path|source|is_test|is_exported|access_rules`.
pub open spec fn entry_line(e: EntryView) -> Seq<char> {
    type_tag(e.entry_type) + seq!['|'] + e.path + seq!['|'] + (match e.source {
        Some(s) => s,
        None => Seq::empty(),
    }) + seq!['|'] + bool_text(e.is_test) + seq!['|'] + bool_text(e.is_exported) + seq!['|'] + rules_text(e.access_rules)
}

/// An output JAR as a library line without source attachment.
pub open spec fn output_jar_line(p: Seq<char>) -> Seq<char> {
    "LIB|"@ + p + "||false|false|"@
}

/// The lines of the output JARs that no entry already names, in order.
pub open spec fn output_lines(outs: Seq<Seq<char>>, paths: Seq<Seq<char>>) -> Seq<Seq<char>>
    decreases outs.len(),
{
    if outs.len() == 0 {
        Seq::empty()
    } else if paths.contains(outs.last()) {
        output_lines(outs.drop_last(), paths)
    } else {
        output_lines(outs.drop_last(), paths).push(output_jar_line(outs.last()))
    }
}

/// The pipe-delimited form: the output JARs not named by an entry first,
/// then every entry.
pub open spec fn pipe_lines(outs: Seq<Seq<char>>, es: Seq<EntryView>) -> Seq<Seq<char>> {
    output_lines(outs, es.map_values(|e: EntryView| e.path)) + es.map_values(|e: EntryView| entry_line(e))
}


/// The paths of the library entries, in order.
pub open spec fn lib_paths(es: Seq<EntryView>) -> Seq<Seq<char>>
    decreases es.len(),
{
    if es.len() == 0 {
        Seq::empty()
    } else if es.last().entry_type == ClasspathEntryType::Library {
        lib_paths(es.drop_last()).push(es.last().path)
    } else {
        lib_paths(es.drop_last())
    }
}

/// How often `p` occurs in `l`.
pub open spec fn count_of(l: Seq<Seq<char>>, p: Seq<char>) -> nat
    decreases l.len(),
{
    if l.len() == 0 {
        0
    } else {
        count_of(l.drop_last(), p) + if l.last() == p {
            1nat
        } else {
            0nat
        }
    }
}

/// The elements of `l`, each once, in order of first appearance.
pub open spec fn distinct(l: Seq<Seq<char>>) -> Seq<Seq<char>>
    decreases l.len(),
{
    if l.len() == 0 {
        Seq::empty()
    } else if distinct(l.drop_last()).contains(l.last()) {
        distinct(l.drop_last())
    } else {
        distinct(l.drop_last()).push(l.last())
    }
}

/// The JARs named by more than one library entry, each with its number of
/// entries, in order of first appearance.
pub open spec fn spec_conflicts(es: Seq<EntryView>) -> Seq<(Seq<char>, nat)> {
    conflicts_among(distinct(lib_paths(es)), lib_paths(es))
}

/// The paths of `d` occurring more than once in `l`, with their counts.
pub open spec fn conflicts_among(d: Seq<Seq<char>>, l: Seq<Seq<char>>) -> Seq<(Seq<char>, nat)>
    decreases d.len(),
{
    if d.len() == 0 {
        Seq::empty()
    } else if count_of(l, d.last()) > 1 {
        conflicts_among(d.drop_last(), l).push((d.last(), count_of(l, d.last())))
    } else {
        conflicts_among(d.drop_last(), l)
    }
}

/// The views of conflicts.
pub open spec fn conflicts_view(v: Seq<JarConflict>) -> Seq<(Seq<char>, nat)> {
    v.map_values(|c: JarConflict| (c.jar_path@, c.occurrences as nat))
}

/// Counting in a list with one more element.
pub proof fn lemma_count_push(l: Seq<Seq<char>>, x: Seq<char>, p: Seq<char>)
    ensures
        count_of(l.push(x), p) == count_of(l, p) + if x == p { 1nat } else { 0nat },
{
    assert(l.push(x).drop_last() =~= l);
}

/// An absent element is counted zero times.
pub proof fn lemma_count_zero(l: Seq<Seq<char>>, p: Seq<char>)
    requires
        !l.contains(p),
    ensures
        count_of(l, p) == 0,
    decreases l.len(),
{
    if l.len() > 0 {
        assert(!l.drop_last().contains(p)) by {
            if l.drop_last().contains(p) {
                let x = choose|x: int| 0 <= x < l.drop_last().len() && l.drop_last()[x] == p;
                assert(l[x] == p);
            }
        }
        lemma_count_zero(l.drop_last(), p);
        assert(l[l.len() - 1] != p);
    }
}

/// Counts are bounded by the length.
pub proof fn lemma_count_le(l: Seq<Seq<char>>, p: Seq<char>)
    ensures
        count_of(l, p) <= l.len(),
    decreases l.len(),
{
    if l.len() > 0 {
        lemma_count_le(l.drop_last(), p);
    }
}

/// Distinct elements are those of the list.
pub proof fn lemma_distinct_contains(l: Seq<Seq<char>>)
    ensures
        forall|x: Seq<char>| #[trigger] distinct(l).contains(x) <==> l.contains(x),
        distinct(l).no_duplicates(),
    decreases l.len(),
{
    if l.len() > 0 {
        let p = l.drop_last();
        lemma_distinct_contains(p);
        crate::assoc::lemma_contains_push(p, l.last());
        crate::assoc::lemma_contains_push(distinct(p), l.last());
        assert(l == p.push(l.last()));
        if !distinct(p).contains(l.last()) {
            let d = distinct(p).push(l.last());
            assert forall|a: int, b: int| 0 <= a < b < d.len() implies d[a] != d[b] by {
                if b == d.len() - 1 {
                    assert(distinct(p).contains(d[a]));
                }
            }
        }
    }
}


/// The JAR paths and source attachments found for one dependency of a
/// target: its label, whether it counts as a test dependency, and for each
/// of its JARs (when it has some) the path the JAR is used by and its
/// source attachment.
pub struct DepJars {
    pub label: String,
    pub is_test: bool,
    pub jars: Option<Vec<(String, Option<String>)>>,
}

pub struct DepJarsView {
    pub label: Seq<char>,
    pub is_test: bool,
    pub jars: Option<Seq<(Seq<char>, Option<Seq<char>>)>>,
}

/// The views of JAR uses.
pub open spec fn uses_view(v: Seq<(String, Option<String>)>) -> Seq<(Seq<char>, Option<Seq<char>>)> {
    v.map_values(|u: (String, Option<String>)| (u.0@, opt_view(u.1)))
}

impl View for DepJars {
    type V = DepJarsView;

    open spec fn view(&self) -> DepJarsView {
        DepJarsView {
            label: self.label@,
            is_test: self.is_test,
            jars: match self.jars {
                Some(v) => Some(uses_view(v@)),
                None => None,
            },
        }
    }
}

/// A library entry.
pub open spec fn lib_entry(path: Seq<char>, src: Option<Seq<char>>, is_test: bool) -> EntryView {
    EntryView {
        entry_type: ClasspathEntryType::Library,
        path,
        source: src,
        is_test,
        is_exported: false,
        access_rules: Seq::empty(),
        visibility: VisibilityView::Public,
    }
}

/// A project entry for a workspace target.
pub open spec fn proj_entry(label: Seq<char>, is_test: bool) -> EntryView {
    EntryView {
        entry_type: ClasspathEntryType::Project,
        path: label,
        source: None,
        is_test,
        is_exported: false,
        access_rules: Seq::empty(),
        visibility: VisibilityView::Public,
    }
}

/// The first library entry with the given path.
pub open spec fn lib_index(es: Seq<EntryView>, path: Seq<char>) -> Option<int> {
    if exists|i: int| 0 <= i < es.len() && es[i].entry_type == ClasspathEntryType::Library && es[i].path == path {
        Some(choose|i: int| 0 <= i < es.len() && es[i].entry_type == ClasspathEntryType::Library && es[i].path == path && forall|j: int| 0 <= j < i ==> !(es[j].entry_type == ClasspathEntryType::Library && es[j].path == path))
    } else {
        None
    }
}

/// Adding a JAR: a new library entry, or, for a JAR already listed, its
/// source attachment when the listed entry has none.
pub open spec fn add_lib(es: Seq<EntryView>, path: Seq<char>, src: Option<Seq<char>>, is_test: bool) -> Seq<EntryView> {
    match lib_index(es, path) {
        Some(i) => if es[i].source is None && src is Some {
            es.update(i, EntryView { source: src, ..es[i] })
        } else {
            es
        },
        None => es.push(lib_entry(path, src, is_test)),
    }
}

/// Adding the JARs of one dependency.
pub open spec fn add_libs(es: Seq<EntryView>, us: Seq<(Seq<char>, Option<Seq<char>>)>, is_test: bool) -> Seq<EntryView>
    decreases us.len(),
{
    if us.len() == 0 {
        es
    } else {
        add_lib(add_libs(es, us.drop_last(), is_test), us.last().0, us.last().1, is_test)
    }
}

/// Adding one dependency: nothing for Bazel-internal labels; a project
/// entry for workspace labels (not starting with `'@'`); then its JARs.
pub open spec fn add_dep_entries(es: Seq<EntryView>, d: DepJarsView) -> Seq<EntryView> {
    if spec_is_bazel_internal(d.label) {
        es
    } else {
        let es1 = if !seq_starts_with(d.label, "@"@) {
            es.push(proj_entry(d.label, d.is_test))
        } else {
            es
        };
        match d.jars {
            Some(us) => add_libs(es1, us, d.is_test),
            None => es1,
        }
    }
}

/// The entries of a library classpath from its dependencies, in order.
pub open spec fn library_entries(ds: Seq<DepJarsView>) -> Seq<EntryView>
    decreases ds.len(),
{
    if ds.len() == 0 {
        Seq::empty()
    } else {
        add_dep_entries(library_entries(ds.drop_last()), ds.last())
    }
}

/// What a source attachment of a dependency's JAR can be: none, the
/// JAR's recorded source, or (for a workspace label) an inferred source
/// directory.
pub open spec fn source_fit(j: ResolvedJarView, s: Option<Seq<char>>, label: Seq<char>, ws: Option<Seq<char>>) -> bool {
    match s {
        None => true,
        Some(x) => j.source_path == Some(x) || (!seq_starts_with(label, "@"@) && inferred_for(label, ws, x)),
    }
}

/// `x` is a source directory inferred for a label.
pub open spec fn inferred_for(label: Seq<char>, ws: Option<Seq<char>>, x: Seq<char>) -> bool {
    match (ws, label_package_dir(label)) {
        (Some(w), Some(pp)) => inferred_source(w, pp, x),
        _ => false,
    }
}

/// The uses of a dependency's JARs fit its recorded JARs: one per JAR, each
/// used by one of its effective paths with a fitting source attachment.
pub open spec fn uses_fit(js: Option<Seq<ResolvedJarView>>, us: Option<Seq<(Seq<char>, Option<Seq<char>>)>>, label: Seq<char>, ws: Option<Seq<char>>) -> bool {
    match (js, us) {
        (None, None) => true,
        (Some(js), Some(us)) => {
            &&& us.len() == js.len()
            &&& forall|k: int| 0 <= k < us.len() ==> is_effective(js[k], (#[trigger] us[k]).0) && source_fit(js[k], us[k].1, label, ws)
        },
        _ => false,
    }
}

/// The dependency records of a library classpath fit the graph: one per
/// dependency, marked test when the target is a test and the dependency
/// is test-only, with uses that fit its JARs (Bazel-internal labels are
/// skipped, whatever their record says).
pub open spec fn dep_jars_fit(v: GraphView, deps: Seq<Seq<char>>, is_test: bool, ws: Option<Seq<char>>, ds: Seq<DepJarsView>) -> bool {
    &&& ds.len() == deps.len()
    &&& forall|i: int| 0 <= i < ds.len() ==> {
        &&& (#[trigger] ds[i]).label == deps[i]
        &&& ds[i].is_test == (is_test && v.testonly.contains(deps[i]))
        &&& (spec_is_bazel_internal(deps[i]) || uses_fit(spec_get_jars(v, deps[i]), ds[i].jars, deps[i], ws))
    }
}

/// The output JARs of a target: one effective path per recorded JAR.
pub open spec fn own_jars_fit(v: GraphView, label: Seq<char>, outs: Seq<Seq<char>>) -> bool {
    match spec_get_jars(v, label) {
        None => outs.len() == 0,
        Some(js) => outs.len() == js.len() && forall|k: int| 0 <= k < outs.len() ==> is_effective(js[k], #[trigger] outs[k]),
    }
}

/// Adds the paths not yet listed, in order.
pub open spec fn union_paths(outs: Seq<Seq<char>>, more: Seq<Seq<char>>) -> Seq<Seq<char>>
    decreases more.len(),
{
    if more.len() == 0 {
        outs
    } else {
        let u = union_paths(outs, more.drop_last());
        if u.contains(more.last()) {
            u
        } else {
            u.push(more.last())
        }
    }
}

/// The JARs kept by a size check: readable JARs of 1024 bytes or more,
/// and those whose size cannot be read.
pub open spec fn kept_by_size(ps: Seq<Seq<char>>, sizes: Seq<Option<u64>>) -> Seq<Seq<char>>
    decreases ps.len(),
{
    if ps.len() == 0 || sizes.len() == 0 {
        Seq::empty()
    } else if sizes.last() matches Some(n) && n < 1024 {
        kept_by_size(ps.drop_last(), sizes.drop_last())
    } else {
        kept_by_size(ps.drop_last(), sizes.drop_last()).push(ps.last())
    }
}

/// The effective paths of the JARs of the non-internal dependencies.
pub open spec fn dep_jar_paths_fit(v: GraphView, deps: Seq<Seq<char>>, more: Seq<Seq<char>>) -> bool {
    exists|per: Seq<Seq<Seq<char>>>| {
        &&& per.len() == deps.len()
        &&& forall|i: int| 0 <= i < per.len() ==> if spec_is_bazel_internal(deps[i]) {
            (#[trigger] per[i]).len() == 0
        } else {
            own_jars_fit(v, deps[i], per[i])
        }
        &&& more == flatten(per)
    }
}

/// Concatenation of lists.
pub open spec fn flatten(per: Seq<Seq<Seq<char>>>) -> Seq<Seq<char>>
    decreases per.len(),
{
    if per.len() == 0 {
        Seq::empty()
    } else {
        flatten(per.drop_last()) + per.last()
    }
}

/// An empty classpath for a label.
pub open spec fn bare_classpath(cp: ComputedClasspath, label: Seq<char>) -> bool {
    &&& cp.target_label@ == label
    &&& cp.source_roots@.len() == 0
    &&& cp.generated_source_dirs@.len() == 0
    &&& cp.annotation_processors@.len() == 0
}


/// The views of entries with one more entry.
pub proof fn lemma_entries_push(e: Seq<ClasspathEntry>, x: ClasspathEntry)
    ensures
        entries_view(e.push(x)) == entries_view(e).push(x@),
{
    assert(entries_view(e.push(x)).len() == e.len() + 1);
    assert(entries_view(e.push(x)) =~= entries_view(e).push(x@));
}

/// Import entries with one more use.
pub proof fn lemma_import_push(us: Seq<(Seq<char>, Option<Seq<char>>)>, u: (Seq<char>, Option<Seq<char>>))
    ensures
        import_entries(us.push(u)) == import_entries(us).push(lib_entry(u.0, u.1, false)),
{
    assert(import_entries(us.push(u)).len() == us.len() + 1);
    assert(import_entries(us.push(u)) =~= import_entries(us).push(lib_entry(u.0, u.1, false)));
}

/// The library entries of a `java_import`: one per JAR use, in order.
pub open spec fn import_entries(us: Seq<(Seq<char>, Option<Seq<char>>)>) -> Seq<EntryView> {
    us.map_values(|u: (Seq<char>, Option<Seq<char>>)| lib_entry(u.0, u.1, false))
}

/// The classpath of a `java_import` fits the graph: its target exists;
/// one library entry per recorded JAR (path used and recorded source when
/// it exists); its JARs are also its output JARs.
pub open spec fn import_fit(v: GraphView, label: Seq<char>, cp: ComputedClasspath) -> bool {
    &&& spec_has_target(v, label)
    &&& bare_classpath(cp, label)
    &&& own_jars_fit(v, label, str_list(cp.output_jars@))
    &&& match spec_get_jars(v, label) {
        None => cp.entries@.len() == 0,
        Some(js) => exists|us: Seq<(Seq<char>, Option<Seq<char>>)>| {
            &&& uses_fit(Some(js), Some(us), label, None)
            &&& entries_view(cp.entries@) == import_entries(us)
        },
    }
}

/// The output JARs of a binary: its own JARs joined by those of its
/// dependencies and, when there is more than one, kept by their size.
pub open spec fn binary_out_ok(v: GraphView, deps: Seq<Seq<char>>, own: Seq<Seq<char>>, more: Seq<Seq<char>>, sizes: Seq<Option<u64>>, outs: Seq<Seq<char>>) -> bool {
    &&& dep_jar_paths_fit(v, deps, more)
    &&& {
        let all = union_paths(own, more);
        if all.len() > 1 {
            sizes.len() == all.len() && outs == kept_by_size(all, sizes)
        } else {
            outs == all
        }
    }
}

/// The output JARs of a target: its own JARs, for a binary joined by
/// those of its dependencies.
pub open spec fn outputs_ok(v: GraphView, label: Seq<char>, deps: Seq<Seq<char>>, kind: TargetKind, own: Seq<Seq<char>>, outs: Seq<Seq<char>>) -> bool {
    &&& own_jars_fit(v, label, own)
    &&& (kind != TargetKind::JavaBinary ==> outs == own)
    &&& (kind == TargetKind::JavaBinary ==> exists|more: Seq<Seq<char>>, sizes: Seq<Option<u64>>| #[trigger] binary_out_ok(v, deps, own, more, sizes, outs))
}

/// The parts of a library classpath: its dependencies, their records, the
/// entries made from them and its output JARs.
pub open spec fn library_parts_ok(v: GraphView, label: Seq<char>, is_test: bool, ws: Option<Seq<char>>, kind: TargetKind, deps: Seq<Seq<char>>, ds: Seq<DepJarsView>, cp: ComputedClasspath) -> bool {
    &&& is_dep_list(v, label, deps)
    &&& dep_jars_fit(v, deps, is_test, ws, ds)
    &&& entries_view(cp.entries@) == library_entries(ds)
    &&& exists|own: Seq<Seq<char>>| #[trigger] outputs_ok(v, label, deps, kind, own, str_list(cp.output_jars@))
}

/// The classpath of a library, binary or test fits the graph (see
/// [`library_parts_ok`]).
pub open spec fn library_fit(v: GraphView, label: Seq<char>, is_test: bool, ws: Option<Seq<char>>, kind: TargetKind, cp: ComputedClasspath) -> bool {
    &&& bare_classpath(cp, label)
    &&& exists|deps: Seq<Seq<char>>, ds: Seq<DepJarsView>| #[trigger] library_parts_ok(v, label, is_test, ws, kind, deps, ds, cp)
}

/// The classpath computed for a target of the given kind fits the graph.
pub open spec fn classpath_fit(v: GraphView, label: Seq<char>, kind: TargetKind, ws: Option<Seq<char>>, cp: ComputedClasspath) -> bool {
    if kind == TargetKind::JavaImport {
        import_fit(v, label, cp)
    } else {
        library_fit(v, label, kind == TargetKind::JavaTest, ws, kind, cp)
    }
}

/// Why no classpath can be computed for a target of the given kind.
pub open spec fn classpath_error(v: GraphView, label: Seq<char>, kind: TargetKind, e: GraphError) -> bool {
    if kind == TargetKind::JavaImport {
        e matches GraphError::TargetNotFound { label: l } && l@ == label && !spec_has_target(v, label)
    } else {
        deps_error(v, label, e)
    }
}


#[verifier::external_type_specification]
#[verifier::external_body]
#[verifier::reject_recursive_types(K)]
#[verifier::reject_recursive_types(V)]
#[verifier::reject_recursive_types(S)]
pub struct ExIndexMap<K, V, S>(indexmap::IndexMap<K, V, S>);

/// The pairs of an insertion-ordered map of merged entries, in order.
pub uninterp spec fn merged_pairs(m: indexmap::IndexMap<String, ClasspathEntry, std::hash::RandomState>) -> Seq<(Seq<char>, EntryView)>;

/// `IndexMap::new`: an empty map.
#[verifier::external_body]
fn merged_new() -> (m: indexmap::IndexMap<String, ClasspathEntry, std::hash::RandomState>)
    ensures
        merged_pairs(m) == Seq::<(Seq<char>, EntryView)>::empty(),
{
    indexmap::IndexMap::new()
}

/// `IndexMap::get_index_of`: the position of the pair with key `key`
/// (keys are unique in an `IndexMap`).
#[verifier::external_body]
fn merged_index_of(m: &indexmap::IndexMap<String, ClasspathEntry, std::hash::RandomState>, key: &str) -> (r: Option<usize>)
    ensures
        match r {
            Some(i) => i < merged_pairs(*m).len() && merged_pairs(*m)[i as int].0 == key@,
            None => forall|i: int| 0 <= i < merged_pairs(*m).len() ==> merged_pairs(*m)[i].0 != key@,
        },
{
    m.get_index_of(key)
}

/// `IndexMap`'s `Index<usize>`: the value at a position.
#[verifier::external_body]
fn merged_at(m: &indexmap::IndexMap<String, ClasspathEntry, std::hash::RandomState>, i: usize) -> (r: &ClasspathEntry)
    requires
        i < merged_pairs(*m).len(),
    ensures
        r@ == merged_pairs(*m)[i as int].1,
{
    &m[i]
}

/// `IndexMap`'s `IndexMut<usize>`: replaces the value at a position; the
/// key and the order stay.
#[verifier::external_body]
fn merged_set_at(m: &mut indexmap::IndexMap<String, ClasspathEntry, std::hash::RandomState>, i: usize, v: ClasspathEntry)
    requires
        i < merged_pairs(*old(m)).len(),
    ensures
        merged_pairs(*final(m)) == merged_pairs(*old(m)).update(i as int, (merged_pairs(*old(m))[i as int].0, v@)),
{
    m[i] = v;
}

/// `IndexMap::insert` of a key not yet present: the pair goes last.
#[verifier::external_body]
fn merged_insert_new(m: &mut indexmap::IndexMap<String, ClasspathEntry, std::hash::RandomState>, key: String, v: ClasspathEntry)
    requires
        forall|i: int| 0 <= i < merged_pairs(*old(m)).len() ==> merged_pairs(*old(m))[i].0 != key@,
    ensures
        merged_pairs(*final(m)) == merged_pairs(*old(m)).push((key@, v@)),
{
    m.insert(key, v);
}

/// `IndexMap::into_values`: the values, in order.
#[verifier::external_body]
fn merged_into_values(m: indexmap::IndexMap<String, ClasspathEntry, std::hash::RandomState>) -> (r: Vec<ClasspathEntry>)
    ensures
        entries_view(r@) == merged_pairs(m).map_values(|p: (Seq<char>, EntryView)| p.1),
{
    m.into_values().collect()
}

/// The key under which entries are merged: their type and path.
pub open spec fn merge_key(e: EntryView) -> Seq<char> {
    type_tag(e.entry_type) + seq!['|'] + e.path
}

/// Entries have the same key exactly when they have the same type and path.
pub proof fn lemma_merge_key_injective(a: EntryView, b: EntryView)
    ensures
        merge_key(a) == merge_key(b) <==> (a.entry_type == b.entry_type && a.path == b.path),
{
    reveal_strlit("LIB");
    reveal_strlit("PROJ");
    reveal_strlit("SRC");
    let ka = merge_key(a);
    let kb = merge_key(b);
    if ka == kb {
        let ta = type_tag(a.entry_type);
        let tb = type_tag(b.entry_type);
        if a.entry_type != b.entry_type {
            assert(ka[ta.len() as int] == '|');
            assert(kb[tb.len() as int] == '|');
            if ta.len() < tb.len() {
                assert(ka[ta.len() as int] == kb[ta.len() as int]);
            } else if tb.len() < ta.len() {
                assert(ka[tb.len() as int] == kb[tb.len() as int]);
            } else {
                assert(ka[0] == kb[0]);
            }
        }
        assert(ta == tb);
        assert(a.path =~= ka.subrange(ta.len() as int + 1, ka.len() as int));
        assert(b.path =~= kb.subrange(tb.len() as int + 1, kb.len() as int));
    }
}

/// Adds access rules whose pattern is not yet among `ex`, in order.
pub open spec fn add_rules(ex: Seq<AccessRuleView>, new: Seq<AccessRuleView>) -> Seq<AccessRuleView>
    decreases new.len(),
{
    if new.len() == 0 {
        ex
    } else {
        let r = add_rules(ex, new.drop_last());
        if exists|i: int| 0 <= i < r.len() && r[i].pattern == new.last().pattern {
            r
        } else {
            r.push(new.last())
        }
    }
}

/// Merging an entry into an equal-keyed one: a missing source is filled
/// in, `is_test` holds only if both are test entries, `is_exported` if
/// either is, and new access-rule patterns are added.
pub open spec fn merge_into(ex: EntryView, e: EntryView) -> EntryView {
    EntryView {
        source: if ex.source is None && e.source is Some {
            e.source
        } else {
            ex.source
        },
        is_test: ex.is_test && e.is_test,
        is_exported: ex.is_exported || e.is_exported,
        access_rules: add_rules(ex.access_rules, e.access_rules),
        ..ex
    }
}

/// Adding one entry to the merged pairs.
pub open spec fn merge_entry(g: Seq<(Seq<char>, EntryView)>, e: EntryView) -> Seq<(Seq<char>, EntryView)> {
    let k = merge_key(e);
    if exists|i: int| 0 <= i < g.len() && g[i].0 == k {
        let i = choose|i: int| 0 <= i < g.len() && g[i].0 == k;
        g.update(i, (k, merge_into(g[i].1, e)))
    } else {
        g.push((k, e))
    }
}

/// Adding entries in order.
pub open spec fn merge_entries(g: Seq<(Seq<char>, EntryView)>, es: Seq<EntryView>) -> Seq<(Seq<char>, EntryView)>
    decreases es.len(),
{
    if es.len() == 0 {
        g
    } else {
        merge_entry(merge_entries(g, es.drop_last()), es.last())
    }
}

/// The entries and output JARs of the classpaths that could be computed.
pub open spec fn parts_view(parts: Seq<Option<ComputedClasspath>>) -> Seq<Option<(Seq<EntryView>, Seq<Seq<char>>)>> {
    parts.map_values(|p: Option<ComputedClasspath>| match p {
        Some(c) => Some((entries_view(c.entries@), str_list(c.output_jars@))),
        None => None,
    })
}

/// Merging the entries of several classpaths in order.
pub open spec fn merge_parts(ps: Seq<Option<(Seq<EntryView>, Seq<Seq<char>>)>>) -> Seq<(Seq<char>, EntryView)>
    decreases ps.len(),
{
    if ps.len() == 0 {
        Seq::empty()
    } else {
        match ps.last() {
            Some(p) => merge_entries(merge_parts(ps.drop_last()), p.0),
            None => merge_parts(ps.drop_last()),
        }
    }
}

/// The output JARs of several classpaths, in order.
pub open spec fn parts_outputs(ps: Seq<Option<(Seq<EntryView>, Seq<Seq<char>>)>>) -> Seq<Seq<char>>
    decreases ps.len(),
{
    if ps.len() == 0 {
        Seq::empty()
    } else {
        match ps.last() {
            Some(p) => parts_outputs(ps.drop_last()) + p.1,
            None => parts_outputs(ps.drop_last()),
        }
    }
}

/// The merged classpath of several targets: labels joined with `+`, the
/// entries merged by type and path in order of first appearance, and the
/// output JARs sorted without duplicates.
pub open spec fn merged_fit(labels: Seq<Seq<char>>, ps: Seq<Option<(Seq<EntryView>, Seq<Seq<char>>)>>, cp: ComputedClasspath) -> bool {
    &&& cp.target_label@ == join_with(labels, seq!['+'])
    &&& entries_view(cp.entries@) == merge_parts(ps).map_values(|p: (Seq<char>, EntryView)| p.1)
    &&& crate::order::strictly_sorted(str_list(cp.output_jars@))
    &&& forall|x: Seq<char>| #[trigger] str_list(cp.output_jars@).contains(x) <==> parts_outputs(ps).contains(x)
    &&& cp.source_roots@.len() == 0
    &&& cp.generated_source_dirs@.len() == 0
    &&& cp.annotation_processors@.len() == 0
}


/// A classpath computed for one of several targets, or `None` when none
/// could be.
pub open spec fn part_fit(v: GraphView, l: Seq<char>, ws: Option<Seq<char>>, p: Option<ComputedClasspath>) -> bool {
    match p {
        Some(c) => classpath_fit(v, l, crate::graph::spec_target_kind(v, l), ws, c),
        None => exists|e: GraphError| classpath_error(v, l, crate::graph::spec_target_kind(v, l), e),
    }
}

/// An empty classpath with an empty label.
pub open spec fn empty_classpath(cp: ComputedClasspath) -> bool {
    &&& cp.target_label@.len() == 0
    &&& cp.entries@.len() == 0
    &&& cp.source_roots@.len() == 0
    &&& cp.generated_source_dirs@.len() == 0
    &&& cp.annotation_processors@.len() == 0
    &&& cp.output_jars@.len() == 0
}

/// Appends a string.
fn append_str(s: &mut String, t: &str)
    ensures
        final(s)@ == old(s)@ + t@,
{
    s.append(t);
}

/// The text of a boolean.
fn bool_str(b: bool) -> (r: &'static str)
    ensures
        r@ == bool_text(b),
{
    if b {
        "true"
    } else {
        "false"
    }
}

/// The access rules of an entry as text.
fn access_text(rules: &Vec<AccessRule>) -> (r: String)
    ensures
        r@ == rules_text(rules_view(rules@)),
{
    let ghost rs = rules_view(rules@);
    let ghost texts = rs.map_values(|x: AccessRuleView| rule_text(x));
    let mut r = String::new();
    let mut k: usize = 0;
    while k < rules.len()
        invariant
            k <= rules@.len(),
            rs == rules_view(rules@),
            texts == rs.map_values(|x: AccessRuleView| rule_text(x)),
            r@ == join_with(texts.subrange(0, k as int), seq![':']),
        decreases rules@.len() - k,
    {
        let ghost before = r@;
        if k > 0 {
            push_char(&mut r, ':');
        }
        push_char(&mut r, if rules[k].is_accessible { '+' } else { '-' });
        append_str(&mut r, rules[k].pattern.as_str());
        proof {
            let sub = texts.subrange(0, k + 1);
            assert(sub.drop_last() =~= texts.subrange(0, k as int));
            assert(sub.last() == rule_text(rules@[k as int]@));
            if k == 0 {
                assert(r@ =~= sub[0]);
            } else {
                assert(r@ =~= before + seq![':'] + sub.last());
            }
        }
        k = k + 1;
    }
    proof {
        assert(texts.subrange(0, rules@.len() as int) =~= texts);
    }
    r
}

/// One entry in its pipe-delimited form.
fn entry_text(e: &ClasspathEntry) -> (r: String)
    ensures
        r@ == entry_line(e@),
{
    let mut r = match e.entry_type {
        ClasspathEntryType::Library => owned("LIB"),
        ClasspathEntryType::Project => owned("PROJ"),
        ClasspathEntryType::Source => owned("SRC"),
    };
    push_char(&mut r, '|');
    append_str(&mut r, e.path.as_str());
    push_char(&mut r, '|');
    match &e.source_attachment_path {
        Some(s) => append_str(&mut r, s.as_str()),
        None => {},
    }
    push_char(&mut r, '|');
    append_str(&mut r, bool_str(e.is_test));
    push_char(&mut r, '|');
    append_str(&mut r, bool_str(e.is_exported));
    push_char(&mut r, '|');
    let a = access_text(&e.access_rules);
    append_str(&mut r, a.as_str());
    proof {
        assert(r@ =~= entry_line(e@));
    }
    r
}


/// A copy of access rules.
fn copy_rules(rs: &Vec<AccessRule>) -> (r: Vec<AccessRule>)
    ensures
        rules_view(r@) == rules_view(rs@),
{
    let mut r: Vec<AccessRule> = Vec::new();
    let mut k: usize = 0;
    while k < rs.len()
        invariant
            k <= rs@.len(),
            rules_view(r@) == rules_view(rs@).subrange(0, k as int),
        decreases rs@.len() - k,
    {
        let ghost r0 = r@;
        let rule = AccessRule { pattern: rs[k].pattern.clone(), is_accessible: rs[k].is_accessible };
        r.push(rule);
        proof {
            assert(r@ == r0.push(rule));
            assert(rules_view(r0).len() == r0.len());
            assert(r0.len() == k);
            assert(rules_view(r@).len() == r@.len());
            assert(rules_view(r@).len() == k + 1);
            assert forall|j: int| 0 <= j < k + 1 implies #[trigger] rules_view(r@)[j] == rules_view(rs@)[j] by {
                if j < k {
                    assert(r@[j] == r0[j]);
                    assert(rules_view(r0)[j] == rules_view(rs@).subrange(0, k as int)[j]);
                }
            }
            assert(rules_view(r@) =~= rules_view(rs@).subrange(0, k + 1));
        }
        k = k + 1;
    }
    proof {
        assert(rules_view(rs@).subrange(0, rs@.len() as int) =~= rules_view(rs@));
    }
    r
}

/// A copy of a visibility.
/// The view of a visibility.
pub open spec fn vis_view(v: Visibility) -> VisibilityView {
    match v {
        Visibility::Public => VisibilityView::Public,
        Visibility::Private => VisibilityView::Private,
        Visibility::PackagePrivate(ps) => VisibilityView::PackagePrivate(str_list(ps@)),
    }
}

fn copy_visibility(v: &Visibility) -> (r: Visibility)
    ensures
        vis_view(r) == vis_view(*v),
{
    match v {
        Visibility::Public => Visibility::Public,
        Visibility::Private => Visibility::Private,
        Visibility::PackagePrivate(ps) => {
            let mut c: Vec<String> = Vec::new();
            let mut k: usize = 0;
            while k < ps.len()
                invariant
                    k <= ps@.len(),
                    str_list(c@) == str_list(ps@).subrange(0, k as int),
                decreases ps@.len() - k,
            {
                let x = ps[k].clone();
                proof {
                    crate::graph::lemma_str_list_push(c@, x);
                }
                c.push(x);
                proof {
                    assert(str_list(ps@).subrange(0, k + 1) =~= str_list(ps@).subrange(0, k as int).push(ps@[k as int]@));
                }
                k = k + 1;
            }
            proof {
                assert(str_list(ps@).subrange(0, ps@.len() as int) =~= str_list(ps@));
            }
            Visibility::PackagePrivate(c)
        },
    }
}

/// A copy of an entry with another source attachment.
fn entry_with_source(e: &ClasspathEntry, src: Option<String>) -> (r: ClasspathEntry)
    ensures
        r@ == (EntryView { source: opt_view(src), ..e@ }),
{
    ClasspathEntry {
        entry_type: e.entry_type,
        path: e.path.clone(),
        source_attachment_path: src,
        is_test: e.is_test,
        is_exported: e.is_exported,
        access_rules: copy_rules(&e.access_rules),
        visibility: copy_visibility(&e.visibility),
    }
}

/// A copy of an optional string.
fn copy_opt(o: &Option<String>) -> (r: Option<String>)
    ensures
        opt_view(r) == opt_view(*o),
{
    match o {
        Some(s) => Some(s.clone()),
        None => None,
    }
}

/// Index of the first library entry with the given path.
fn find_lib(es: &Vec<ClasspathEntry>, path: &str) -> (r: Option<usize>)
    ensures
        r matches Some(i) ==> i < es@.len(),
        match r {
            Some(i) => lib_index(entries_view(es@), path@) == Some(i as int),
            None => lib_index(entries_view(es@), path@) is None,
        },
{
    let ghost ev = entries_view(es@);
    let mut k: usize = 0;
    while k < es.len()
        invariant
            k <= es@.len(),
            ev == entries_view(es@),
            forall|j: int| 0 <= j < k ==> !(ev[j].entry_type == ClasspathEntryType::Library && ev[j].path == path@),
        decreases es@.len() - k,
    {
        if es[k].entry_type == ClasspathEntryType::Library && str_eq(es[k].path.as_str(), path) {
            proof {
                assert(ev[k as int].entry_type == ClasspathEntryType::Library && ev[k as int].path == path@);
                let c = choose|i: int| 0 <= i < ev.len() && ev[i].entry_type == ClasspathEntryType::Library && ev[i].path == path@ && forall|j: int| 0 <= j < i ==> !(ev[j].entry_type == ClasspathEntryType::Library && ev[j].path == path@);
                assert(c == k);
            }
            return Some(k);
        }
        proof {
            assert(ev[k as int] == es@[k as int]@);
        }
        k = k + 1;
    }
    None
}

/// Adds a JAR to the entries (see [`add_lib`]).
fn push_lib(es: &mut Vec<ClasspathEntry>, path: &str, src: Option<String>, is_test: bool)
    ensures
        entries_view(final(es)@) == add_lib(entries_view(old(es)@), path@, opt_view(src), is_test),
{
    let ghost ev = entries_view(es@);
    match find_lib(es, path) {
        Some(i) => {
            if es[i].source_attachment_path.is_none() && src.is_some() {
                let e = entry_with_source(&es[i], src);
                es.set(i, e);
                proof {
                    assert(entries_view(es@) =~= ev.update(i as int, EntryView { source: opt_view(src), ..ev[i as int] }));
                }
            }
        },
        None => {
            let ghost e0 = es@;
            es.push(ClasspathEntry {
                entry_type: ClasspathEntryType::Library,
                path: owned(path),
                source_attachment_path: src,
                is_test,
                is_exported: false,
                access_rules: Vec::new(),
                visibility: Visibility::Public,
            });
            proof {
                assert(rules_view(es@[e0.len() as int].access_rules@) =~= Seq::<AccessRuleView>::empty());
                assert(entries_view(es@) =~= ev.push(lib_entry(path@, opt_view(src), is_test)));
            }
        },
    }
}

/// The entries of a library classpath from the records of its
/// dependencies (see [`library_entries`]): a project entry per workspace
/// dependency, one library entry per distinct JAR path (a later dependency
/// only fills in a missing source attachment), Bazel-internal
/// dependencies skipped.
pub fn assemble_library_entries(deps: &Vec<DepJars>) -> (r: Vec<ClasspathEntry>)
    ensures
        entries_view(r@) == library_entries(deps@.map_values(|d: DepJars| d@)),
{
    let ghost dv = deps@.map_values(|d: DepJars| d@);
    let mut es: Vec<ClasspathEntry> = Vec::new();
    let mut k: usize = 0;
    proof {
        assert(entries_view(es@) =~= Seq::<EntryView>::empty());
    }
    while k < deps.len()
        invariant
            k <= deps@.len(),
            dv == deps@.map_values(|d: DepJars| d@),
            entries_view(es@) == library_entries(dv.subrange(0, k as int)),
        decreases deps@.len() - k,
    {
        proof {
            assert(dv.subrange(0, k + 1).drop_last() =~= dv.subrange(0, k as int));
            assert(dv.subrange(0, k + 1).last() == deps@[k as int]@);
        }
        let d = &deps[k];
        let label = d.label.as_str();
        if !crate::labels::is_bazel_internal_label(label) {
            if !crate::strutil::str_starts_with(label, "@") {
                let ghost e0 = es@;
                es.push(ClasspathEntry {
                    entry_type: ClasspathEntryType::Project,
                    path: owned(label),
                    source_attachment_path: None,
                    is_test: d.is_test,
                    is_exported: false,
                    access_rules: Vec::new(),
                    visibility: Visibility::Public,
                });
                proof {
                    assert(rules_view(es@[e0.len() as int].access_rules@) =~= Seq::<AccessRuleView>::empty());
                    assert(entries_view(es@) =~= entries_view(e0).push(proj_entry(label@, d.is_test)));
                }
            }
            let ghost es1 = entries_view(es@);
            match &d.jars {
                Some(us) => {
                    let ghost uv = uses_view(us@);
                    let mut m: usize = 0;
                    while m < us.len()
                        invariant
                            m <= us@.len(),
                            uv == uses_view(us@),
                            entries_view(es@) == add_libs(es1, uv.subrange(0, m as int), d.is_test),
                        decreases us@.len() - m,
                    {
                        proof {
                            assert(uv.subrange(0, m + 1).drop_last() =~= uv.subrange(0, m as int));
                            assert(uv.subrange(0, m + 1).last() == (us@[m as int].0@, opt_view(us@[m as int].1)));
                        }
                        let src = copy_opt(&us[m].1);
                        push_lib(&mut es, us[m].0.as_str(), src, d.is_test);
                        m = m + 1;
                    }
                    proof {
                        assert(uv.subrange(0, us@.len() as int) =~= uv);
                    }
                },
                None => {},
            }
        }
        k = k + 1;
    }
    proof {
        assert(dv.subrange(0, deps@.len() as int) =~= dv);
    }
    es
}


/// The source attachments of a used JAR in the order they are tried: its
/// recorded source, then (when inferring) the inferred source directory.
pub open spec fn use_candidates(recorded: Option<Seq<char>>, infer: bool, inf: Option<Seq<char>>) -> Seq<Option<Seq<char>>> {
    seq![recorded, if infer { inf } else { None }]
}

/// The path a JAR is used by and its source attachment: its recorded
/// source when it exists on disk, else (for a workspace dependency) an
/// inferred source directory.
fn jar_use(jar: &ResolvedJar, label: &str, infer: bool, ws: Option<&str>) -> (r: (String, Option<String>))
    requires
        infer ==> !seq_starts_with(label@, "@"@),
    ensures
        is_effective(jar@, r.0@),
        source_fit(jar@, opt_view(r.1), label@, ws_view(ws)),
        exists|inf: Option<Seq<char>>, confirmed: Seq<bool>|
            #![trigger crate::jars::first_real(use_candidates(jar@.source_path, infer, inf), confirmed)]
        {
            &&& (inf matches Some(x) ==> inferred_for(label@, ws_view(ws), x))
            &&& confirmed.len() == 2
            &&& opt_view(r.1) == crate::jars::first_real(use_candidates(jar@.source_path, infer, inf), confirmed)
        },
{
    let path = owned(jar.effective_path());
    let recorded_ok = match &jar.source_path {
        Some(p) => crate::paths::path_exists(p.as_str()),
        None => false,
    };
    let inferred = if !recorded_ok && infer {
        crate::jars::infer_source_attachment(label, ws)
    } else {
        None
    };
    let inferred_ok = inferred.is_some();
    let ghost inf = opt_view(inferred);
    let cands = vec![jar.source_path.clone(), inferred];
    let confirmed = vec![recorded_ok, inferred_ok];
    let source = crate::jars::pick_source(&cands, &confirmed);
    proof {
        assert(crate::jars::opts_view(cands@) =~= use_candidates(jar@.source_path, infer, inf));
        assert(opt_view(source) == crate::jars::first_real(use_candidates(jar@.source_path, infer, inf), confirmed@));
        reveal_with_fuel(crate::jars::first_real_from, 3);
        if opt_view(source) is Some && !(jar@.source_path == opt_view(source)) {
            assert(infer);
        }
    }
    (path, source)
}

/// The view of an optional workspace root.
pub open spec fn ws_view(ws: Option<&str>) -> Option<Seq<char>> {
    match ws {
        Some(w) => Some(w@),
        None => None,
    }
}

/// The effective paths of a target's recorded JARs.
fn own_jar_paths(graph: &DependencyGraph, label: &str) -> (r: Vec<String>)
    requires
        graph.wf(),
    ensures
        own_jars_fit(graph@, label@, str_list(r@)),
{
    let mut r: Vec<String> = Vec::new();
    match graph.get_target_jars(label) {
        Some(js) => {
            let ghost jv = crate::graph::resolved_view(js@);
            let mut k: usize = 0;
            while k < js.len()
                invariant
                    k <= js@.len(),
                    jv == crate::graph::resolved_view(js@),
                    r@.len() == k,
                    forall|m: int| 0 <= m < k ==> is_effective(jv[m], #[trigger] str_list(r@)[m]),
                decreases js@.len() - k,
            {
                let e = js[k].effective_path();
                let p = owned(e);
                let ghost r0 = r@;
                r.push(p);
                proof {
                    crate::graph::lemma_str_list_push(r0, p);
                    assert(jv[k as int] == js@[k as int]@);
                    assert forall|m: int| 0 <= m < k + 1 implies is_effective(jv[m], #[trigger] str_list(r@)[m]) by {
                        if m < k {
                            assert(str_list(r@)[m] == str_list(r0)[m]);
                        } else {
                            assert(jv[m] == js@[m]@);
                        }
                    }
                }
                k = k + 1;
            }
        },
        None => {
            proof {
                assert(str_list(r@) =~= Seq::<Seq<char>>::empty());
            }
        },
    }
    r
}

impl ComputedClasspath {
    /// The classpath of a target: `java_import` targets get their own
    /// JARs; libraries, binaries, tests and targets of unknown kind get the
    /// JARs and projects of their transitive dependencies.
    pub fn compute_for(graph: &DependencyGraph, target_label: &str, target_kind: TargetKind, workspace_root: Option<&str>) -> (r: Result<Self, GraphError>)
        requires
            graph.wf(),
        ensures
            for_result(graph@, target_label@, target_kind, ws_view(workspace_root), r),
    {
        let is_test = target_kind == TargetKind::JavaTest;
        match target_kind {
            TargetKind::JavaImport => Self::compute_for_import(graph, target_label),
            _ => Self::compute_for_library(graph, target_label, is_test, workspace_root, target_kind),
        }
    }

    /// The classpath of a `java_import`.
    fn compute_for_import(graph: &DependencyGraph, target_label: &str) -> (r: Result<Self, GraphError>)
        requires
            graph.wf(),
        ensures
            match r {
                Ok(cp) => import_fit(graph@, target_label@, cp),
                Err(e) => e matches GraphError::TargetNotFound { label: l } && l@ == target_label@ && !spec_has_target(graph@, target_label@),
            },
    {
        if !graph.has_target(target_label) {
            return Err(GraphError::TargetNotFound { label: owned(target_label) });
        }
        let mut entries: Vec<ClasspathEntry> = Vec::new();
        let ghost mut us: Seq<(Seq<char>, Option<Seq<char>>)> = Seq::empty();
        match graph.get_target_jars(target_label) {
            Some(js) => {
                let ghost jv = crate::graph::resolved_view(js@);
                let mut k: usize = 0;
                while k < js.len()
                    invariant
                        k <= js@.len(),
                        jv == crate::graph::resolved_view(js@),
                        us.len() == k,
                        forall|m: int| 0 <= m < k ==> is_effective(jv[m], (#[trigger] us[m]).0) && source_fit(jv[m], us[m].1, target_label@, None),
                        entries_view(entries@) == import_entries(us),
                    decreases js@.len() - k,
                {
                    let (path, source) = jar_use(&js[k], target_label, false, None);
                    let ghost u = (path@, opt_view(source));
                    proof {
                        assert(is_effective(js@[k as int]@, u.0));
                    }
                    let ghost e0 = entries@;
                    entries.push(ClasspathEntry {
                        entry_type: ClasspathEntryType::Library,
                        path,
                        source_attachment_path: source,
                        is_test: false,
                        is_exported: false,
                        access_rules: Vec::new(),
                        visibility: Visibility::Public,
                    });
                    proof {
                        assert(jv[k as int] == js@[k as int]@);
                        let us0 = us;
                        us = us.push(u);
                        assert(rules_view(entries@[e0.len() as int].access_rules@) =~= Seq::<AccessRuleView>::empty());
                        lemma_entries_push(e0, entries@[e0.len() as int]);
                        assert(entries@ == e0.push(entries@[e0.len() as int]));
                        lemma_import_push(us0, u);
                        assert(entries@[e0.len() as int]@ == lib_entry(u.0, u.1, false));
                        assert(entries_view(entries@) =~= import_entries(us));
                        assert forall|m: int| 0 <= m < k + 1 implies is_effective(jv[m], (#[trigger] us[m]).0) && source_fit(jv[m], us[m].1, target_label@, None) by {
                            if m < k {
                                assert(us[m] == us0[m]);
                            }
                        }
                    }
                    k = k + 1;
                }
            },
            None => {},
        }
        let output_jars = own_jar_paths(graph, target_label);
        let cp = ComputedClasspath {
            target_label: owned(target_label),
            entries,
            source_roots: Vec::new(),
            generated_source_dirs: Vec::new(),
            annotation_processors: Vec::new(),
            output_jars,
        };
        proof {
            match spec_get_jars(graph@, target_label@) {
                Some(js) => {
                    assert(uses_fit(Some(js), Some(us), target_label@, None));
                },
                None => {},
            }
        }
        Ok(cp)
    }

    /// The records of the dependencies of a library classpath.
    fn dependency_records(graph: &DependencyGraph, deps: &Vec<String>, is_test_context: bool, workspace_root: Option<&str>) -> (r: Vec<DepJars>)
        requires
            graph.wf(),
        ensures
            dep_jars_fit(graph@, str_list(deps@), is_test_context, ws_view(workspace_root), r@.map_values(|d: DepJars| d@)),
    {
        let ghost dl = str_list(deps@);
        let mut r: Vec<DepJars> = Vec::new();
        let mut k: usize = 0;
        while k < deps.len()
            invariant
                graph.wf(),
                k <= deps@.len(),
                dl == str_list(deps@),
                r@.len() == k,
                forall|i: int| 0 <= i < k ==> {
                    &&& (#[trigger] r@[i])@.label == dl[i]
                    &&& r@[i]@.is_test == (is_test_context && graph@.testonly.contains(dl[i]))
                    &&& (spec_is_bazel_internal(dl[i]) || uses_fit(spec_get_jars(graph@, dl[i]), r@[i]@.jars, dl[i], ws_view(workspace_root)))
                },
            decreases deps@.len() - k,
        {
            let dep = deps[k].as_str();
            let is_test = is_test_context && graph.is_testonly(dep);
            let internal_ws = !crate::strutil::str_starts_with(dep, "@");
            proof {
                reveal_strlit("@");
            }
            let jars = if crate::labels::is_bazel_internal_label(dep) {
                None
            } else {
                match graph.get_target_jars(dep) {
                    Some(js) => {
                        let ghost jv = crate::graph::resolved_view(js@);
                        let mut uses: Vec<(String, Option<String>)> = Vec::new();
                        let mut m: usize = 0;
                        while m < js.len()
                            invariant
                                m <= js@.len(),
                                jv == crate::graph::resolved_view(js@),
                                uses@.len() == m,
                                internal_ws ==> !seq_starts_with(dep@, "@"@),
                                forall|x: int| 0 <= x < m ==> is_effective(jv[x], (#[trigger] uses_view(uses@)[x]).0) && source_fit(jv[x], uses_view(uses@)[x].1, dep@, ws_view(workspace_root)),
                            decreases js@.len() - m,
                        {
                            let u = jar_use(&js[m], dep, internal_ws, workspace_root);
                            let ghost u0 = uses@;
                            uses.push(u);
                            proof {
                                assert(jv[m as int] == js@[m as int]@);
                                assert forall|x: int| 0 <= x < m + 1 implies is_effective(jv[x], (#[trigger] uses_view(uses@)[x]).0) && source_fit(jv[x], uses_view(uses@)[x].1, dep@, ws_view(workspace_root)) by {
                                    assert(uses_view(uses@)[x] == (uses@[x].0@, opt_view(uses@[x].1)));
                                    if x < m {
                                        assert(uses@[x] == u0[x]);
                                        assert(uses_view(u0)[x] == (u0[x].0@, opt_view(u0[x].1)));
                                    }
                                }
                            }
                            m = m + 1;
                        }
                        Some(uses)
                    },
                    None => None,
                }
            };
            let ghost r0 = r@;
            r.push(DepJars { label: owned(dep), is_test, jars });
            proof {
                assert forall|i: int| 0 <= i < k + 1 implies {
                    &&& (#[trigger] r@[i])@.label == dl[i]
                    &&& r@[i]@.is_test == (is_test_context && graph@.testonly.contains(dl[i]))
                    &&& (spec_is_bazel_internal(dl[i]) || uses_fit(spec_get_jars(graph@, dl[i]), r@[i]@.jars, dl[i], ws_view(workspace_root)))
                } by {
                    if i < k {
                        assert(r@[i] == r0[i]);
                    } else {
                        assert(dl[i] == dep@);
                    }
                }
            }
            k = k + 1;
        }
        proof {
            let rv = r@.map_values(|d: DepJars| d@);
            assert forall|i: int| 0 <= i < rv.len() implies {
                &&& (#[trigger] rv[i]).label == dl[i]
                &&& rv[i].is_test == (is_test_context && graph@.testonly.contains(dl[i]))
                &&& (spec_is_bazel_internal(dl[i]) || uses_fit(spec_get_jars(graph@, dl[i]), rv[i].jars, dl[i], ws_view(workspace_root)))
            } by {
                assert(rv[i] == r@[i]@);
            }
        }
        r
    }
}


/// Appends the paths of `more` not yet in `outs`, in order.
fn union_into(outs: &mut Vec<String>, more: &Vec<String>)
    ensures
        str_list(final(outs)@) == union_paths(str_list(old(outs)@), str_list(more@)),
{
    let ghost o0 = str_list(outs@);
    let ghost mv = str_list(more@);
    let mut k: usize = 0;
    while k < more.len()
        invariant
            k <= more@.len(),
            mv == str_list(more@),
            str_list(outs@) == union_paths(o0, mv.subrange(0, k as int)),
        decreases more@.len() - k,
    {
        proof {
            assert(mv.subrange(0, k + 1).drop_last() =~= mv.subrange(0, k as int));
            assert(mv.subrange(0, k + 1).last() == more@[k as int]@);
        }
        match crate::assoc::find_str(outs, more[k].as_str()) {
            Some(i) => {
                proof {
                    assert(str_list(outs@)[i as int] == more@[k as int]@);
                }
            },
            None => {
                let ghost before = outs@;
                let p = more[k].clone();
                outs.push(p);
                proof {
                    crate::graph::lemma_str_list_push(before, p);
                    assert(!str_list(before).contains(p@));
                }
            },
        }
        k = k + 1;
    }
    proof {
        assert(mv.subrange(0, more@.len() as int) =~= mv);
    }
}

/// The paths kept by their sizes (see [`kept_by_size`]).
fn retain_by_size(ps: &Vec<String>, sizes: &Vec<Option<u64>>) -> (r: Vec<String>)
    requires
        sizes@.len() == ps@.len(),
    ensures
        str_list(r@) == kept_by_size(str_list(ps@), sizes@),
{
    let ghost pv = str_list(ps@);
    let mut r: Vec<String> = Vec::new();
    let mut k: usize = 0;
    while k < ps.len()
        invariant
            k <= ps@.len(),
            sizes@.len() == ps@.len(),
            pv == str_list(ps@),
            str_list(r@) == kept_by_size(pv.subrange(0, k as int), sizes@.subrange(0, k as int)),
        decreases ps@.len() - k,
    {
        proof {
            assert(pv.subrange(0, k + 1).drop_last() =~= pv.subrange(0, k as int));
            assert(sizes@.subrange(0, k + 1).drop_last() =~= sizes@.subrange(0, k as int));
            assert(pv.subrange(0, k + 1).last() == ps@[k as int]@);
            assert(sizes@.subrange(0, k + 1).last() == sizes@[k as int]);
        }
        let small = match sizes[k] {
            Some(n) => n < 1024,
            None => false,
        };
        if !small {
            let ghost r0 = r@;
            let p = ps[k].clone();
            r.push(p);
            proof {
                crate::graph::lemma_str_list_push(r0, p);
            }
        }
        k = k + 1;
    }
    proof {
        assert(pv.subrange(0, ps@.len() as int) =~= pv);
        assert(sizes@.subrange(0, ps@.len() as int) =~= sizes@);
    }
    r
}

impl ComputedClasspath {
    /// The classpath of a library, binary or test (see [`library_fit`]).
    fn compute_for_library(
        graph: &DependencyGraph,
        target_label: &str,
        is_test_context: bool,
        workspace_root: Option<&str>,
        target_kind: TargetKind,
    ) -> (r: Result<Self, GraphError>)
        requires
            graph.wf(),
        ensures
            match r {
                Ok(cp) => library_fit(graph@, target_label@, is_test_context, ws_view(workspace_root), target_kind, cp),
                Err(e) => deps_error(graph@, target_label@, e),
            },
    {
        let deps = match graph.transitive_deps(target_label) {
            Ok(d) => d,
            Err(e) => {
                return Err(e);
            },
        };
        let records = Self::dependency_records(graph, &deps, is_test_context, workspace_root);
        let entries = assemble_library_entries(&records);
        let mut output_jars = own_jar_paths(graph, target_label);
        let ghost own = str_list(output_jars@);
        let ghost mut more_v: Seq<Seq<char>> = Seq::empty();
        let ghost mut sizes_v: Seq<Option<u64>> = Seq::empty();
        if target_kind == TargetKind::JavaBinary {
            let ghost dl = str_list(deps@);
            let ghost mut per: Seq<Seq<Seq<char>>> = Seq::empty();
            let mut more: Vec<String> = Vec::new();
            let mut k: usize = 0;
            while k < deps.len()
                invariant
                    graph.wf(),
                    k <= deps@.len(),
                    dl == str_list(deps@),
                    per.len() == k,
                    forall|i: int| 0 <= i < k ==> if spec_is_bazel_internal(dl[i]) {
                        (#[trigger] per[i]).len() == 0
                    } else {
                        own_jars_fit(graph@, dl[i], per[i])
                    },
                    str_list(more@) == flatten(per),
                decreases deps@.len() - k,
            {
                let dep = deps[k].as_str();
                let ghost per0 = per;
                if crate::labels::is_bazel_internal_label(dep) {
                    proof {
                        per = per.push(Seq::empty());
                        assert(per.drop_last() =~= per0);
                        assert(flatten(per) =~= flatten(per0) + Seq::<Seq<char>>::empty());
                    }
                } else {
                    let ps = own_jar_paths(graph, dep);
                    let ghost m0 = str_list(more@);
                    let mut m: usize = 0;
                    while m < ps.len()
                        invariant
                            m <= ps@.len(),
                            str_list(more@) == m0 + str_list(ps@).subrange(0, m as int),
                        decreases ps@.len() - m,
                    {
                        let ghost b = more@;
                        let p = ps[m].clone();
                        more.push(p);
                        proof {
                            crate::graph::lemma_str_list_push(b, p);
                            assert(m0 + str_list(ps@).subrange(0, m + 1) =~= (m0 + str_list(ps@).subrange(0, m as int)).push(p@));
                        }
                        m = m + 1;
                    }
                    proof {
                        assert(str_list(ps@).subrange(0, ps@.len() as int) =~= str_list(ps@));
                        per = per.push(str_list(ps@));
                        assert(per.drop_last() =~= per0);
                    }
                }
                proof {
                    assert forall|i: int| 0 <= i < k + 1 implies if spec_is_bazel_internal(dl[i]) {
                        (#[trigger] per[i]).len() == 0
                    } else {
                        own_jars_fit(graph@, dl[i], per[i])
                    } by {
                        if i < k {
                            assert(per[i] == per0[i]);
                        } else {
                            assert(dl[i] == dep@);
                        }
                    }
                }
                k = k + 1;
            }
            union_into(&mut output_jars, &more);
            proof {
                more_v = str_list(more@);
                assert(dep_jar_paths_fit(graph@, dl, more_v));
            }
            if output_jars.len() > 1 {
                let mut sizes: Vec<Option<u64>> = Vec::new();
                let mut m: usize = 0;
                while m < output_jars.len()
                    invariant
                        m <= output_jars@.len(),
                        sizes@.len() == m,
                    decreases output_jars@.len() - m,
                {
                    sizes.push(crate::paths::file_size(output_jars[m].as_str()));
                    m = m + 1;
                }
                proof {
                    sizes_v = sizes@;
                }
                output_jars = retain_by_size(&output_jars, &sizes);
            }
        }
        let cp = ComputedClasspath {
            target_label: owned(target_label),
            entries,
            source_roots: Vec::new(),
            generated_source_dirs: Vec::new(),
            annotation_processors: Vec::new(),
            output_jars,
        };
        proof {
            let ds = records@.map_values(|d: DepJars| d@);
            assert(is_dep_list(graph@, target_label@, str_list(deps@)));
            assert(dep_jars_fit(graph@, str_list(deps@), is_test_context, ws_view(workspace_root), ds));
            assert(own_jars_fit(graph@, target_label@, own));
            if target_kind == TargetKind::JavaBinary {
                assert(binary_out_ok(graph@, str_list(deps@), own, more_v, sizes_v, str_list(cp.output_jars@)));
            }
            assert(outputs_ok(graph@, target_label@, str_list(deps@), target_kind, own, str_list(cp.output_jars@)));
            assert(library_parts_ok(graph@, target_label@, is_test_context, ws_view(workspace_root), target_kind, str_list(deps@), ds, cp));
        }
        Ok(cp)
    }
}


/// Access rules with those of `new` whose pattern is not yet present.
fn merged_rules(ex: &Vec<AccessRule>, new: &Vec<AccessRule>) -> (r: Vec<AccessRule>)
    ensures
        rules_view(r@) == add_rules(rules_view(ex@), rules_view(new@)),
{
    let mut r = copy_rules(ex);
    let ghost nv = rules_view(new@);
    let mut k: usize = 0;
    while k < new.len()
        invariant
            k <= new@.len(),
            nv == rules_view(new@),
            rules_view(r@) == add_rules(rules_view(ex@), nv.subrange(0, k as int)),
        decreases new@.len() - k,
    {
        proof {
            assert(nv.subrange(0, k + 1).drop_last() =~= nv.subrange(0, k as int));
            assert(nv.subrange(0, k + 1).last() == new@[k as int]@);
        }
        let ghost rv = rules_view(r@);
        let mut found = false;
        let mut m: usize = 0;
        while m < r.len()
            invariant
                m <= r@.len(),
                k < new@.len(),
                rv == rules_view(r@),
                found == exists|i: int| 0 <= i < m && rv[i].pattern == new@[k as int].pattern@,
            decreases r@.len() - m,
        {
            proof {
                assert(rv[m as int] == r@[m as int]@);
            }
            if str_eq(r[m].pattern.as_str(), new[k].pattern.as_str()) {
                found = true;
            }
            m = m + 1;
        }
        if !found {
            let ghost r0 = r@;
            let rule = AccessRule { pattern: new[k].pattern.clone(), is_accessible: new[k].is_accessible };
            r.push(rule);
            proof {
                assert(r@ == r0.push(rule));
                assert(rules_view(r@) =~= rules_view(r0).push(new@[k as int]@));
            }
        }
        k = k + 1;
    }
    proof {
        assert(nv.subrange(0, new@.len() as int) =~= nv);
    }
    r
}

/// An entry merged into an equal-keyed one (see [`merge_into`]).
fn merged_entry(ex: &ClasspathEntry, e: &ClasspathEntry) -> (r: ClasspathEntry)
    ensures
        r@ == merge_into(ex@, e@),
{
    let source = if ex.source_attachment_path.is_none() && e.source_attachment_path.is_some() {
        copy_opt(&e.source_attachment_path)
    } else {
        copy_opt(&ex.source_attachment_path)
    };
    ClasspathEntry {
        entry_type: ex.entry_type,
        path: ex.path.clone(),
        source_attachment_path: source,
        is_test: ex.is_test && e.is_test,
        is_exported: ex.is_exported || e.is_exported,
        access_rules: merged_rules(&ex.access_rules, &e.access_rules),
        visibility: copy_visibility(&ex.visibility),
    }
}

/// The merge key of an entry (see [`merge_key`]).
fn key_of(e: &ClasspathEntry) -> (k: String)
    ensures
        k@ == merge_key(e@),
{
    let mut k = match e.entry_type {
        ClasspathEntryType::Library => owned("LIB"),
        ClasspathEntryType::Project => owned("PROJ"),
        ClasspathEntryType::Source => owned("SRC"),
    };
    push_char(&mut k, '|');
    append_str(&mut k, e.path.as_str());
    k
}

/// Merges one entry into the map.
fn merge_one(m: &mut indexmap::IndexMap<String, ClasspathEntry, std::hash::RandomState>, e: &ClasspathEntry)
    requires
        crate::assoc::keys_unique(merged_pairs(*old(m))),
    ensures
        crate::assoc::keys_unique(merged_pairs(*final(m))),
        merged_pairs(*final(m)) == merge_entry(merged_pairs(*old(m)), e@),
{
    let ghost g = merged_pairs(*m);
    let key = key_of(e);
    match merged_index_of(m, key.as_str()) {
        Some(i) => {
            let merged = merged_entry(merged_at(m, i), e);
            merged_set_at(m, i, merged);
            proof {
                let c = choose|c: int| 0 <= c < g.len() && g[c].0 == merge_key(e@);
                assert(c == i);
                assert forall|a: int, b: int| 0 <= a < b < merged_pairs(*m).len() implies merged_pairs(*m)[a].0 != merged_pairs(*m)[b].0 by {
                    assert(merged_pairs(*m)[a].0 == g[a].0);
                    assert(merged_pairs(*m)[b].0 == g[b].0);
                }
            }
        },
        None => {
            let c = entry_with_source(e, copy_opt(&e.source_attachment_path));
            merged_insert_new(m, key, c);
            proof {
                assert forall|a: int, b: int| 0 <= a < b < merged_pairs(*m).len() implies merged_pairs(*m)[a].0 != merged_pairs(*m)[b].0 by {
                    if b < g.len() {
                        assert(merged_pairs(*m)[a].0 == g[a].0);
                        assert(merged_pairs(*m)[b].0 == g[b].0);
                    } else {
                        assert(merged_pairs(*m)[a].0 == g[a].0);
                    }
                }
            }
        },
    }
}

/// Labels joined with `+`.
fn join_labels(labels: &[&str]) -> (r: String)
    ensures
        r@ == join_with(labels@.map_values(|l: &str| l@), seq!['+']),
{
    let ghost lv = labels@.map_values(|l: &str| l@);
    let mut r = String::new();
    let mut k: usize = 0;
    while k < labels.len()
        invariant
            k <= labels@.len(),
            lv == labels@.map_values(|l: &str| l@),
            r@ == join_with(lv.subrange(0, k as int), seq!['+']),
        decreases labels@.len() - k,
    {
        let ghost before = r@;
        if k > 0 {
            push_char(&mut r, '+');
        }
        append_str(&mut r, labels[k]);
        proof {
            let sub = lv.subrange(0, k + 1);
            assert(sub.drop_last() =~= lv.subrange(0, k as int));
            assert(sub.last() == labels@[k as int]@);
            if k == 0 {
                assert(r@ =~= sub[0]);
            } else {
                assert(r@ =~= before + seq!['+'] + sub.last());
            }
        }
        k = k + 1;
    }
    proof {
        assert(lv.subrange(0, labels@.len() as int) =~= lv);
    }
    r
}

/// Merges the classpaths computed for several targets (`None` for those
/// that failed): see [`merged_fit`].
pub fn merge_classpaths(labels: &[&str], parts: &Vec<Option<ComputedClasspath>>) -> (cp: ComputedClasspath)
    ensures
        merged_fit(labels@.map_values(|l: &str| l@), parts_view(parts@), cp),
{
    let ghost pv = parts_view(parts@);
    let mut map = merged_new();
    let mut all_out: Vec<String> = Vec::new();
    let mut k: usize = 0;
    proof {
        assert(crate::assoc::keys_unique(merged_pairs(map)));
    }
    while k < parts.len()
        invariant
            k <= parts@.len(),
            pv == parts_view(parts@),
            crate::assoc::keys_unique(merged_pairs(map)),
            merged_pairs(map) == merge_parts(pv.subrange(0, k as int)),
            str_list(all_out@) == parts_outputs(pv.subrange(0, k as int)),
        decreases parts@.len() - k,
    {
        proof {
            assert(pv.subrange(0, k + 1).drop_last() =~= pv.subrange(0, k as int));
            assert(pv.subrange(0, k + 1).last() == pv[k as int]);
        }
        match &parts[k] {
            Some(c) => {
                let ghost g0 = merged_pairs(map);
                let ghost ev = entries_view(c.entries@);
                let mut m: usize = 0;
                while m < c.entries.len()
                    invariant
                        m <= c.entries@.len(),
                        ev == entries_view(c.entries@),
                        crate::assoc::keys_unique(merged_pairs(map)),
                        merged_pairs(map) == merge_entries(g0, ev.subrange(0, m as int)),
                    decreases c.entries@.len() - m,
                {
                    proof {
                        assert(ev.subrange(0, m + 1).drop_last() =~= ev.subrange(0, m as int));
                        assert(ev.subrange(0, m + 1).last() == c.entries@[m as int]@);
                    }
                    merge_one(&mut map, &c.entries[m]);
                    m = m + 1;
                }
                proof {
                    assert(ev.subrange(0, c.entries@.len() as int) =~= ev);
                }
                let ghost o0 = str_list(all_out@);
                let mut m: usize = 0;
                while m < c.output_jars.len()
                    invariant
                        m <= c.output_jars@.len(),
                        str_list(all_out@) == o0 + str_list(c.output_jars@).subrange(0, m as int),
                    decreases c.output_jars@.len() - m,
                {
                    let ghost b = all_out@;
                    let p = c.output_jars[m].clone();
                    all_out.push(p);
                    proof {
                        crate::graph::lemma_str_list_push(b, p);
                        assert(o0 + str_list(c.output_jars@).subrange(0, m + 1) =~= (o0 + str_list(c.output_jars@).subrange(0, m as int)).push(p@));
                    }
                    m = m + 1;
                }
                proof {
                    assert(str_list(c.output_jars@).subrange(0, c.output_jars@.len() as int) =~= str_list(c.output_jars@));
                }
            },
            None => {},
        }
        k = k + 1;
    }
    proof {
        assert(pv.subrange(0, parts@.len() as int) =~= pv);
    }
    let entries = merged_into_values(map);
    let output_jars = crate::order::sorted_distinct(&all_out);
    ComputedClasspath {
        target_label: join_labels(labels),
        entries,
        source_roots: Vec::new(),
        generated_source_dirs: Vec::new(),
        annotation_processors: Vec::new(),
        output_jars,
    }
}

impl ComputedClasspath {
    /// The pipe-delimited entries handed to the IDE: first each output JAR
    /// (the target's own compiled JARs) that no entry names, as
    /// `LIB|path||false|false|`, then each entry as
    /// `TYPE|path|source|is_test|is_exported|access_rules`.
    pub fn to_pipe_delimited_entries(&self) -> (r: Vec<String>)
        ensures
            str_list(r@) == pipe_lines(str_list(self.output_jars@), entries_view(self.entries@)),
    {
        let ghost es = entries_view(self.entries@);
        let ghost paths = es.map_values(|e: EntryView| e.path);
        let ghost outs = str_list(self.output_jars@);
        let mut result: Vec<String> = Vec::new();
        let mut k: usize = 0;
        while k < self.output_jars.len()
            invariant
                k <= self.output_jars@.len(),
                es == entries_view(self.entries@),
                paths == es.map_values(|e: EntryView| e.path),
                outs == str_list(self.output_jars@),
                str_list(result@) == output_lines(outs.subrange(0, k as int), paths),
            decreases self.output_jars@.len() - k,
        {
            proof {
                assert(outs.subrange(0, k + 1).drop_last() =~= outs.subrange(0, k as int));
                assert(outs.subrange(0, k + 1).last() == self.output_jars@[k as int]@);
            }
            let jar = self.output_jars[k].as_str();
            let mut named = false;
            let mut m: usize = 0;
            while m < self.entries.len()
                invariant
                    m <= self.entries@.len(),
                    es == entries_view(self.entries@),
                    paths == es.map_values(|e: EntryView| e.path),
                    named == exists|x: int| 0 <= x < m && paths[x] == jar@,
                decreases self.entries@.len() - m,
            {
                if str_eq(self.entries[m].path.as_str(), jar) {
                    named = true;
                }
                proof {
                    assert(paths[m as int] == self.entries@[m as int].path@);
                }
                m = m + 1;
            }
            proof {
                if named {
                    let x = choose|x: int| 0 <= x < self.entries@.len() && paths[x] == jar@;
                    assert(paths.contains(jar@));
                } else {
                    assert(!paths.contains(jar@));
                }
            }
            if !named {
                let mut line = owned("LIB|");
                append_str(&mut line, jar);
                append_str(&mut line, "||false|false|");
                let ghost r0 = result@;
                result.push(line);
                proof {
                    crate::graph::lemma_str_list_push(r0, line);
                    assert(line@ =~= output_jar_line(jar@));
                }
            }
            k = k + 1;
        }
        proof {
            assert(outs.subrange(0, self.output_jars@.len() as int) =~= outs);
        }
        let ghost head = str_list(result@);
        let mut k: usize = 0;
        while k < self.entries.len()
            invariant
                k <= self.entries@.len(),
                es == entries_view(self.entries@),
                str_list(result@) == head + es.map_values(|e: EntryView| entry_line(e)).subrange(0, k as int),
            decreases self.entries@.len() - k,
        {
            let line = entry_text(&self.entries[k]);
            let ghost r0 = result@;
            result.push(line);
            proof {
                crate::graph::lemma_str_list_push(r0, line);
                assert(es[k as int] == self.entries@[k as int]@);
                assert(head + es.map_values(|e: EntryView| entry_line(e)).subrange(0, k + 1) =~= (head + es.map_values(|e: EntryView| entry_line(e)).subrange(0, k as int)).push(line@));
            }
            k = k + 1;
        }
        proof {
            assert(es.map_values(|e: EntryView| entry_line(e)).subrange(0, self.entries@.len() as int) =~= es.map_values(|e: EntryView| entry_line(e)));
        }
        result
    }

    /// The JARs that more than one library entry names, with their number
    /// of entries, in order of first appearance.
    pub fn detect_duplicate_jars(&self) -> (r: Vec<JarConflict>)
        ensures
            conflicts_view(r@) == spec_conflicts(entries_view(self.entries@)),
    {
        let ghost es = entries_view(self.entries@);
        let mut seen: Vec<String> = Vec::new();
        let mut counts: Vec<usize> = Vec::new();
        let mut k: usize = 0;
        while k < self.entries.len()
            invariant
                k <= self.entries@.len(),
                es == entries_view(self.entries@),
                seen@.len() == counts@.len(),
                str_list(seen@) == distinct(lib_paths(es.subrange(0, k as int))),
                forall|i: int| 0 <= i < counts@.len() ==> #[trigger] counts@[i] == count_of(lib_paths(es.subrange(0, k as int)), seen@[i]@),
                lib_paths(es.subrange(0, k as int)).len() <= k,
            decreases self.entries@.len() - k,
        {
            let ghost pre = lib_paths(es.subrange(0, k as int));
            proof {
                assert(es.subrange(0, k + 1).drop_last() =~= es.subrange(0, k as int));
                assert(es.subrange(0, k + 1).last() == self.entries@[k as int]@);
            }
            if self.entries[k].entry_type == ClasspathEntryType::Library {
                let p = self.entries[k].path.as_str();
                proof {
                    assert(lib_paths(es.subrange(0, k + 1)) == pre.push(p@));
                    lemma_distinct_contains(pre);
                    assert(pre.push(p@).drop_last() =~= pre);
                }
                match crate::assoc::find_str(&seen, p) {
                    Some(i) => {
                        proof {
                            lemma_count_le(pre, p@);
                            assert(str_list(seen@)[i as int] == p@);
                            assert(distinct(pre).contains(p@));
                        }
                        let c = counts[i];
                        counts.set(i, c + 1);
                        proof {
                            assert forall|j: int| 0 <= j < counts@.len() implies #[trigger] counts@[j] == count_of(pre.push(p@), seen@[j]@) by {
                                lemma_count_push(pre, p@, seen@[j]@);
                                if j != i {
                                    assert(str_list(seen@)[j] == seen@[j]@);
                                    assert(distinct(pre).no_duplicates());
                                }
                            }
                        }
                    },
                    None => {
                        let ghost s0 = seen@;
                        seen.push(owned(p));
                        counts.push(1);
                        proof {
                            assert(!distinct(pre).contains(p@)) by {
                                if distinct(pre).contains(p@) {
                                    let x = choose|x: int| 0 <= x < distinct(pre).len() && distinct(pre)[x] == p@;
                                    assert(str_list(s0)[x] == s0[x]@);
                                }
                            }
                            assert(str_list(seen@) =~= distinct(pre).push(p@));
                            assert(!pre.contains(p@));
                            assert forall|j: int| 0 <= j < counts@.len() implies #[trigger] counts@[j] == count_of(pre.push(p@), seen@[j]@) by {
                                lemma_count_push(pre, p@, seen@[j]@);
                                if j == counts@.len() - 1 {
                                    assert(count_of(pre, p@) == 0) by {
                                        lemma_count_zero(pre, p@);
                                    }
                                } else {
                                    assert(str_list(seen@)[j] == seen@[j]@);
                                    assert(seen@[j] == s0[j]);
                                    assert(str_list(s0)[j] == s0[j]@);
                                    assert(distinct(pre)[j] != p@);
                                }
                            }
                        }
                    },
                }
            } else {
                proof {
                    assert(lib_paths(es.subrange(0, k + 1)) == pre);
                }
            }
            k = k + 1;
        }
        proof {
            assert(es.subrange(0, self.entries@.len() as int) =~= es);
        }
        let ghost all = lib_paths(es);
        let mut r: Vec<JarConflict> = Vec::new();
        let mut i: usize = 0;
        while i < seen.len()
            invariant
                i <= seen@.len(),
                seen@.len() == counts@.len(),
                all == lib_paths(es),
                es == entries_view(self.entries@),
                str_list(seen@) == distinct(all),
                forall|j: int| 0 <= j < counts@.len() ==> #[trigger] counts@[j] == count_of(all, seen@[j]@),
                conflicts_view(r@) == conflicts_among(distinct(all).subrange(0, i as int), all),
            decreases seen@.len() - i,
        {
            proof {
                assert(distinct(all).subrange(0, i + 1).drop_last() =~= distinct(all).subrange(0, i as int));
                assert(distinct(all).subrange(0, i + 1).last() == seen@[i as int]@);
            }
            if counts[i] > 1 {
                let ghost r0 = r@;
                r.push(JarConflict { jar_path: seen[i].clone(), occurrences: counts[i] });
                proof {
                    assert(conflicts_view(r@) =~= conflicts_view(r0).push((seen@[i as int]@, counts@[i as int] as nat)));
                }
            }
            i = i + 1;
        }
        proof {
            assert(distinct(all).subrange(0, seen@.len() as int) =~= distinct(all));
        }
        r
    }

    /// The merged classpath of several targets: nothing for no target; the
    /// classpath of the target (of its recorded kind) for one; otherwise
    /// the classpaths of all targets that have one, merged (see
    /// [`merged_fit`]); targets whose classpath fails are skipped.
    pub fn compute_for_targets(graph: &DependencyGraph, labels: &[&str], workspace_root: Option<&str>) -> (r: Result<Self, GraphError>)
        requires
            graph.wf(),
        ensures
            targets_result(graph@, labels@.map_values(|l: &str| l@), ws_view(workspace_root), r),
    {
        if labels.len() == 0 {
            return Ok(ComputedClasspath {
                target_label: String::new(),
                entries: Vec::new(),
                source_roots: Vec::new(),
                generated_source_dirs: Vec::new(),
                annotation_processors: Vec::new(),
                output_jars: Vec::new(),
            });
        }
        if labels.len() == 1 {
            let kind = graph.get_target_kind(labels[0]);
            return Self::compute_for(graph, labels[0], kind, workspace_root);
        }
        let mut parts: Vec<Option<ComputedClasspath>> = Vec::new();
        let mut k: usize = 0;
        while k < labels.len()
            invariant
                graph.wf(),
                k <= labels@.len(),
                parts@.len() == k,
                forall|i: int| 0 <= i < k ==> part_fit(graph@, labels@[i]@, ws_view(workspace_root), #[trigger] parts@[i]),
            decreases labels@.len() - k,
        {
            let kind = graph.get_target_kind(labels[k]);
            let p = match Self::compute_for(graph, labels[k], kind, workspace_root) {
                Ok(cp) => Some(cp),
                Err(e) => {
                    proof {
                        assert(classpath_error(graph@, labels@[k as int]@, kind, e));
                    }
                    None
                },
            };
            let ghost p0 = parts@;
            parts.push(p);
            proof {
                assert forall|i: int| 0 <= i < k + 1 implies part_fit(graph@, labels@[i]@, ws_view(workspace_root), #[trigger] parts@[i]) by {
                    if i < k {
                        assert(parts@[i] == p0[i]);
                    }
                }
            }
            k = k + 1;
        }
        Ok(merge_classpaths(labels, &parts))
    }

    /// Keeps every entry: visibility is enforced by Bazel when the aspect
    /// resolves the classpath.
    pub fn filter_by_visibility(&mut self, requesting_package: &str)
        ensures
            entries_view(final(self).entries@) == entries_view(old(self).entries@),
            str_list(final(self).output_jars@) == str_list(old(self).output_jars@),
            final(self).target_label@ == old(self).target_label@,
    {
    }
}

/// The keyed entries of a list of entries.
pub open spec fn keyed(es: Seq<EntryView>) -> Seq<(Seq<char>, EntryView)> {
    es.map_values(|e: EntryView| (merge_key(e), e))
}

/// Merging keeps each key (entry type and path) once: when the merged
/// pairs start with distinct keys, they stay distinct.
pub proof fn law_merge_keeps_keys_distinct(g: Seq<(Seq<char>, EntryView)>, es: Seq<EntryView>)
    requires
        crate::assoc::keys_unique(g),
    ensures
        crate::assoc::keys_unique(merge_entries(g, es)),
    decreases es.len(),
{
    if es.len() > 0 {
        law_merge_keeps_keys_distinct(g, es.drop_last());
        let h = merge_entries(g, es.drop_last());
        let k = merge_key(es.last());
        if exists|i: int| 0 <= i < h.len() && h[i].0 == k {
            let i = choose|i: int| 0 <= i < h.len() && h[i].0 == k;
            let h2 = h.update(i, (k, merge_into(h[i].1, es.last())));
            assert forall|a: int, b: int| 0 <= a < b < h2.len() implies h2[a].0 != h2[b].0 by {
                assert(h2[a].0 == h[a].0);
                assert(h2[b].0 == h[b].0);
            }
        } else {
            let h2 = h.push((k, es.last()));
            assert forall|a: int, b: int| 0 <= a < b < h2.len() implies h2[a].0 != h2[b].0 by {
                if b == h.len() {
                    assert(h2[a] == h[a]);
                } else {
                    assert(h2[a] == h[a] && h2[b] == h[b]);
                }
            }
        }
    }
}

/// Merging entries that already have distinct keys changes nothing: the
/// merged classpath of a single target lists that target's entries as
/// they were, in order.
pub proof fn law_merge_distinct_is_identity(es: Seq<EntryView>)
    requires
        forall|i: int, j: int| 0 <= i < j < es.len() ==> merge_key(#[trigger] es[i]) != merge_key(#[trigger] es[j]),
    ensures
        merge_entries(Seq::empty(), es) == keyed(es),
    decreases es.len(),
{
    if es.len() > 0 {
        let init = es.drop_last();
        assert forall|i: int, j: int| 0 <= i < j < init.len() implies merge_key(#[trigger] init[i]) != merge_key(#[trigger] init[j]) by {
            assert(init[i] == es[i] && init[j] == es[j]);
        }
        law_merge_distinct_is_identity(init);
        let h = merge_entries(Seq::empty(), init);
        let k = merge_key(es.last());
        assert(!(exists|i: int| 0 <= i < h.len() && h[i].0 == k)) by {
            if exists|i: int| 0 <= i < h.len() && h[i].0 == k {
                let i = choose|i: int| 0 <= i < h.len() && h[i].0 == k;
                assert(h[i] == (merge_key(init[i]), init[i]));
                assert(init[i] == es[i]);
                assert(es[es.len() - 1] == es.last());
            }
        }
        assert(merge_entries(Seq::empty(), es) =~= keyed(es));
    }
}


/// What computing the classpath of a target of the given kind gives: a
/// fitting classpath, or the error it fails with.
pub open spec fn for_result(v: GraphView, label: Seq<char>, kind: TargetKind, ws: Option<Seq<char>>, r: Result<ComputedClasspath, GraphError>) -> bool {
    match r {
        Ok(cp) => classpath_fit(v, label, kind, ws, cp),
        Err(e) => classpath_error(v, label, kind, e),
    }
}

/// What computing the merged classpath of several targets gives: nothing
/// for no target; the classpath of the only target, of its recorded kind;
/// otherwise the merge of the classpaths that could be computed.
pub open spec fn targets_result(v: GraphView, labels: Seq<Seq<char>>, ws: Option<Seq<char>>, r: Result<ComputedClasspath, GraphError>) -> bool {
    &&& labels.len() == 0 ==> (r matches Ok(cp) && empty_classpath(cp))
    &&& labels.len() == 1 ==> for_result(v, labels[0], crate::graph::spec_target_kind(v, labels[0]), ws, r)
    &&& labels.len() > 1 ==> (r matches Ok(cp) && exists|parts: Seq<Option<ComputedClasspath>>| {
        &&& parts.len() == labels.len()
        &&& forall|i: int| 0 <= i < parts.len() ==> part_fit(v, labels[i], ws, #[trigger] parts[i])
        &&& merged_fit(labels, parts_view(parts), cp)
    })
}

/// The merged classpath of a single target is that target's classpath, for
/// the kind the graph records for it.
pub proof fn law_single_target_merge_is_its_classpath(
    v: GraphView,
    label: Seq<char>,
    ws: Option<Seq<char>>,
    r: Result<ComputedClasspath, GraphError>,
)
    ensures
        targets_result(v, seq![label], ws, r) <==> for_result(v, label, crate::graph::spec_target_kind(v, label), ws, r),
{
}

/// Every project entry names a workspace target: none starts with `'@'`.
pub open spec fn projects_in_workspace(es: Seq<EntryView>) -> bool {
    forall|i: int| 0 <= i < es.len() && (#[trigger] es[i]).entry_type == ClasspathEntryType::Project ==> !seq_starts_with(es[i].path, "@"@)
}

/// The first library entry with a path, when there is one, is a library
/// entry with that path.
proof fn lemma_lib_index(es: Seq<EntryView>, path: Seq<char>)
    ensures
        lib_index(es, path) matches Some(i) ==> 0 <= i < es.len() && es[i].entry_type == ClasspathEntryType::Library && es[i].path == path,
{
    if exists|i: int| 0 <= i < es.len() && es[i].entry_type == ClasspathEntryType::Library && es[i].path == path {
        let w = choose|i: int| 0 <= i < es.len() && es[i].entry_type == ClasspathEntryType::Library && es[i].path == path;
        lemma_lib_index_below(es, path, w);
    }
}

/// A library entry with the path at `w` or before it is the first one.
proof fn lemma_lib_index_below(es: Seq<EntryView>, path: Seq<char>, w: int)
    requires
        0 <= w < es.len(),
        es[w].entry_type == ClasspathEntryType::Library,
        es[w].path == path,
    ensures
        lib_index(es, path) matches Some(i) && 0 <= i < es.len() && es[i].entry_type == ClasspathEntryType::Library && es[i].path == path,
    decreases w,
{
    if exists|j: int| 0 <= j < w && es[j].entry_type == ClasspathEntryType::Library && es[j].path == path {
        let j = choose|j: int| 0 <= j < w && es[j].entry_type == ClasspathEntryType::Library && es[j].path == path;
        lemma_lib_index_below(es, path, j);
    } else {
        assert(0 <= w < es.len() && es[w].entry_type == ClasspathEntryType::Library && es[w].path == path && forall|j: int|
            0 <= j < w ==> !(es[j].entry_type == ClasspathEntryType::Library && es[j].path == path));
    }
}

/// Adding JARs adds no project entry.
proof fn lemma_add_libs_projects(es: Seq<EntryView>, us: Seq<(Seq<char>, Option<Seq<char>>)>, is_test: bool)
    requires
        projects_in_workspace(es),
    ensures
        projects_in_workspace(add_libs(es, us, is_test)),
    decreases us.len(),
{
    if us.len() > 0 {
        let e0 = add_libs(es, us.drop_last(), is_test);
        lemma_add_libs_projects(es, us.drop_last(), is_test);
        lemma_lib_index(e0, us.last().0);
        let e1 = add_libs(es, us, is_test);
        assert forall|i: int| 0 <= i < e1.len() && (#[trigger] e1[i]).entry_type == ClasspathEntryType::Project implies !seq_starts_with(e1[i].path, "@"@) by {
            match lib_index(e0, us.last().0) {
                Some(k) => {
                    if i != k {
                        assert(e1[i] == e0[i]);
                    }
                },
                None => {
                    if i < e0.len() {
                        assert(e1[i] == e0[i]);
                    }
                },
            }
        }
    }
}

/// The project entries of a library classpath name workspace targets.
proof fn lemma_library_entries_projects(ds: Seq<DepJarsView>)
    ensures
        projects_in_workspace(library_entries(ds)),
    decreases ds.len(),
{
    if ds.len() > 0 {
        let e0 = library_entries(ds.drop_last());
        lemma_library_entries_projects(ds.drop_last());
        let d = ds.last();
        if !spec_is_bazel_internal(d.label) {
            let e1 = if !seq_starts_with(d.label, "@"@) {
                e0.push(proj_entry(d.label, d.is_test))
            } else {
                e0
            };
            assert(projects_in_workspace(e1)) by {
                assert forall|i: int| 0 <= i < e1.len() && (#[trigger] e1[i]).entry_type == ClasspathEntryType::Project implies !seq_starts_with(e1[i].path, "@"@) by {
                    if i < e0.len() {
                        assert(e1[i] == e0[i]);
                    }
                }
            }
            match d.jars {
                Some(us) => lemma_add_libs_projects(e1, us, d.is_test),
                None => {},
            }
        }
    }
}

/// A computed classpath lists only workspace targets as project entries:
/// no project entry names an external target (one whose label starts with
/// `'@'`).
pub proof fn law_project_entries_are_workspace_targets(
    v: GraphView,
    label: Seq<char>,
    kind: TargetKind,
    ws: Option<Seq<char>>,
    cp: ComputedClasspath,
)
    requires
        classpath_fit(v, label, kind, ws, cp),
    ensures
        projects_in_workspace(entries_view(cp.entries@)),
{
    if kind == TargetKind::JavaImport {
        match spec_get_jars(v, label) {
            None => {},
            Some(js) => {
                let us = choose|us: Seq<(Seq<char>, Option<Seq<char>>)>| {
                    &&& uses_fit(Some(js), Some(us), label, None)
                    &&& entries_view(cp.entries@) == import_entries(us)
                };
                let es = import_entries(us);
                assert forall|i: int| 0 <= i < es.len() && (#[trigger] es[i]).entry_type == ClasspathEntryType::Project implies !seq_starts_with(es[i].path, "@"@) by {
                    assert(es[i].entry_type == ClasspathEntryType::Library);
                }
            },
        }
    } else {
        let is_test = kind == TargetKind::JavaTest;
        let (deps, ds) = choose|deps: Seq<Seq<char>>, ds: Seq<DepJarsView>| #[trigger] library_parts_ok(v, label, is_test, ws, kind, deps, ds, cp);
        lemma_library_entries_projects(ds);
    }
}

/// No entry is marked as a test entry.
pub open spec fn no_test_entries(es: Seq<EntryView>) -> bool {
    forall|i: int| 0 <= i < es.len() ==> !(#[trigger] es[i]).is_test
}

/// Adding JARs of a non-test dependency marks no entry as a test entry.
proof fn lemma_add_libs_no_test(es: Seq<EntryView>, us: Seq<(Seq<char>, Option<Seq<char>>)>)
    requires
        no_test_entries(es),
    ensures
        no_test_entries(add_libs(es, us, false)),
    decreases us.len(),
{
    if us.len() > 0 {
        let e0 = add_libs(es, us.drop_last(), false);
        lemma_add_libs_no_test(es, us.drop_last());
        lemma_lib_index(e0, us.last().0);
        let p = us.last().0;
        let src = us.last().1;
        let e1 = add_lib(e0, p, src, false);
        assert(add_libs(es, us, false) == e1);
        match lib_index(e0, p) {
            Some(k) => {
                if e0[k].source is None && src is Some {
                    let u = EntryView { source: src, ..e0[k] };
                    assert(e1 == e0.update(k, u));
                    assert(!u.is_test);
                    assert forall|i: int| 0 <= i < e1.len() implies !(#[trigger] e1[i]).is_test by {
                        if i != k {
                            assert(e1[i] == e0[i]);
                        }
                    }
                } else {
                    assert(e1 == e0);
                }
            },
            None => {
                assert(e1 == e0.push(lib_entry(p, src, false)));
                assert forall|i: int| 0 <= i < e1.len() implies !(#[trigger] e1[i]).is_test by {
                    if i < e0.len() {
                        assert(e1[i] == e0[i]);
                    }
                }
            },
        }
    }
}

/// The entries built from non-test dependency records are not test
/// entries.
proof fn lemma_library_entries_no_test(ds: Seq<DepJarsView>)
    requires
        forall|i: int| 0 <= i < ds.len() ==> !(#[trigger] ds[i]).is_test,
    ensures
        no_test_entries(library_entries(ds)),
    decreases ds.len(),
{
    if ds.len() > 0 {
        let e0 = library_entries(ds.drop_last());
        lemma_library_entries_no_test(ds.drop_last());
        let d = ds.last();
        assert(!d.is_test);
        if !spec_is_bazel_internal(d.label) {
            let e1 = if !seq_starts_with(d.label, "@"@) {
                e0.push(proj_entry(d.label, d.is_test))
            } else {
                e0
            };
            assert(no_test_entries(e1)) by {
                assert forall|i: int| 0 <= i < e1.len() implies !(#[trigger] e1[i]).is_test by {
                    if i < e0.len() {
                        assert(e1[i] == e0[i]);
                    }
                }
            }
            match d.jars {
                Some(us) => lemma_add_libs_no_test(e1, us),
                None => {},
            }
        }
    }
}

/// Only a test target's classpath marks entries as test entries: for any
/// other kind of target no entry is a test entry.
pub proof fn law_only_tests_have_test_entries(
    v: GraphView,
    label: Seq<char>,
    kind: TargetKind,
    ws: Option<Seq<char>>,
    cp: ComputedClasspath,
)
    requires
        classpath_fit(v, label, kind, ws, cp),
        kind != TargetKind::JavaTest,
    ensures
        no_test_entries(entries_view(cp.entries@)),
{
    if kind == TargetKind::JavaImport {
        match spec_get_jars(v, label) {
            None => {},
            Some(js) => {
                let us = choose|us: Seq<(Seq<char>, Option<Seq<char>>)>| {
                    &&& uses_fit(Some(js), Some(us), label, None)
                    &&& entries_view(cp.entries@) == import_entries(us)
                };
                let es = import_entries(us);
                assert forall|i: int| 0 <= i < es.len() implies !(#[trigger] es[i]).is_test by {
                    assert(es[i] == lib_entry(us[i].0, us[i].1, false));
                }
            },
        }
    } else {
        let (deps, ds) = choose|deps: Seq<Seq<char>>, ds: Seq<DepJarsView>| #[trigger] library_parts_ok(v, label, false, ws, kind, deps, ds, cp);
        assert forall|i: int| 0 <= i < ds.len() implies !(#[trigger] ds[i]).is_test by {
            assert(ds[i].is_test == (false && v.testonly.contains(deps[i])));
        }
        lemma_library_entries_no_test(ds);
    }
}

/// The index of the first `|` of `s`, or its length when it has none.
pub open spec fn bar_at(s: Seq<char>) -> int
    decreases s.len(),
{
    if s.len() == 0 {
        0
    } else if s[0] == '|' {
        0
    } else {
        1 + bar_at(s.drop_first())
    }
}

/// The `k`-th (from zero) of the `|`-separated fields of `s`; empty past
/// the last one.
pub open spec fn pipe_field(s: Seq<char>, k: nat) -> Seq<char>
    decreases k,
{
    let b = bar_at(s);
    if k == 0 {
        s.take(b)
    } else if b >= s.len() {
        Seq::empty()
    } else {
        pipe_field(s.skip(b + 1), (k - 1) as nat)
    }
}

/// A text without `|` ends at the first `|` after it.
proof fn lemma_bar_at(a: Seq<char>, b: Seq<char>)
    requires
        !a.contains('|'),
    ensures
        bar_at(a + b) == a.len() + bar_at(b),
    decreases a.len(),
{
    if a.len() > 0 {
        assert(a[0] != '|');
        assert((a + b)[0] == a[0]);
        assert((a + b).drop_first() =~= a.drop_first() + b);
        assert(!a.drop_first().contains('|')) by {
            if a.drop_first().contains('|') {
                let i = choose|i: int| 0 <= i < a.drop_first().len() && a.drop_first()[i] == '|';
                assert(a[i + 1] == '|');
            }
        }
        lemma_bar_at(a.drop_first(), b);
    } else {
        assert(a + b =~= b);
    }
}

/// The fields of `a|b`, for `a` without `|`: `a`, then those of `b`.
proof fn lemma_pipe_fields(a: Seq<char>, b: Seq<char>, k: nat)
    requires
        !a.contains('|'),
    ensures
        pipe_field(a + seq!['|'] + b, 0) == a,
        pipe_field(a + seq!['|'] + b, k + 1) == pipe_field(b, k),
{
    let s = a + seq!['|'] + b;
    assert(s =~= a + (seq!['|'] + b));
    lemma_bar_at(a, seq!['|'] + b);
    assert((seq!['|'] + b)[0] == '|');
    assert(bar_at(s) == a.len());
    assert(s.take(a.len() as int) =~= a);
    assert(s.skip(a.len() as int + 1) =~= b);
}

/// A text without `|` is a single field.
proof fn lemma_last_field(a: Seq<char>)
    requires
        !a.contains('|'),
    ensures
        pipe_field(a, 0) == a,
{
    lemma_bar_at(a, Seq::empty());
    assert(a + Seq::<char>::empty() =~= a);
    assert(a.take(a.len() as int) =~= a);
}

/// `true` and `false` and the type markers hold no `|`.
proof fn lemma_words_bar_free()
    ensures
        !"true"@.contains('|'),
        !"false"@.contains('|'),
        !"LIB"@.contains('|'),
        !"PROJ"@.contains('|'),
        !"SRC"@.contains('|'),
        "true"@ != "false"@,
{
    reveal_strlit("true");
    reveal_strlit("false");
    reveal_strlit("LIB");
    reveal_strlit("PROJ");
    reveal_strlit("SRC");
    assert("true"@.len() != "false"@.len());
}

/// In the pipe-delimited line of an entry whose path and source hold no
/// `|`, the fields are, in order: the type marker (`LIB`, `PROJ`, `SRC`),
/// the path, the source attachment (empty without one), `true` or `false`
/// for whether it is a test entry, `true` or `false` for whether it is
/// exported, and the access rules.
#[verifier::spinoff_prover]
#[verifier::rlimit(40)]
pub proof fn law_entry_line_fields(e: EntryView)
    requires
        !e.path.contains('|'),
        e.source matches Some(x) ==> !x.contains('|'),
    ensures
        e.entry_type == ClasspathEntryType::Library ==> pipe_field(entry_line(e), 0) == "LIB"@,
        e.entry_type == ClasspathEntryType::Project ==> pipe_field(entry_line(e), 0) == "PROJ"@,
        e.entry_type == ClasspathEntryType::Source ==> pipe_field(entry_line(e), 0) == "SRC"@,
        pipe_field(entry_line(e), 1) == e.path,
        pipe_field(entry_line(e), 2) == match e.source {
            Some(x) => x,
            None => Seq::empty(),
        },
        pipe_field(entry_line(e), 3) == if e.is_test { "true"@ } else { "false"@ },
        pipe_field(entry_line(e), 4) == if e.is_exported { "true"@ } else { "false"@ },
        !rules_text(e.access_rules).contains('|') ==> pipe_field(entry_line(e), 5) == rules_text(e.access_rules),
{
    lemma_words_bar_free();
    let t = type_tag(e.entry_type);
    let src = match e.source {
        Some(x) => x,
        None => Seq::empty(),
    };
    let bt = bool_text(e.is_test);
    let be = bool_text(e.is_exported);
    let rt = rules_text(e.access_rules);
    let bar = seq!['|'];
    let r4 = be + bar + rt;
    let r3 = bt + bar + r4;
    let r2 = src + bar + r3;
    let r1 = e.path + bar + r2;
    assert(entry_line(e) =~= t + bar + r1);
    assert(!src.contains('|'));
    lemma_pipe_fields(t, r1, 0);
    lemma_pipe_fields(t, r1, 1);
    lemma_pipe_fields(t, r1, 2);
    lemma_pipe_fields(t, r1, 3);
    lemma_pipe_fields(t, r1, 4);
    lemma_pipe_fields(e.path, r2, 0);
    lemma_pipe_fields(e.path, r2, 1);
    lemma_pipe_fields(e.path, r2, 2);
    lemma_pipe_fields(e.path, r2, 3);
    lemma_pipe_fields(src, r3, 0);
    lemma_pipe_fields(src, r3, 1);
    lemma_pipe_fields(src, r3, 2);
    lemma_pipe_fields(bt, r4, 0);
    lemma_pipe_fields(bt, r4, 1);
    lemma_pipe_fields(be, rt, 0);
    if !rt.contains('|') {
        lemma_last_field(rt);
    }
}

/// The pipe-delimited entries end with one line per entry, in the order
/// of the entries; before them stand only the lines of output JARs, each
/// `LIB|path||false|false|`.
pub proof fn law_pipe_lines_end_with_the_entries(outs: Seq<Seq<char>>, es: Seq<EntryView>)
    ensures
        pipe_lines(outs, es).len() >= es.len(),
        forall|i: int|
            0 <= i < es.len() ==> #[trigger] pipe_lines(outs, es)[pipe_lines(outs, es).len() - es.len() + i] == entry_line(es[i]),
{
}

/// The access rules field: nothing for no rules, else each rule as `+`
/// (accessible) or `-` (forbidden) followed by its pattern, the rules
/// separated by `:` in order.
pub proof fn law_access_rules_text(rs: Seq<AccessRuleView>, r: AccessRuleView)
    ensures
        rules_text(Seq::empty()) == Seq::<char>::empty(),
        rules_text(seq![r]) == seq![if r.is_accessible { '+' } else { '-' }] + r.pattern,
        rs.len() > 0 ==> rules_text(rs.push(r)) == rules_text(rs) + seq![':'] + seq![
            if r.is_accessible { '+' } else { '-' },
        ] + r.pattern,
{
    let f = |x: AccessRuleView| rule_text(x);
    assert(Seq::<AccessRuleView>::empty().map_values(f) =~= Seq::<Seq<char>>::empty());
    assert(seq![r].map_values(f) =~= seq![rule_text(r)]);
    if rs.len() > 0 {
        assert(rs.push(r).map_values(f) =~= rs.map_values(f).push(rule_text(r)));
        assert(rs.push(r).map_values(f).drop_last() =~= rs.map_values(f));
    }
}

/// The line of an output JAR whose path holds no `|` has the fields
/// `LIB`, the path, no source, `false` (not a test entry), `false` (not
/// exported) and no access rules.
#[verifier::spinoff_prover]
#[verifier::rlimit(40)]
pub proof fn law_output_jar_line_fields(p: Seq<char>)
    requires
        !p.contains('|'),
    ensures
        pipe_field(output_jar_line(p), 0) == "LIB"@,
        pipe_field(output_jar_line(p), 1) == p,
        pipe_field(output_jar_line(p), 2) == Seq::<char>::empty(),
        pipe_field(output_jar_line(p), 3) == "false"@,
        pipe_field(output_jar_line(p), 4) == "false"@,
        pipe_field(output_jar_line(p), 5) == Seq::<char>::empty(),
{
    lemma_words_bar_free();
    reveal_strlit("LIB|");
    reveal_strlit("||false|false|");
    reveal_strlit("LIB");
    reveal_strlit("false");
    let bar = seq!['|'];
    let e = Seq::<char>::empty();
    let f = "false"@;
    let r4 = f + bar + e;
    let r3 = f + bar + r4;
    let r2 = e + bar + r3;
    let r1 = p + bar + r2;
    assert(output_jar_line(p) =~= "LIB"@ + bar + r1);
    assert(!e.contains('|'));
    lemma_pipe_fields("LIB"@, r1, 0);
    lemma_pipe_fields("LIB"@, r1, 1);
    lemma_pipe_fields("LIB"@, r1, 2);
    lemma_pipe_fields("LIB"@, r1, 3);
    lemma_pipe_fields("LIB"@, r1, 4);
    lemma_pipe_fields(p, r2, 0);
    lemma_pipe_fields(p, r2, 1);
    lemma_pipe_fields(p, r2, 2);
    lemma_pipe_fields(p, r2, 3);
    lemma_pipe_fields(e, r3, 0);
    lemma_pipe_fields(e, r3, 1);
    lemma_pipe_fields(e, r3, 2);
    lemma_pipe_fields(f, r4, 0);
    lemma_pipe_fields(f, r4, 1);
    lemma_pipe_fields(f, e, 0);
    lemma_last_field(e);
}

/// Different output JARs give different lines.
proof fn lemma_output_line_injective(p: Seq<char>, q: Seq<char>)
    requires
        output_jar_line(p) == output_jar_line(q),
    ensures
        p == q,
{
    reveal_strlit("LIB|");
    reveal_strlit("||false|false|");
    assert(output_jar_line(p).len() == p.len() + 18);
    assert(output_jar_line(p).subrange(4, 4 + p.len() as int) =~= p);
    assert(output_jar_line(q).subrange(4, 4 + q.len() as int) =~= q);
}

/// The output JAR lines are the lines of exactly the output JARs that no
/// entry names, each of them once per time it is listed.
pub proof fn law_output_lines_are_the_unnamed_outputs(outs: Seq<Seq<char>>, paths: Seq<Seq<char>>, o: Seq<char>)
    ensures
        output_lines(outs, paths).contains(output_jar_line(o)) <==> (outs.contains(o) && !paths.contains(o)),
        forall|i: int|
            0 <= i < output_lines(outs, paths).len() ==> exists|j: int|
                0 <= j < outs.len() && !paths.contains(outs[j]) && #[trigger] output_lines(outs, paths)[i]
                    == output_jar_line(outs[j]),
    decreases outs.len(),
{
    broadcast use vstd::seq_lib::lemma_seq_contains_after_push;
    if outs.len() > 0 {
        let p = outs.drop_last();
        law_output_lines_are_the_unnamed_outputs(p, paths, o);
        assert(outs =~= p.push(outs.last()));
        if output_jar_line(outs.last()) == output_jar_line(o) {
            lemma_output_line_injective(outs.last(), o);
        }
        let r = output_lines(outs, paths);
        let rp = output_lines(p, paths);
        assert forall|i: int| 0 <= i < r.len() implies exists|j: int|
            0 <= j < outs.len() && !paths.contains(outs[j]) && #[trigger] r[i] == output_jar_line(outs[j]) by {
            if i < rp.len() {
                assert(r[i] == rp[i]);
                let j = choose|j: int| 0 <= j < p.len() && !paths.contains(p[j]) && rp[i] == output_jar_line(p[j]);
                assert(outs[j] == p[j]);
            } else {
                assert(outs[outs.len() - 1] == outs.last());
            }
        }
    }
}

} // verus!
