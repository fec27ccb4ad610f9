//! Where a target's JARs and their sources are on disk: artifact paths,
//! the effective classpath path of a JAR and the source-attachment chain.
use vstd::prelude::*;
use vstd::string::StringExecFns;
use crate::graph::{ResolvedJar, ResolvedJarView};
use crate::ide_info::{opt_view, spec_best_path, ArtifactLocation};
use crate::paths::{
    canonicalize, dir_entry_names, file_size, path_exists, path_file_name, path_file_name_of,
    path_file_stem, path_is_dir, path_join, path_join_of, path_parent, path_parent_of,
};
use crate::strutil::{
    chars_of, first_occurrence, last_occurrence, owned, push_char, rfind_chars, seq_contains_sub,
    seq_ends_with, seq_starts_with, str_contains, str_ends_with, str_starts_with, substring,
    find_chars,
};

verus! {

/// The path names a header JAR produced by `ijar`.
pub open spec fn spec_is_ijar(p: Seq<char>) -> bool {
    seq_contains_sub(p, "/_ijar/"@)
}

/// Whether a path names a header JAR produced by `ijar` (it holds a
/// `/_ijar/` component).
pub fn is_ijar_path(path: &str) -> (b: bool)
    ensures
        b == spec_is_ijar(path@),
{
    str_contains(path, "/_ijar/")
}

/// The compile JAR when it is usable on a classpath (not an `ijar`),
/// otherwise the full JAR.
pub open spec fn compile_fallback(j: ResolvedJarView) -> Seq<char> {
    match j.compile_jar_path {
        Some(c) => if spec_is_ijar(c) {
            j.full_jar_path
        } else {
            c
        },
        None => j.full_jar_path,
    }
}

/// The path a JAR is used by, given whether its full JAR and its runtime
/// JAR exist: the full JAR if it exists, else an existing runtime JAR,
/// else the compile JAR unless it is an `ijar`, else the full JAR.
pub open spec fn spec_effective_path(j: ResolvedJarView, full_exists: bool, runtime_exists: bool) -> Seq<char> {
    if full_exists {
        j.full_jar_path
    } else {
        match j.runtime_jar_path {
            Some(rt) => if runtime_exists {
                rt
            } else {
                compile_fallback(j)
            },
            None => compile_fallback(j),
        }
    }
}

/// `p` is one of the paths a JAR can be used by, whatever exists on disk.
pub open spec fn is_effective(j: ResolvedJarView, p: Seq<char>) -> bool {
    ||| p == spec_effective_path(j, true, true)
    ||| p == spec_effective_path(j, true, false)
    ||| p == spec_effective_path(j, false, true)
    ||| p == spec_effective_path(j, false, false)
}

impl ResolvedJar {
    /// The effective path for the given existence of the full and the
    /// runtime JAR.
    pub fn effective_path_given(&self, full_exists: bool, runtime_exists: bool) -> (r: &str)
        ensures
            r@ == spec_effective_path(self@, full_exists, runtime_exists),
    {
        if full_exists {
            return self.full_jar_path.as_str();
        }
        if let Some(rt) = &self.runtime_jar_path {
            if runtime_exists {
                return rt.as_str();
            }
        }
        match &self.compile_jar_path {
            Some(c) => {
                if is_ijar_path(c.as_str()) {
                    self.full_jar_path.as_str()
                } else {
                    c.as_str()
                }
            },
            None => self.full_jar_path.as_str(),
        }
    }

    /// The best available path at query time: the full JAR if it exists on
    /// disk, else the runtime JAR if it exists, else the compile JAR unless
    /// it is an `ijar`, else the full JAR.
    pub fn effective_path(&self) -> (r: &str)
        ensures
            is_effective(self@, r@),
    {
        let full_exists = path_exists(self.full_jar_path.as_str());
        let runtime_exists = match &self.runtime_jar_path {
            Some(rt) => {
                if full_exists {
                    false
                } else {
                    path_exists(rt.as_str())
                }
            },
            None => false,
        };
        self.effective_path_given(full_exists, runtime_exists)
    }
}

/// A source path made absolute: `bazel-out/...` is joined to the workspace
/// root; absolute and other relative paths are kept.
pub open spec fn spec_absolutize(p: Seq<char>, ws: Seq<char>) -> Seq<char> {
    if seq_starts_with(p, "/"@) {
        p
    } else if seq_starts_with(p, "bazel-out/"@) {
        path_join_of(ws, p)
    } else {
        p
    }
}

/// Makes a source path absolute (see [`spec_absolutize`]).
pub fn absolutize_source_path(path: &str, workspace_root: &str) -> (r: String)
    ensures
        r@ == spec_absolutize(path@, workspace_root@),
{
    if str_starts_with(path, "/") {
        return owned(path);
    }
    if str_starts_with(path, "bazel-out/") {
        return path_join(workspace_root, path);
    }
    owned(path)
}

/// The pieces of `s` between occurrences of `c` (`str::split`).
pub open spec fn split_char(s: Seq<char>, c: char) -> Seq<Seq<char>>
    decreases s.len(),
{
    if s.len() == 0 {
        seq![Seq::<char>::empty()]
    } else {
        let p = split_char(s.drop_last(), c);
        if s.last() == c {
            p.push(Seq::empty())
        } else {
            p.update(p.len() - 1, p.last().push(s.last()))
        }
    }
}

pub proof fn lemma_split_nonempty(s: Seq<char>, c: char)
    ensures
        split_char(s, c).len() >= 1,
    decreases s.len(),
{
    if s.len() > 0 {
        lemma_split_nonempty(s.drop_last(), c);
    }
}

/// Splits a string at every `c`.
pub fn split_at_char(s: &str, c: char) -> (r: Vec<String>)
    ensures
        crate::graph::str_list(r@) == split_char(s@, c),
{
    let cs = chars_of(s);
    let mut parts: Vec<String> = Vec::new();
    parts.push(String::new());
    let mut k: usize = 0;
    proof {
        assert(cs@.subrange(0, 0) =~= Seq::<char>::empty());
        assert(crate::graph::str_list(parts@) =~= seq![Seq::<char>::empty()]);
    }
    while k < cs.len()
        invariant
            k <= cs@.len(),
            cs@ == s@,
            parts@.len() >= 1,
            crate::graph::str_list(parts@) == split_char(cs@.subrange(0, k as int), c),
        decreases cs@.len() - k,
    {
        let ghost before = crate::graph::str_list(parts@);
        proof {
            assert(cs@.subrange(0, k + 1).drop_last() =~= cs@.subrange(0, k as int));
            assert(cs@.subrange(0, k + 1).last() == cs@[k as int]);
        }
        if cs[k] == c {
            parts.push(String::new());
            proof {
                assert(crate::graph::str_list(parts@) =~= before.push(Seq::empty()));
            }
        } else {
            let last = parts.len() - 1;
            let mut piece = parts[last].clone();
            push_char(&mut piece, cs[k]);
            parts.set(last, piece);
            proof {
                assert(crate::graph::str_list(parts@) =~= before.update(before.len() - 1, before.last().push(cs@[k as int])));
            }
        }
        k = k + 1;
    }
    proof {
        assert(cs@.subrange(0, cs@.len() as int) =~= cs@);
    }
    parts
}

/// Where the Maven path inside a JAR path starts: after the last
/// `/maven2/`, else after the last `/maven/`.
pub open spec fn maven_start(p: Seq<char>) -> Option<int> {
    match last_occurrence(p, "/maven2/"@) {
        Some(i) => Some(i + "/maven2/"@.len()),
        None => match last_occurrence(p, "/maven/"@) {
            Some(i) => Some(i + "/maven/"@.len()),
            None => None,
        },
    }
}

/// Group id, artifact id and version of a JAR in a Maven repository layout
/// `.../maven2/<group path>/<artifact>/<version>/<file>.jar`.
pub open spec fn spec_maven_coordinates(p: Seq<char>) -> Option<(Seq<char>, Seq<char>, Seq<char>)> {
    match maven_start(p) {
        None => None,
        Some(st) => {
            let parts = split_char(p.subrange(st, p.len() as int), '/');
            let n = parts.len();
            if n < 4 || !seq_ends_with(parts[n - 1], ".jar"@) {
                None
            } else {
                Some((
                    crate::graph::join_with(parts.subrange(0, n - 3), seq!['.']),
                    parts[n - 3],
                    parts[n - 2],
                ))
            }
        },
    }
}

/// Extracts Maven coordinates from a JAR path (see
/// [`spec_maven_coordinates`]).
pub fn extract_maven_coordinates(jar_path: &str) -> (r: Option<(String, String, String)>)
    ensures
        match r {
            Some((g, a, v)) => spec_maven_coordinates(jar_path@) == Some((g@, a@, v@)),
            None => spec_maven_coordinates(jar_path@) is None,
        },
{
    let p = chars_of(jar_path);
    let m2 = chars_of("/maven2/");
    let m1 = chars_of("/maven/");
    let plen = p.len();
    let start = match rfind_chars(p.as_slice(), m2.as_slice()) {
        Some(i) => {
            proof {
                assert(crate::strutil::occurs_at(p@, m2@, i as int));
                assert(i + m2@.len() <= plen);
            }
            i + m2.len()
        },
        None => match rfind_chars(p.as_slice(), m1.as_slice()) {
            Some(i) => {
                proof {
                    assert(crate::strutil::occurs_at(p@, m1@, i as int));
                    assert(i + m1@.len() <= plen);
                }
                i + m1.len()
            },
            None => {
                return None;
            },
        },
    };
    proof {
        assert(maven_start(p@) == Some(start as int));
    }
    let after = substring(p.as_slice(), start, p.len());
    let parts = split_at_char(after.as_str(), '/');
    let n = parts.len();
    if n < 4 {
        return None;
    }
    if !str_ends_with(parts[n - 1].as_str(), ".jar") {
        return None;
    }
    let mut group = String::new();
    let mut k: usize = 0;
    while k < n - 3
        invariant
            n == parts@.len(),
            n >= 4,
            k <= n - 3,
            group@ == crate::graph::join_with(crate::graph::str_list(parts@).subrange(0, k as int), seq!['.']),
        decreases n - 3 - k,
    {
        let ghost before = group@;
        if k > 0 {
            push_char(&mut group, '.');
        }
        group.append(parts[k].as_str());
        proof {
            let sub = crate::graph::str_list(parts@).subrange(0, k + 1);
            assert(sub.drop_last() =~= crate::graph::str_list(parts@).subrange(0, k as int));
            if k == 0 {
                assert(group@ =~= sub[0]);
            } else {
                assert(group@ =~= before + seq!['.'] + sub.last());
            }
        }
        k = k + 1;
    }
    Some((group, parts[n - 3].clone(), parts[n - 2].clone()))
}

/// The directory of a path as text; empty when it has none.
pub open spec fn spec_parent_key(p: Seq<char>) -> Seq<char> {
    match path_parent_of(p) {
        Some(q) => q,
        None => Seq::empty(),
    }
}

/// The directory of a path as text (empty when it has none).
pub fn parent_key(path: &str) -> (r: String)
    ensures
        r@ == spec_parent_key(path@),
{
    match path_parent(path) {
        Some(q) => q,
        None => String::new(),
    }
}

/// A source JAR counts when it can be read and is at least 1024 bytes
/// long (smaller ones are empty stubs).
pub open spec fn spec_source_jar_ok(size: Option<u64>) -> bool {
    match size {
        Some(n) => n >= 1024,
        None => false,
    }
}

/// Accepts a source JAR of the given size (see [`spec_source_jar_ok`]).
pub fn source_jar_ok(size: Option<u64>) -> (b: bool)
    ensures
        b == spec_source_jar_ok(size),
{
    match size {
        Some(n) => n >= 1024,
        None => false,
    }
}

/// The path back when the source JAR on disk is real (readable, 1024
/// bytes or more), else nothing.
pub fn validate_source_jar(path: &str) -> (r: Option<String>)
    ensures
        r matches Some(s) ==> s@ == path@,
{
    if source_jar_ok(file_size(path)) {
        Some(owned(path))
    } else {
        None
    }
}

/// `<home>/.m2/repository/<group path>/<artifact>/<version>/<artifact>-<version>-sources.jar`.
pub open spec fn spec_maven_cache_path(home: Seq<char>, g: Seq<char>, a: Seq<char>, v: Seq<char>) -> Seq<char> {
    path_join_of(
        path_join_of(
            path_join_of(
                path_join_of(path_join_of(home, ".m2/repository"@), g.map_values(|c: char| if c == '.' { '/' } else { c })),
                a,
            ),
            v,
        ),
        a + seq!['-'] + v + "-sources.jar"@,
    )
}

/// The sources JAR of Maven coordinates in the local Maven repository
/// under `home`.
pub fn maven_cache_path(home: &str, group_id: &str, artifact_id: &str, version: &str) -> (r: String)
    ensures
        r@ == spec_maven_cache_path(home@, group_id@, artifact_id@, version@),
{
    let gc = chars_of(group_id);
    let mut group_path = String::new();
    let mut k: usize = 0;
    while k < gc.len()
        invariant
            k <= gc@.len(),
            gc@ == group_id@,
            group_path@ == group_id@.map_values(|c: char| if c == '.' { '/' } else { c }).subrange(0, k as int),
        decreases gc@.len() - k,
    {
        push_char(&mut group_path, if gc[k] == '.' { '/' } else { gc[k] });
        proof {
            assert(group_path@ =~= group_id@.map_values(|c: char| if c == '.' { '/' } else { c }).subrange(0, k + 1));
        }
        k = k + 1;
    }
    proof {
        assert(group_id@.map_values(|c: char| if c == '.' { '/' } else { c }).subrange(0, gc@.len() as int) =~= group_id@.map_values(|c: char| if c == '.' { '/' } else { c }));
    }
    let base = path_join(home, ".m2/repository");
    let g = path_join(base.as_str(), group_path.as_str());
    let a = path_join(g.as_str(), artifact_id);
    let v = path_join(a.as_str(), version);
    let mut file = owned(artifact_id);
    push_char(&mut file, '-');
    file.append(version);
    file.append("-sources.jar");
    proof {
        assert(file@ =~= artifact_id@ + seq!['-'] + version@ + "-sources.jar"@);
    }
    path_join(v.as_str(), file.as_str())
}

/// Looks for the sources JAR of Maven coordinates in the local Maven
/// repository under `home`; the path when it exists.
pub fn probe_maven_local_cache(home: Option<&str>, group_id: &str, artifact_id: &str, version: &str) -> (r: Option<String>)
    ensures
        r matches Some(s) ==> home matches Some(h) && s@ == spec_maven_cache_path(h@, group_id@, artifact_id@, version@),
        home is None ==> r is None,
{
    let h = match home {
        Some(h) => h,
        None => {
            return None;
        },
    };
    let candidate = maven_cache_path(h, group_id, artifact_id, version);
    if path_exists(candidate.as_str()) {
        Some(candidate)
    } else {
        None
    }
}

/// The conventional sources JAR beside a JAR: `<dir>/<stem>-sources.jar`.
pub open spec fn spec_convention_path(jar: Seq<char>) -> Option<Seq<char>> {
    match (crate::paths::path_file_stem_of(jar), path_parent_of(jar)) {
        (Some(stem), Some(dir)) => Some(path_join_of(dir, stem + "-sources.jar"@)),
        _ => None,
    }
}

/// The conventional sources JAR beside a JAR, `<dir>/<stem>-sources.jar`,
/// when the JAR has a stem and a directory.
pub fn convention_path(jar_path: &str) -> (r: Option<String>)
    ensures
        opt_view(r) == spec_convention_path(jar_path@),
{
    let stem = match path_file_stem(jar_path) {
        Some(s) => s,
        None => {
            return None;
        },
    };
    let dir = match path_parent(jar_path) {
        Some(d) => d,
        None => {
            return None;
        },
    };
    let mut file = stem;
    file.append("-sources.jar");
    Some(path_join(dir.as_str(), file.as_str()))
}

/// Looks for `<dir>/<stem>-sources.jar` beside a JAR; the path when it
/// exists.
pub fn probe_source_jar_by_convention(jar_path: &str) -> (r: Option<String>)
    ensures
        r matches Some(s) ==> spec_convention_path(jar_path@) == Some(s@),
{
    match convention_path(jar_path) {
        Some(candidate) => if path_exists(candidate.as_str()) {
            Some(candidate)
        } else {
            None
        },
        None => None,
    }
}

/// Whether one of the names ends in `.java`.
fn names_hold_java_file(names: &Vec<String>) -> (r: bool)
    ensures
        r == exists|i: int| 0 <= i < names@.len() && seq_ends_with(#[trigger] names@[i]@, ".java"@),
{
    let mut k: usize = 0;
    while k < names.len()
        invariant
            k <= names@.len(),
            forall|i: int| 0 <= i < k ==> !seq_ends_with(#[trigger] names@[i]@, ".java"@),
        decreases names@.len() - k,
    {
        if str_ends_with(names[k].as_str(), ".java") {
            return true;
        }
        k = k + 1;
    }
    false
}

/// Whether a directory holds a `.java` file (as the disk says: the listing
/// comes from the file system, so nothing is stated of it).
fn pkg_contains_java_content(dir: &str) -> bool {
    match dir_entry_names(dir) {
        Some(names) => names_hold_java_file(&names),
        None => false,
    }
}

/// The package directory of a `//` label: what lies between `//` and the
/// first `':'`.
pub open spec fn label_package_dir(l: Seq<char>) -> Option<Seq<char>> {
    if !seq_starts_with(l, "//"@) {
        None
    } else {
        let rest = l.subrange("//"@.len() as int, l.len() as int);
        match first_occurrence(rest, ":"@) {
            Some(i) => Some(rest.subrange(0, i)),
            None => Some(rest),
        }
    }
}

/// The source root named by the first marker found in a package path:
/// `<ws>/<package path up to the end of the marker, without its slash>`.
pub open spec fn spec_marker_root(ws: Seq<char>, pp: Seq<char>) -> Option<Seq<char>> {
    let ms = seq!["src/main/java/"@, "src/test/java/"@, "src/java/"@, "javatests/"@, "java/"@];
    marker_root_from(ws, pp, ms)
}

/// The root named by the first of the markers `ms` found in `pp`.
pub open spec fn marker_root_from(ws: Seq<char>, pp: Seq<char>, ms: Seq<Seq<char>>) -> Option<Seq<char>>
    decreases ms.len(),
{
    if ms.len() == 0 {
        None
    } else {
        match first_occurrence(pp, ms[0]) {
            Some(idx) => Some(ws + seq!['/'] + pp.subrange(0, idx + ms[0].len() - 1)),
            None => marker_root_from(ws, pp, ms.drop_first()),
        }
    }
}

/// The source root named by a marker in a package path, without looking
/// at the disk (see [`spec_marker_root`]).
pub fn marker_source_root(ws: &str, package_path: &str) -> (r: Option<String>)
    ensures
        opt_view(r) == spec_marker_root(ws@, package_path@),
{
    let ghost ms = seq!["src/main/java/"@, "src/test/java/"@, "src/java/"@, "javatests/"@, "java/"@];
    let pc = chars_of(package_path);
    let markers = vec!["src/main/java/", "src/test/java/", "src/java/", "javatests/", "java/"];
    proof {
        assert(markers@.map_values(|m: &str| m@) =~= ms);
        reveal_strlit("src/main/java/");
        reveal_strlit("src/test/java/");
        reveal_strlit("src/java/");
        reveal_strlit("javatests/");
        reveal_strlit("java/");
        assert(ms.subrange(0, 5) =~= ms);
    }
    let mut k: usize = 0;
    while k < markers.len()
        invariant
            k <= markers@.len(),
            markers@.len() == 5,
            pc@ == package_path@,
            markers@.map_values(|m: &str| m@) == ms,
            ms.len() == 5,
            forall|j: int| 0 <= j < 5 ==> #[trigger] ms[j].len() > 0,
            spec_marker_root(ws@, package_path@) == marker_root_from(ws@, package_path@, ms.subrange(k as int, 5)),
        decreases markers@.len() - k,
    {
        let mc = chars_of(markers[k]);
        proof {
            assert(mc@ == ms[k as int]);
            assert(ms.subrange(k as int, 5)[0] == ms[k as int]);
            assert(ms.subrange(k as int, 5).drop_first() =~= ms.subrange(k + 1, 5));
        }
        match find_chars(pc.as_slice(), mc.as_slice()) {
            Some(idx) => {
                proof {
                    assert(crate::strutil::occurs_at(pc@, mc@, idx as int));
                }
                let plen = pc.len();
                proof {
                    assert(ms[k as int].len() > 0);
                    assert(idx + mc@.len() <= plen);
                }
                let end = idx + mc.len() - 1;
                let mut out = owned(ws);
                push_char(&mut out, '/');
                let head = substring(pc.as_slice(), 0, end);
                out.append(head.as_str());
                return Some(out);
            },
            None => {},
        }
        k = k + 1;
    }
    proof {
        assert(ms.subrange(5, 5).len() == 0);
    }
    None
}

/// The candidate directories probed for the sources of a package, in
/// order: `<pkg>/src/main/java`, `<pkg>/src/test/java`, `<pkg>/src/java`,
/// `<pkg>/java`.
pub open spec fn probed_source_dirs(pkg: Seq<char>) -> Seq<Seq<char>> {
    seq![
        path_join_of(pkg, "src/main/java"@),
        path_join_of(pkg, "src/test/java"@),
        path_join_of(pkg, "src/java"@),
        path_join_of(pkg, "java"@),
    ]
}

/// What an inferred source attachment can be, for a package path `pp`
/// under workspace root `ws`: one of the probed directories, the package
/// directory itself, or the root named by a marker.
pub open spec fn inferred_source(ws: Seq<char>, pp: Seq<char>, x: Seq<char>) -> bool {
    let pkg = path_join_of(ws, pp);
    probed_source_dirs(pkg).contains(x) || x == pkg || spec_marker_root(ws, pp) == Some(x)
}

/// Infers the source directory of a workspace-internal label by probing
/// the disk for common Java source roots under its package, then for
/// `.java` files in the package directory, and finally by a source-root
/// marker in the package path.  Nothing without a workspace root, for
/// labels not starting with `//`, and for the root package.
pub fn infer_source_attachment(dep_label: &str, workspace_root: Option<&str>) -> (r: Option<String>)
    ensures
        (workspace_root is None || label_package_dir(dep_label@) is None || label_package_dir(dep_label@) == Some(Seq::<char>::empty())) ==> r is None,
        r matches Some(x) ==> workspace_root matches Some(ws) && label_package_dir(dep_label@) matches Some(pp) && inferred_source(ws@, pp, x@),
        r is None ==> (workspace_root matches Some(ws) ==> (label_package_dir(dep_label@) matches Some(pp) ==> (pp.len() > 0 ==> spec_marker_root(ws@, pp) is None))),
{
    let ws = match workspace_root {
        Some(w) => w,
        None => {
            return None;
        },
    };
    if !str_starts_with(dep_label, "//") {
        return None;
    }
    let lc = chars_of(dep_label);
    let ds = chars_of("//");
    let rest = substring(lc.as_slice(), ds.len(), lc.len());
    let rc = chars_of(rest.as_str());
    let colon = chars_of(":");
    let package_path = match find_chars(rc.as_slice(), colon.as_slice()) {
        Some(i) => substring(rc.as_slice(), 0, i),
        None => rest.clone(),
    };
    proof {
        assert(label_package_dir(dep_label@) == Some(package_path@));
    }
    if package_path.unicode_len() == 0 {
        return None;
    }
    let pkg = path_join(ws, package_path.as_str());
    let candidates = vec![
        path_join(pkg.as_str(), "src/main/java"),
        path_join(pkg.as_str(), "src/test/java"),
        path_join(pkg.as_str(), "src/java"),
        path_join(pkg.as_str(), "java"),
    ];
    proof {
        assert(crate::graph::str_list(candidates@) =~= probed_source_dirs(pkg@));
    }
    let mut k: usize = 0;
    while k < candidates.len()
        invariant
            k <= candidates@.len(),
            crate::graph::str_list(candidates@) == probed_source_dirs(pkg@),
            workspace_root == Some(ws),
            label_package_dir(dep_label@) == Some(package_path@),
            package_path@.len() > 0,
            pkg@ == path_join_of(ws@, package_path@),
        decreases candidates@.len() - k,
    {
        if path_is_dir(candidates[k].as_str()) {
            proof {
                assert(crate::graph::str_list(candidates@)[k as int] == candidates@[k as int]@);
            }
            let c = candidates[k].clone();
            proof {
                assert(probed_source_dirs(pkg@)[k as int] == c@);
                assert(probed_source_dirs(pkg@).contains(c@));
            }
            return Some(c);
        }
        k = k + 1;
    }
    if path_is_dir(pkg.as_str()) && pkg_contains_java_content(pkg.as_str()) {
        return Some(pkg);
    }
    marker_source_root(ws, package_path.as_str())
}

/// The path of an external artifact relative to the execution root:
/// `external/...` as it is, or the part from `external/` on of a path under
/// the workspace root that holds `/external/`.
pub open spec fn spec_external_relative(path: Seq<char>, ws: Seq<char>) -> Option<Seq<char>> {
    if seq_starts_with(path, "external/"@) {
        Some(path)
    } else if seq_contains_sub(path, "/external/"@) && seq_starts_with(path, ws) {
        match first_occurrence(path, "/external/"@) {
            Some(i) => Some(path.subrange(i + 1, path.len() as int)),
            None => None,
        }
    } else {
        None
    }
}

/// Resolves an external artifact path against Bazel's execution root (the
/// parent of the resolved `bazel-out` link), or its output base when the
/// file is there; nothing when the path is not external or `bazel-out`
/// cannot be resolved.
pub fn resolve_external_path(path: &str, workspace_root: &str) -> (r: Option<String>)
    ensures
        spec_external_relative(path@, workspace_root@) is None ==> r is None,
        r matches Some(x) ==> spec_external_relative(path@, workspace_root@) matches Some(rel) && exists|base: Seq<char>| x@ == path_join_of(base, rel),
{
    let relative = if str_starts_with(path, "external/") {
        owned(path)
    } else if str_contains(path, "/external/") && str_starts_with(path, workspace_root) {
        let pc = chars_of(path);
        let ext = chars_of("/external/");
        proof {
            reveal_strlit("/external/");
            assert(ext@.len() == 10);
        }
        match find_chars(pc.as_slice(), ext.as_slice()) {
            Some(i) => {
                let plen = pc.len();
                proof {
                    assert(crate::strutil::occurs_at(pc@, ext@, i as int));
                    assert(i + ext@.len() <= plen);
                }
                substring(pc.as_slice(), i + 1, pc.len())
            },
            None => {
                return None;
            },
        }
    } else {
        return None;
    };
    let ghost rel = spec_external_relative(path@, workspace_root@)->Some_0;
    proof {
        assert(spec_external_relative(path@, workspace_root@) == Some(relative@));
    }
    let bazel_out = path_join(workspace_root, "bazel-out");
    let resolved = match canonicalize(bazel_out.as_str()) {
        Some(r) => r,
        None => {
            return None;
        },
    };
    let execroot = match path_parent(resolved.as_str()) {
        Some(e) => e,
        None => {
            return None;
        },
    };
    let candidate = path_join(execroot.as_str(), relative.as_str());
    proof {
        assert(candidate@ == path_join_of(execroot@, rel));
    }
    if path_exists(candidate.as_str()) {
        return Some(candidate);
    }
    if let Some(p1) = path_parent(execroot.as_str()) {
        if let Some(output_base) = path_parent(p1.as_str()) {
            let candidate2 = path_join(output_base.as_str(), relative.as_str());
            proof {
                assert(candidate2@ == path_join_of(output_base@, rel));
            }
            if path_exists(candidate2.as_str()) {
                return Some(candidate2);
            }
        }
    }
    Some(candidate)
}

/// What a normalized artifact path can be: for source and `external/`
/// artifacts the path itself or its resolution against Bazel's roots; for
/// `bazel-out/` artifacts the path joined to the workspace root; otherwise
/// the path itself.
pub open spec fn normalized_artifact(a: crate::ide_info::ArtifactLocationView, ws: Seq<char>, x: Seq<char>) -> bool {
    match spec_best_path(a.absolute_path, a.root_path, a.relative_path) {
        None => false,
        Some(p) => if a.is_source || seq_starts_with(p, "external/"@) {
            x == p || (spec_external_relative(p, ws) matches Some(rel) && exists|base: Seq<char>| x == path_join_of(base, rel))
        } else if seq_starts_with(p, "/"@) {
            x == p
        } else if seq_starts_with(p, "bazel-out/"@) {
            x == path_join_of(ws, p)
        } else {
            x == p
        },
    }
}

/// The path an artifact is used by: nothing when it has no path; external
/// and source artifacts resolved against Bazel's roots when possible;
/// `bazel-out/` paths joined to the workspace root.
pub fn normalize_artifact_path(artifact: &ArtifactLocation, workspace_root: &str) -> (r: Option<String>)
    ensures
        r is None <==> spec_best_path(opt_view(artifact.absolute_path), opt_view(artifact.root_path), opt_view(artifact.relative_path)) is None,
        r matches Some(x) ==> normalized_artifact(artifact@, workspace_root@, x@),
{
    let path = match artifact.best_path() {
        Some(p) => p,
        None => {
            return None;
        },
    };
    if artifact.is_source || str_starts_with(path.as_str(), "external/") {
        match resolve_external_path(path.as_str(), workspace_root) {
            Some(x) => Some(x),
            None => Some(path),
        }
    } else if str_starts_with(path.as_str(), "/") {
        Some(path)
    } else if str_starts_with(path.as_str(), "bazel-out/") {
        Some(path_join(workspace_root, path.as_str()))
    } else {
        Some(path)
    }
}


/// How many of the paths have file name `f`.
pub open spec fn named_count(rts: Seq<Seq<char>>, f: Seq<char>) -> nat
    decreases rts.len(),
{
    if rts.len() == 0 {
        0
    } else {
        named_count(rts.drop_last(), f) + if path_file_name_of(rts.last()) == Some(f) {
            1nat
        } else {
            0nat
        }
    }
}

/// The last of the paths with file name `f`.
pub open spec fn named_last(rts: Seq<Seq<char>>, f: Seq<char>) -> Seq<char>
    decreases rts.len(),
{
    if rts.len() == 0 {
        Seq::empty()
    } else if path_file_name_of(rts.last()) == Some(f) {
        rts.last()
    } else {
        named_last(rts.drop_last(), f)
    }
}

/// The runtime JAR of a JAR: the only runtime JAR with the same file name;
/// none when there is no such JAR or more than one.
pub open spec fn spec_runtime_for(rts: Seq<Seq<char>>, jar: Seq<char>) -> Option<Seq<char>> {
    match path_file_name_of(jar) {
        None => None,
        Some(f) => if named_count(rts, f) == 1 {
            Some(named_last(rts, f))
        } else {
            None
        },
    }
}

/// The runtime JAR of a JAR (see [`spec_runtime_for`]).
fn runtime_jar_for(runtime_jars: &[String], jar: &str) -> (r: Option<String>)
    ensures
        opt_view(r) == spec_runtime_for(crate::graph::str_list(runtime_jars@), jar@),
{
    let ghost rts = crate::graph::str_list(runtime_jars@);
    let f = match path_file_name(jar) {
        Some(f) => f,
        None => {
            return None;
        },
    };
    let mut count: usize = 0;
    let mut last: Option<String> = None;
    let mut k: usize = 0;
    while k < runtime_jars.len()
        invariant
            k <= runtime_jars@.len(),
            rts == crate::graph::str_list(runtime_jars@),
            count == named_count(rts.subrange(0, k as int), f@),
            count <= k,
            count > 0 ==> (last matches Some(l) && l@ == named_last(rts.subrange(0, k as int), f@)),
        decreases runtime_jars@.len() - k,
    {
        proof {
            let sub1 = rts.subrange(0, k + 1);
            assert(sub1.drop_last() =~= rts.subrange(0, k as int));
            assert(sub1.last() == runtime_jars@[k as int]@);
        }
        match path_file_name(runtime_jars[k].as_str()) {
            Some(g) => {
                if crate::strutil::str_eq(g.as_str(), f.as_str()) {
                    count = count + 1;
                    last = Some(runtime_jars[k].clone());
                }
            },
            None => {},
        }
        k = k + 1;
    }
    proof {
        assert(rts.subrange(0, runtime_jars@.len() as int) =~= rts);
    }
    if count == 1 {
        last
    } else {
        None
    }
}

/// Sets `k` to `v` in an association list (replacing an earlier value).
fn assoc_put(l: &mut Vec<(String, String)>, k: String, v: String)
    ensures
        (exists|i: int| 0 <= i < old(l)@.len() && (#[trigger] old(l)@[i]).0@ == k@) ==> exists|i: int|
            0 <= i < old(l)@.len() && (#[trigger] old(l)@[i]).0@ == k@ && (forall|j: int| 0 <= j < i ==> old(l)@[j].0@ != k@)
                && final(l)@ == old(l)@.update(i, (k, v)),
        (forall|i: int| 0 <= i < old(l)@.len() ==> (#[trigger] old(l)@[i]).0@ != k@) ==> final(l)@ == old(l)@.push((k, v)),
        forall|i: int| 0 <= i < final(l)@.len() ==> (#[trigger] final(l)@[i]).1@ == v@ || old(l)@.contains(final(l)@[i]),
{
    match crate::assoc::find_key(l, k.as_str()) {
        Some(i) => {
            let ghost v0 = l@;
            let ghost kv = (k, v);
            l.set(i, (k, v));
            proof {
                assert(l@ == v0.update(i as int, kv));
                assert(v0[i as int].0@ == k@);
                assert forall|j: int| 0 <= j < l@.len() && j != i implies v0.contains(#[trigger] l@[j]) by {
                    assert(l@[j] == v0[j]);
                }
            }
        },
        None => {
            let ghost v0 = l@;
            let ghost kv = (k, v);
            l.push((k, v));
            proof {
                assert(l@ == v0.push(kv));
            }
            proof {
                assert forall|j: int| 0 <= j < v0.len() implies v0.contains(#[trigger] l@[j]) by {
                    assert(l@[j] == v0[j]);
                }
            }
        },
    }
}

/// The value of `k` in an association list.
fn assoc_get(l: &Vec<(String, String)>, k: &str) -> (r: Option<String>)
    ensures
        r is None <==> forall|i: int| 0 <= i < l@.len() ==> (#[trigger] l@[i]).0@ != k@,
        r matches Some(v) ==> exists|i: int| 0 <= i < l@.len() && (#[trigger] l@[i]).0@ == k@ && l@[i].1@ == v@,
{
    match crate::assoc::find_key(l, k) {
        Some(i) => Some(l[i].1.clone()),
        None => None,
    }
}

/// A candidate source JAR, when it is real on disk.
fn validated(c: Option<String>) -> (r: Option<String>)
    ensures
        r matches Some(p) ==> c matches Some(q) && p@ == q@,
        c is None ==> r is None,
{
    match c {
        Some(p) => validate_source_jar(p.as_str()),
        None => None,
    }
}

/// A source location as the aspect reports it, resolved: source artifacts
/// (external ones) against Bazel's roots when possible, others made
/// absolute.
pub open spec fn resolved_source(a: crate::ide_info::ArtifactLocationView, ws: Seq<char>, x: Seq<char>) -> bool {
    match spec_best_path(a.absolute_path, a.root_path, a.relative_path) {
        None => false,
        Some(p) => if a.is_source {
            x == p || (spec_external_relative(p, ws) matches Some(rel) && exists|base: Seq<char>| x == path_join_of(base, rel))
        } else {
            x == spec_absolutize(p, ws)
        },
    }
}

/// A source JAR that the aspect lists for a target, resolved: paired with
/// one of its JARs, or among its source JARs.
pub open spec fn listed_source(ji: crate::ide_info::JavaIdeInfoView, ws: Seq<char>, x: Seq<char>) -> bool {
    ||| exists|k: int| 0 <= k < ji.jars.len() && (#[trigger] ji.jars[k].source_jar matches Some(l) && resolved_source(l, ws, x))
    ||| exists|k: int| 0 <= k < ji.source_jars.len() && resolved_source(#[trigger] ji.source_jars[k], ws, x)
}

/// The source attachments a JAR may be given: a source JAR the aspect
/// lists for the target, the inferred source directory of a workspace
/// label, the `-sources.jar` beside the JAR, or the JAR's artifact in the
/// local Maven cache under `home`.
pub open spec fn source_candidate(
    ji: crate::ide_info::JavaIdeInfoView,
    ws: Seq<char>,
    label: Seq<char>,
    home: Option<Seq<char>>,
    jar: Seq<char>,
    x: Seq<char>,
) -> bool {
    ||| listed_source(ji, ws, x)
    ||| (!seq_starts_with(label, "@"@) && (label_package_dir(label) matches Some(pp) && inferred_source(ws, pp, x)))
    ||| spec_convention_path(jar) == Some(x)
    ||| (home matches Some(h) && spec_maven_coordinates(jar) matches Some((g, a, v)) && x == spec_maven_cache_path(h, g, a, v))
}

/// A source path as found in aspect output: external and source artifacts
/// resolved against Bazel's roots, others made absolute.
fn resolve_source_location(loc: &ArtifactLocation, workspace_root: &str) -> (r: Option<String>)
    ensures
        r is None <==> spec_best_path(loc@.absolute_path, loc@.root_path, loc@.relative_path) is None,
        r matches Some(x) ==> resolved_source(loc@, workspace_root@, x@),
{
    let p = match loc.best_path() {
        Some(p) => p,
        None => {
            return None;
        },
    };
    if loc.is_source {
        match resolve_external_path(p.as_str(), workspace_root) {
            Some(x) => Some(x),
            None => Some(p),
        }
    } else {
        Some(absolutize_source_path(p.as_str(), workspace_root))
    }
}

/// A source location resolved, or nothing exactly when it has no path.
pub open spec fn loc_resolved(l: crate::ide_info::ArtifactLocationView, ws: Seq<char>, o: Option<Seq<char>>) -> bool {
    match o {
        None => spec_best_path(l.absolute_path, l.root_path, l.relative_path) is None,
        Some(x) => resolved_source(l, ws, x),
    }
}

/// An artifact path normalized, or nothing exactly when it has no path.
pub open spec fn loc_normalized(l: crate::ide_info::ArtifactLocationView, ws: Seq<char>, o: Option<Seq<char>>) -> bool {
    match o {
        None => spec_best_path(l.absolute_path, l.root_path, l.relative_path) is None,
        Some(x) => normalized_artifact(l, ws, x),
    }
}

/// What resolving the locations of a target's JARs and source JARs gave
/// (the answers depend on the disk): per JAR its paired source resolved,
/// and, when there is one, the JAR's and the interface JAR's normalized
/// paths; per listed source JAR its resolved path.
pub struct SourceAnswers {
    pub paired: Seq<Option<Seq<char>>>,
    pub jar_key: Seq<Option<Seq<char>>>,
    pub iface_key: Seq<Option<Seq<char>>>,
    pub listed: Seq<Option<Seq<char>>>,
}

/// The answers for one JAR fit it.
pub open spec fn jar_answer_fit(
    j: crate::ide_info::JarInfoView,
    ws: Seq<char>,
    p: Option<Seq<char>>,
    jk: Option<Seq<char>>,
    ik: Option<Seq<char>>,
) -> bool {
    match j.source_jar {
        None => p is None && jk is None && ik is None,
        Some(l) => {
            &&& loc_resolved(l, ws, p)
            &&& if p is Some {
                &&& loc_normalized(j.jar, ws, jk)
                &&& match j.interface_jar {
                    None => ik is None,
                    Some(il) => loc_normalized(il, ws, ik),
                }
            } else {
                jk is None && ik is None
            }
        },
    }
}

/// The answers fit the target's Java information.
pub open spec fn answers_fit(ji: crate::ide_info::JavaIdeInfoView, ws: Seq<char>, a: SourceAnswers) -> bool {
    &&& a.paired.len() == ji.jars.len()
    &&& a.jar_key.len() == ji.jars.len()
    &&& a.iface_key.len() == ji.jars.len()
    &&& a.listed.len() == ji.source_jars.len()
    &&& forall|k: int| 0 <= k < ji.jars.len() ==> jar_answer_fit(#[trigger] ji.jars[k], ws, a.paired[k], a.jar_key[k], a.iface_key[k])
    &&& forall|k: int| 0 <= k < ji.source_jars.len() ==> loc_resolved(#[trigger] ji.source_jars[k], ws, a.listed[k])
}

/// The (key, value) pairs recorded from the first `n` answers, in order.
pub open spec fn keyed_ops(keys: Seq<Option<Seq<char>>>, vals: Seq<Option<Seq<char>>>, n: int) -> Seq<(Seq<char>, Seq<char>)>
    decreases n,
{
    if n <= 0 {
        Seq::empty()
    } else {
        let o = keyed_ops(keys, vals, n - 1);
        match (keys[n - 1], vals[n - 1]) {
            (Some(q), Some(v)) => o.push((q, v)),
            _ => o,
        }
    }
}

/// The listed source JARs of the first `n` answers, keyed by directory.
pub open spec fn dir_ops(listed: Seq<Option<Seq<char>>>, n: int) -> Seq<(Seq<char>, Seq<char>)>
    decreases n,
{
    if n <= 0 {
        Seq::empty()
    } else {
        let o = dir_ops(listed, n - 1);
        match listed[n - 1] {
            Some(x) => o.push((spec_parent_key(x), x)),
            None => o,
        }
    }
}

/// The value last recorded for key `q`.
pub open spec fn last_value(ops: Seq<(Seq<char>, Seq<char>)>, q: Seq<char>) -> Option<Seq<char>>
    decreases ops.len(),
{
    if ops.len() == 0 {
        None
    } else if ops.last().0 == q {
        Some(ops.last().1)
    } else {
        last_value(ops.drop_last(), q)
    }
}

/// The source JARs found so far, each once, with the first `n` of `os`.
pub open spec fn sources_from(l: Seq<Seq<char>>, os: Seq<Option<Seq<char>>>, n: int) -> Seq<Seq<char>>
    decreases n,
{
    if n <= 0 {
        l
    } else {
        let m = sources_from(l, os, n - 1);
        match os[n - 1] {
            Some(x) => if m.contains(x) {
                m
            } else {
                m.push(x)
            },
            None => m,
        }
    }
}

/// Every resolved source JAR of the target, each once: paired ones first.
pub open spec fn all_sources(a: SourceAnswers) -> Seq<Seq<char>> {
    sources_from(sources_from(Seq::empty(), a.paired, a.paired.len() as int), a.listed, a.listed.len() as int)
}

/// The only source JAR of a target with one JAR and one source JAR.
pub open spec fn single_source_of(a: SourceAnswers, nfull: int) -> Option<Seq<char>> {
    if all_sources(a).len() == 1 && nfull == 1 {
        Some(all_sources(a)[0])
    } else {
        None
    }
}

/// The source JAR of the JAR's Maven coordinates in the local Maven cache.
pub open spec fn maven_candidate(home: Option<Seq<char>>, jar: Seq<char>) -> Option<Seq<char>> {
    match (home, spec_maven_coordinates(jar)) {
        (Some(h), Some((g, a, v))) => Some(spec_maven_cache_path(h, g, a, v)),
        _ => None,
    }
}

/// The source attachments of a JAR in the order they are tried: the source
/// paired with the JAR, the one paired with it as an interface JAR, a
/// listed source JAR in its directory, the only source JAR of a one-JAR
/// target, the inferred source directory `inf` (workspace labels only),
/// the `-sources.jar` beside it, and its artifact in the Maven cache.
pub open spec fn source_candidates(
    a: SourceAnswers,
    nfull: int,
    jar: Seq<char>,
    label: Seq<char>,
    home: Option<Seq<char>>,
    inf: Option<Seq<char>>,
) -> Seq<Option<Seq<char>>> {
    seq![
        last_value(keyed_ops(a.jar_key, a.paired, a.paired.len() as int), jar),
        last_value(keyed_ops(a.iface_key, a.paired, a.paired.len() as int), jar),
        last_value(dir_ops(a.listed, a.listed.len() as int), spec_parent_key(jar)),
        single_source_of(a, nfull),
        if !seq_starts_with(label, "@"@) { inf } else { None },
        spec_convention_path(jar),
        maven_candidate(home, jar),
    ]
}

/// The first candidate from position `k` on that the disk confirms
/// (`confirmed`), if any.
pub open spec fn first_real_from(cands: Seq<Option<Seq<char>>>, confirmed: Seq<bool>, k: int) -> Option<Seq<char>>
    decreases cands.len() - k,
{
    if k < 0 || k >= cands.len() {
        None
    } else if cands[k] is Some && k < confirmed.len() && confirmed[k] {
        cands[k]
    } else {
        first_real_from(cands, confirmed, k + 1)
    }
}

/// The first candidate the disk confirms, if any.
pub open spec fn first_real(cands: Seq<Option<Seq<char>>>, confirmed: Seq<bool>) -> Option<Seq<char>> {
    first_real_from(cands, confirmed, 0)
}

/// The views of optional strings.
pub open spec fn opts_view(v: Seq<Option<String>>) -> Seq<Option<Seq<char>>> {
    v.map_values(|o: Option<String>| opt_view(o))
}

/// Chooses a source attachment: the first candidate that the disk confirmed.
pub fn pick_source(cands: &Vec<Option<String>>, confirmed: &Vec<bool>) -> (r: Option<String>)
    ensures
        opt_view(r) == first_real(opts_view(cands@), confirmed@),
{
    let ghost cv = opts_view(cands@);
    let mut k: usize = 0;
    while k < cands.len()
        invariant
            k <= cands@.len(),
            cv == opts_view(cands@),
            first_real_from(cv, confirmed@, 0) == first_real_from(cv, confirmed@, k as int),
        decreases cands@.len() - k,
    {
        assert(cv[k as int] == opt_view(cands@[k as int]));
        if cands[k].is_some() && k < confirmed.len() && confirmed[k] {
            return cands[k].clone();
        }
        k = k + 1;
    }
    None
}

/// What inferring a label's source directory may give.
pub open spec fn inference_fit(label: Seq<char>, ws: Seq<char>, inf: Option<Seq<char>>) -> bool {
    inf matches Some(x) ==> (label_package_dir(label) matches Some(pp) && inferred_source(ws, pp, x))
}

/// The source attachment chosen for a JAR: the first of its candidates that
/// the disk confirms, for some answer of the disk.
pub open spec fn source_chosen(
    a: SourceAnswers,
    nfull: int,
    jar: Seq<char>,
    label: Seq<char>,
    ws: Seq<char>,
    home: Option<Seq<char>>,
    s: Option<Seq<char>>,
) -> bool {
    exists|inf: Option<Seq<char>>, confirmed: Seq<bool>|
        #![trigger source_candidates(a, nfull, jar, label, home, inf), first_real(source_candidates(a, nfull, jar, label, home, inf), confirmed)]
        {
            &&& inference_fit(label, ws, inf)
            &&& confirmed.len() == 7
            &&& s == first_real(source_candidates(a, nfull, jar, label, home, inf), confirmed)
        }
}

/// An association list holds, once for each key recorded in `ops`, the
/// value last recorded for it.
pub open spec fn assoc_models(l: Seq<(String, String)>, ops: Seq<(Seq<char>, Seq<char>)>) -> bool {
    &&& forall|i: int, j: int| 0 <= i < j < l.len() ==> (#[trigger] l[i]).0@ != (#[trigger] l[j]).0@
    &&& forall|i: int| 0 <= i < l.len() ==> last_value(ops, (#[trigger] l[i]).0@) == Some(l[i].1@)
    &&& forall|q: Seq<char>| #[trigger] last_value(ops, q) is Some ==> exists|i: int| 0 <= i < l.len() && (#[trigger] l[i]).0@ == q
}

/// Recording one more pair: its key now has its value.
proof fn lemma_last_value_push(ops: Seq<(Seq<char>, Seq<char>)>, k: Seq<char>, v: Seq<char>, q: Seq<char>)
    ensures
        last_value(ops.push((k, v)), q) == if q == k {
            Some(v)
        } else {
            last_value(ops, q)
        },
{
    assert(ops.push((k, v)).drop_last() =~= ops);
}

/// An empty list models no recorded pair.
proof fn lemma_assoc_models_empty(l: Seq<(String, String)>)
    requires
        l.len() == 0,
    ensures
        assoc_models(l, Seq::empty()),
{
}

/// Putting a pair into a list that models `ops` gives one that models
/// `ops` with the pair recorded.
proof fn lemma_assoc_models_put(
    l0: Seq<(String, String)>,
    l1: Seq<(String, String)>,
    ops: Seq<(Seq<char>, Seq<char>)>,
    k: String,
    v: String,
)
    requires
        assoc_models(l0, ops),
        (exists|i: int| 0 <= i < l0.len() && (#[trigger] l0[i]).0@ == k@) ==> exists|i: int|
            0 <= i < l0.len() && (#[trigger] l0[i]).0@ == k@ && (forall|j: int| 0 <= j < i ==> l0[j].0@ != k@)
                && l1 == l0.update(i, (k, v)),
        (forall|i: int| 0 <= i < l0.len() ==> (#[trigger] l0[i]).0@ != k@) ==> l1 == l0.push((k, v)),
    ensures
        assoc_models(l1, ops.push((k@, v@))),
{
    let ops1 = ops.push((k@, v@));
    assert forall|q: Seq<char>| last_value(ops1, q) == (if q == k@ { Some(v@) } else { last_value(ops, q) }) by {
        lemma_last_value_push(ops, k@, v@, q);
    }
    if exists|i: int| 0 <= i < l0.len() && (#[trigger] l0[i]).0@ == k@ {
        let i = choose|i: int|
            0 <= i < l0.len() && (#[trigger] l0[i]).0@ == k@ && (forall|j: int| 0 <= j < i ==> l0[j].0@ != k@) && l1
                == l0.update(i, (k, v));
        assert forall|a: int, b: int| 0 <= a < b < l1.len() implies (#[trigger] l1[a]).0@ != (#[trigger] l1[b]).0@ by {
            assert(l0[a].0@ != l0[b].0@);
        }
        assert forall|j: int| 0 <= j < l1.len() implies last_value(ops1, (#[trigger] l1[j]).0@) == Some(l1[j].1@) by {
            if j != i {
                assert(l1[j] == l0[j]);
                if l0[j].0@ == k@ {
                    if j < i {
                        assert(l0[j].0@ != l0[i].0@);
                    } else {
                        assert(l0[i].0@ != l0[j].0@);
                    }
                }
                assert(last_value(ops, l0[j].0@) == Some(l0[j].1@));
            }
        }
        assert forall|q: Seq<char>| #[trigger] last_value(ops1, q) is Some implies exists|j: int| 0 <= j < l1.len() && (#[trigger] l1[j]).0@ == q by {
            if q == k@ {
                assert(l1[i].0@ == q);
            } else {
                let j = choose|j: int| 0 <= j < l0.len() && (#[trigger] l0[j]).0@ == q;
                assert(l1[j] == l0[j]);
            }
        }
    } else {
        assert(l1 == l0.push((k, v)));
        assert forall|a: int, b: int| 0 <= a < b < l1.len() implies (#[trigger] l1[a]).0@ != (#[trigger] l1[b]).0@ by {
            if b == l0.len() {
                assert(l1[a] == l0[a]);
            } else {
                assert(l0[a].0@ != l0[b].0@);
            }
        }
        assert forall|j: int| 0 <= j < l1.len() implies last_value(ops1, (#[trigger] l1[j]).0@) == Some(l1[j].1@) by {
            if j < l0.len() {
                assert(l1[j] == l0[j]);
                assert(last_value(ops, l0[j].0@) == Some(l0[j].1@));
            }
        }
        assert forall|q: Seq<char>| #[trigger] last_value(ops1, q) is Some implies exists|j: int| 0 <= j < l1.len() && (#[trigger] l1[j]).0@ == q by {
            if q == k@ {
                assert(l1[l0.len() as int].0@ == q);
            } else {
                let j = choose|j: int| 0 <= j < l0.len() && (#[trigger] l0[j]).0@ == q;
                assert(l1[j] == l0[j]);
            }
        }
    }
}

/// Looking up a key in a list that models `ops`.
proof fn lemma_assoc_lookup(l: Seq<(String, String)>, ops: Seq<(Seq<char>, Seq<char>)>, q: Seq<char>)
    requires
        assoc_models(l, ops),
    ensures
        (forall|i: int| 0 <= i < l.len() ==> (#[trigger] l[i]).0@ != q) ==> last_value(ops, q) is None,
        forall|i: int| 0 <= i < l.len() && (#[trigger] l[i]).0@ == q ==> last_value(ops, q) == Some(l[i].1@),
{
}

/// Records of the first `n` answers depend on those answers only.
proof fn lemma_keyed_ops_prefix(k1: Seq<Option<Seq<char>>>, v1: Seq<Option<Seq<char>>>, k2: Seq<Option<Seq<char>>>, v2: Seq<Option<Seq<char>>>, n: int)
    requires
        forall|m: int| 0 <= m < n ==> k1[m] == k2[m] && v1[m] == v2[m],
    ensures
        keyed_ops(k1, v1, n) == keyed_ops(k2, v2, n),
    decreases n,
{
    if n > 0 {
        lemma_keyed_ops_prefix(k1, v1, k2, v2, n - 1);
    }
}

/// Directory records of the first `n` answers depend on those only.
proof fn lemma_dir_ops_prefix(l1: Seq<Option<Seq<char>>>, l2: Seq<Option<Seq<char>>>, n: int)
    requires
        forall|m: int| 0 <= m < n ==> l1[m] == l2[m],
    ensures
        dir_ops(l1, n) == dir_ops(l2, n),
    decreases n,
{
    if n > 0 {
        lemma_dir_ops_prefix(l1, l2, n - 1);
    }
}

/// Sources found with the first `n` answers depend on those only.
proof fn lemma_sources_prefix(l: Seq<Seq<char>>, o1: Seq<Option<Seq<char>>>, o2: Seq<Option<Seq<char>>>, n: int)
    requires
        forall|m: int| 0 <= m < n ==> o1[m] == o2[m],
    ensures
        sources_from(l, o1, n) == sources_from(l, o2, n),
    decreases n,
{
    if n > 0 {
        lemma_sources_prefix(l, o1, o2, n - 1);
    }
}

/// The source attachment of one JAR: its candidates tried in order (see
/// [`source_candidates`]), the first that the disk confirms.
fn choose_source(
    class_to_source: &Vec<(String, String)>,
    interface_to_source: &Vec<(String, String)>,
    source_by_dir: &Vec<(String, String)>,
    single_source: &Option<String>,
    jar_path: &str,
    label: &str,
    workspace_root: &str,
    home: Option<&str>,
    Ghost(ji): Ghost<crate::ide_info::JavaIdeInfoView>,
    Ghost(ans): Ghost<SourceAnswers>,
    Ghost(nfull): Ghost<int>,
) -> (source: Option<String>)
    requires
        single_source matches Some(x) ==> listed_source(ji, workspace_root@, x@),
        opt_view(*single_source) == single_source_of(ans, nfull),
        assoc_models(class_to_source@, keyed_ops(ans.jar_key, ans.paired, ans.paired.len() as int)),
        assoc_models(interface_to_source@, keyed_ops(ans.iface_key, ans.paired, ans.paired.len() as int)),
        assoc_models(source_by_dir@, dir_ops(ans.listed, ans.listed.len() as int)),
        forall|j: int| 0 <= j < class_to_source@.len() ==> listed_source(ji, workspace_root@, (#[trigger] class_to_source@[j]).1@),
        forall|j: int| 0 <= j < interface_to_source@.len() ==> listed_source(ji, workspace_root@, (#[trigger] interface_to_source@[j]).1@),
        forall|j: int| 0 <= j < source_by_dir@.len() ==> listed_source(ji, workspace_root@, (#[trigger] source_by_dir@[j]).1@),
    ensures
        source matches Some(p) ==> source_candidate(ji, workspace_root@, label@, crate::classpath::ws_view(home), jar_path@, p@),
        source_chosen(ans, nfull, jar_path@, label@, workspace_root@, crate::classpath::ws_view(home), opt_view(source)),
{
    let ghost ws = workspace_root@;
    let ghost jv = jar_path@;
    let ghost ops1 = keyed_ops(ans.jar_key, ans.paired, ans.paired.len() as int);
    let ghost ops2 = keyed_ops(ans.iface_key, ans.paired, ans.paired.len() as int);
    let ghost ops3 = dir_ops(ans.listed, ans.listed.len() as int);
    let workspace_label = !str_starts_with(label, "@");
    let c1 = assoc_get(class_to_source, jar_path);
    proof {
        lemma_assoc_lookup(class_to_source@, ops1, jv);
    }
    let c2 = assoc_get(interface_to_source, jar_path);
    proof {
        lemma_assoc_lookup(interface_to_source@, ops2, jv);
    }
    let pk = parent_key(jar_path);
    let c3 = assoc_get(source_by_dir, pk.as_str());
    proof {
        lemma_assoc_lookup(source_by_dir@, ops3, pk@);
    }
    let c4 = single_source.clone();
    // The disk is asked about a candidate only while none was confirmed.
    let v1 = validated(c1.clone()).is_some();
    let v2 = !v1 && validated(c2.clone()).is_some();
    let v3 = !(v1 || v2) && validated(c3.clone()).is_some();
    let v4 = !(v1 || v2 || v3) && validated(c4.clone()).is_some();
    let found = v1 || v2 || v3 || v4;
    let c5 = if !found && workspace_label {
        infer_source_attachment(label, Some(workspace_root))
    } else {
        None
    };
    let v5 = c5.is_some();
    let c6 = convention_path(jar_path);
    let v6 = !(found || v5) && match &c6 {
        Some(p) => path_exists(p.as_str()) && validate_source_jar(p.as_str()).is_some(),
        None => false,
    };
    let c7 = match (home, extract_maven_coordinates(jar_path)) {
        (Some(h), Some((g, a, v))) => Some(maven_cache_path(h, g.as_str(), a.as_str(), v.as_str())),
        _ => None,
    };
    let v7 = !(found || v5 || v6) && match &c7 {
        Some(p) => path_exists(p.as_str()),
        None => false,
    };
    let ghost inf = opt_view(c5);
    let cands = vec![c1, c2, c3, c4, c5, c6, c7];
    let confirmed = vec![v1, v2, v3, v4, v5, v6, v7];
    let source = pick_source(&cands, &confirmed);
    proof {
        let cs = source_candidates(ans, nfull, jv, label@, crate::classpath::ws_view(home), inf);
        assert(opts_view(cands@) =~= cs);
        assert(inference_fit(label@, ws, inf));
        reveal_with_fuel(first_real_from, 8);
        assert(source matches Some(p) ==> listed_source(ji, ws, p@) || p@ == inf->0 || Some(p@) == spec_convention_path(jv)
            || Some(p@) == maven_candidate(crate::classpath::ws_view(home), jv));
    }
    source
}

/// Builds the resolved JARs of a target: each full JAR with its compile JAR
/// (by position), its runtime JAR (by unique file name) and a source
/// attachment found by the first strategy that yields a real file: the
/// source JAR the aspect paired with the JAR, or with its interface JAR, a
/// source JAR in the same directory, the only source JAR of a one-JAR
/// target, the inferred source directory of a workspace target, a
/// `-sources.jar` beside the JAR, and the local Maven cache under `home`.
/// The attachment is the first of the JAR's candidates, in that order (see
/// [`source_candidates`]), that the disk confirms; [`pick_source`] makes
/// that choice from the disk's answers.  What the disk answers is not
/// stated.
pub fn build_resolved_jars(
    java_info: &crate::ide_info::JavaIdeInfo,
    full_jars: &[String],
    compile_jars: &[String],
    runtime_jars: &[String],
    workspace_root: &str,
    label: &str,
    home: Option<&str>,
) -> (r: Vec<ResolvedJar>)
    ensures
        r@.len() == full_jars@.len(),
        forall|i: int| 0 <= i < r@.len() ==> {
            &&& (#[trigger] r@[i]).full_jar_path@ == full_jars@[i]@
            &&& opt_view(r@[i].compile_jar_path) == if i < compile_jars@.len() {
                Some(compile_jars@[i]@)
            } else {
                None
            }
            &&& opt_view(r@[i].runtime_jar_path) == spec_runtime_for(crate::graph::str_list(runtime_jars@), full_jars@[i]@)
            &&& r@[i].source_path matches Some(p) ==> source_candidate(
                java_info@,
                workspace_root@,
                label@,
                crate::classpath::ws_view(home),
                full_jars@[i]@,
                p@,
            )
        },
        exists|a: SourceAnswers| #[trigger] answers_fit(java_info@, workspace_root@, a) && forall|i: int|
            0 <= i < r@.len() ==> source_chosen(
                a,
                full_jars@.len() as int,
                full_jars@[i]@,
                label@,
                workspace_root@,
                crate::classpath::ws_view(home),
                opt_view(#[trigger] r@[i].source_path),
            ),
{
    let ghost ji = java_info@;
    let ghost ws = workspace_root@;
    let mut class_to_source: Vec<(String, String)> = Vec::new();
    let mut interface_to_source: Vec<(String, String)> = Vec::new();
    let mut all_source_jars: Vec<String> = Vec::new();
    let ghost mut gp: Seq<Option<Seq<char>>> = Seq::empty();
    let ghost mut gjk: Seq<Option<Seq<char>>> = Seq::empty();
    let ghost mut gik: Seq<Option<Seq<char>>> = Seq::empty();
    proof {
        lemma_assoc_models_empty(class_to_source@);
        lemma_assoc_models_empty(interface_to_source@);
    }
    let mut k: usize = 0;
    while k < java_info.jars.len()
        invariant
            ji == java_info@,
            ws == workspace_root@,
            k <= java_info.jars@.len(),
            gp.len() == k,
            gjk.len() == k,
            gik.len() == k,
            forall|m: int| 0 <= m < k ==> jar_answer_fit(#[trigger] ji.jars[m], ws, gp[m], gjk[m], gik[m]),
            assoc_models(class_to_source@, keyed_ops(gjk, gp, k as int)),
            assoc_models(interface_to_source@, keyed_ops(gik, gp, k as int)),
            crate::graph::str_list(all_source_jars@) == sources_from(Seq::empty(), gp, k as int),
            forall|j: int| 0 <= j < all_source_jars@.len() ==> listed_source(ji, ws, (#[trigger] all_source_jars@[j])@),
            forall|j: int| 0 <= j < class_to_source@.len() ==> listed_source(ji, ws, (#[trigger] class_to_source@[j]).1@),
            forall|j: int| 0 <= j < interface_to_source@.len() ==> listed_source(ji, ws, (#[trigger] interface_to_source@[j]).1@),
        decreases java_info.jars@.len() - k,
    {
        let jar_info = &java_info.jars[k];
        let ghost mut ap: Option<Seq<char>> = None;
        let ghost mut ajk: Option<Seq<char>> = None;
        let ghost mut aik: Option<Seq<char>> = None;
        let ghost ops_c = keyed_ops(gjk, gp, k as int);
        let ghost ops_i = keyed_ops(gik, gp, k as int);
        let ghost src0 = sources_from(Seq::empty(), gp, k as int);
        proof {
            assert(ji.jars[k as int] == java_info.jars@[k as int]@);
        }
        if let Some(src_loc) = &jar_info.source_jar {
            if let Some(resolved_src) = resolve_source_location(src_loc, workspace_root) {
                proof {
                    ap = Some(resolved_src@);
                    assert(ji.jars[k as int].source_jar matches Some(l) && resolved_source(l, ws, resolved_src@));
                    assert(listed_source(ji, ws, resolved_src@));
                }
                if crate::assoc::find_str(&all_source_jars, resolved_src.as_str()).is_none() {
                    proof {
                        crate::graph::lemma_str_list_push(all_source_jars@, resolved_src);
                        assert(!src0.contains(resolved_src@)) by {
                            if src0.contains(resolved_src@) {
                                let j = choose|j: int| 0 <= j < src0.len() && src0[j] == resolved_src@;
                                assert(all_source_jars@[j]@ == src0[j]);
                            }
                        }
                    }
                    all_source_jars.push(resolved_src.clone());
                } else {
                    proof {
                        let j = choose|j: int| 0 <= j < all_source_jars@.len() && all_source_jars@[j]@ == resolved_src@;
                        assert(src0[j] == resolved_src@);
                    }
                }
                if let Some(key) = normalize_artifact_path(&jar_info.jar, workspace_root) {
                    let ghost l0 = class_to_source@;
                    let ghost kv = key;
                    let ghost vv = resolved_src;
                    proof {
                        ajk = Some(key@);
                    }
                    assoc_put(&mut class_to_source, key, resolved_src.clone());
                    proof {
                        lemma_assoc_models_put(l0, class_to_source@, ops_c, kv, vv);
                    }
                }
                if let Some(iface_loc) = &jar_info.interface_jar {
                    if let Some(key) = normalize_artifact_path(iface_loc, workspace_root) {
                        let ghost l0 = interface_to_source@;
                        let ghost kv = key;
                        let ghost vv = resolved_src;
                        proof {
                            aik = Some(key@);
                        }
                        assoc_put(&mut interface_to_source, key, resolved_src.clone());
                        proof {
                            lemma_assoc_models_put(l0, interface_to_source@, ops_i, kv, vv);
                        }
                    }
                }
            }
        }
        proof {
            let gp1 = gp.push(ap);
            let gjk1 = gjk.push(ajk);
            let gik1 = gik.push(aik);
            lemma_keyed_ops_prefix(gjk, gp, gjk1, gp1, k as int);
            lemma_keyed_ops_prefix(gik, gp, gik1, gp1, k as int);
            lemma_sources_prefix(Seq::empty(), gp, gp1, k as int);
            assert(jar_answer_fit(ji.jars[k as int], ws, ap, ajk, aik));
            gp = gp1;
            gjk = gjk1;
            gik = gik1;
            assert forall|m: int| 0 <= m < k + 1 implies jar_answer_fit(#[trigger] ji.jars[m], ws, gp[m], gjk[m], gik[m]) by {
                if m < k {
                    assert(gp[m] == gp.drop_last()[m]);
                }
            }
        }
        k = k + 1;
    }
    let ghost n1 = java_info.jars@.len() as int;
    let ghost src1 = sources_from(Seq::empty(), gp, n1);
    let mut source_by_dir: Vec<(String, String)> = Vec::new();
    let ghost mut gl: Seq<Option<Seq<char>>> = Seq::empty();
    proof {
        lemma_assoc_models_empty(source_by_dir@);
    }
    let mut k: usize = 0;
    while k < java_info.source_jars.len()
        invariant
            ji == java_info@,
            ws == workspace_root@,
            k <= java_info.source_jars@.len(),
            gl.len() == k,
            forall|m: int| 0 <= m < k ==> loc_resolved(#[trigger] ji.source_jars[m], ws, gl[m]),
            assoc_models(source_by_dir@, dir_ops(gl, k as int)),
            crate::graph::str_list(all_source_jars@) == sources_from(src1, gl, k as int),
            forall|j: int| 0 <= j < all_source_jars@.len() ==> listed_source(ji, ws, (#[trigger] all_source_jars@[j])@),
            forall|j: int| 0 <= j < source_by_dir@.len() ==> listed_source(ji, ws, (#[trigger] source_by_dir@[j]).1@),
        decreases java_info.source_jars@.len() - k,
    {
        let ghost mut al: Option<Seq<char>> = None;
        let ghost ops_d = dir_ops(gl, k as int);
        let ghost src0 = sources_from(src1, gl, k as int);
        proof {
            assert(ji.source_jars[k as int] == java_info.source_jars@[k as int]@);
        }
        if let Some(resolved) = resolve_source_location(&java_info.source_jars[k], workspace_root) {
            proof {
                al = Some(resolved@);
                assert(resolved_source(ji.source_jars[k as int], ws, resolved@));
                assert(listed_source(ji, ws, resolved@));
            }
            if crate::assoc::find_str(&all_source_jars, resolved.as_str()).is_none() {
                proof {
                    crate::graph::lemma_str_list_push(all_source_jars@, resolved);
                    assert(!src0.contains(resolved@)) by {
                        if src0.contains(resolved@) {
                            let j = choose|j: int| 0 <= j < src0.len() && src0[j] == resolved@;
                            assert(all_source_jars@[j]@ == src0[j]);
                        }
                    }
                }
                all_source_jars.push(resolved.clone());
            } else {
                proof {
                    let j = choose|j: int| 0 <= j < all_source_jars@.len() && all_source_jars@[j]@ == resolved@;
                    assert(src0[j] == resolved@);
                }
            }
            let pk = parent_key(resolved.as_str());
            let ghost l0 = source_by_dir@;
            let ghost kv = pk;
            let ghost vv = resolved;
            assoc_put(&mut source_by_dir, pk, resolved);
            proof {
                lemma_assoc_models_put(l0, source_by_dir@, ops_d, kv, vv);
            }
        } else {
            proof {
                assert(loc_resolved(ji.source_jars[k as int], ws, None));
            }
        }
        proof {
            let gl1 = gl.push(al);
            lemma_dir_ops_prefix(gl, gl1, k as int);
            lemma_sources_prefix(src1, gl, gl1, k as int);
            gl = gl1;
            assert forall|m: int| 0 <= m < k + 1 implies loc_resolved(#[trigger] ji.source_jars[m], ws, gl[m]) by {
                if m < k {
                    assert(gl[m] == gl.drop_last()[m]);
                }
            }
        }
        k = k + 1;
    }
    let ghost ans = SourceAnswers { paired: gp, jar_key: gjk, iface_key: gik, listed: gl };
    let ghost ops1 = keyed_ops(gjk, gp, gp.len() as int);
    let ghost ops2 = keyed_ops(gik, gp, gp.len() as int);
    let ghost ops3 = dir_ops(gl, gl.len() as int);
    proof {
        assert(answers_fit(ji, ws, ans));
        assert(crate::graph::str_list(all_source_jars@) == all_sources(ans));
    }
    let single_source = if all_source_jars.len() == 1 && full_jars.len() == 1 {
        Some(all_source_jars[0].clone())
    } else {
        None
    };
    proof {
        assert(opt_view(single_source) == single_source_of(ans, full_jars@.len() as int));
    }
    let workspace_label = !str_starts_with(label, "@");
    let mut result: Vec<ResolvedJar> = Vec::new();
    let mut i: usize = 0;
    while i < full_jars.len()
        invariant
            i <= full_jars@.len(),
            result@.len() == i,
            ji == java_info@,
            ws == workspace_root@,
            workspace_label == !seq_starts_with(label@, "@"@),
            single_source matches Some(x) ==> listed_source(ji, ws, x@),
            opt_view(single_source) == single_source_of(ans, full_jars@.len() as int),
            assoc_models(class_to_source@, ops1),
            assoc_models(interface_to_source@, ops2),
            assoc_models(source_by_dir@, ops3),
            ops1 == keyed_ops(ans.jar_key, ans.paired, ans.paired.len() as int),
            ops2 == keyed_ops(ans.iface_key, ans.paired, ans.paired.len() as int),
            ops3 == dir_ops(ans.listed, ans.listed.len() as int),
            forall|j: int| 0 <= j < class_to_source@.len() ==> listed_source(ji, ws, (#[trigger] class_to_source@[j]).1@),
            forall|j: int| 0 <= j < interface_to_source@.len() ==> listed_source(ji, ws, (#[trigger] interface_to_source@[j]).1@),
            forall|j: int| 0 <= j < source_by_dir@.len() ==> listed_source(ji, ws, (#[trigger] source_by_dir@[j]).1@),
            forall|j: int| 0 <= j < i ==> {
                &&& (#[trigger] result@[j]).full_jar_path@ == full_jars@[j]@
                &&& opt_view(result@[j].compile_jar_path) == if j < compile_jars@.len() {
                    Some(compile_jars@[j]@)
                } else {
                    None
                }
                &&& opt_view(result@[j].runtime_jar_path) == spec_runtime_for(crate::graph::str_list(runtime_jars@), full_jars@[j]@)
                &&& result@[j].source_path matches Some(p) ==> source_candidate(
                    ji,
                    ws,
                    label@,
                    crate::classpath::ws_view(home),
                    full_jars@[j]@,
                    p@,
                )
                &&& source_chosen(
                    ans,
                    full_jars@.len() as int,
                    full_jars@[j]@,
                    label@,
                    ws,
                    crate::classpath::ws_view(home),
                    opt_view(result@[j].source_path),
                )
            },
        decreases full_jars@.len() - i,
    {
        let jar_path = full_jars[i].as_str();
        let source = choose_source(
            &class_to_source,
            &interface_to_source,
            &source_by_dir,
            &single_source,
            jar_path,
            label,
            workspace_root,
            home,
            Ghost(ji),
            Ghost(ans),
            Ghost(full_jars@.len() as int),
        );
        let compile = if i < compile_jars.len() {
            Some(compile_jars[i].clone())
        } else {
            None
        };
        let runtime = runtime_jar_for(runtime_jars, jar_path);
        let ghost r0 = result@;
        result.push(ResolvedJar {
            full_jar_path: full_jars[i].clone(),
            compile_jar_path: compile,
            runtime_jar_path: runtime,
            source_path: source,
        });
        proof {
            assert forall|j: int| 0 <= j < i + 1 implies {
                &&& (#[trigger] result@[j]).full_jar_path@ == full_jars@[j]@
                &&& opt_view(result@[j].compile_jar_path) == if j < compile_jars@.len() {
                    Some(compile_jars@[j]@)
                } else {
                    None
                }
                &&& opt_view(result@[j].runtime_jar_path) == spec_runtime_for(crate::graph::str_list(runtime_jars@), full_jars@[j]@)
                &&& result@[j].source_path matches Some(p) ==> source_candidate(
                    ji,
                    ws,
                    label@,
                    crate::classpath::ws_view(home),
                    full_jars@[j]@,
                    p@,
                )
                &&& source_chosen(
                    ans,
                    full_jars@.len() as int,
                    full_jars@[j]@,
                    label@,
                    ws,
                    crate::classpath::ws_view(home),
                    opt_view(result@[j].source_path),
                )
            } by {
                if j < i {
                    assert(result@[j] == r0[j]);
                }
            }
        }
        i = i + 1;
    }
    proof {
        assert(answers_fit(java_info@, workspace_root@, ans));
    }
    result
}


/// How many of the locations have a path.
pub open spec fn located_count(locs: Seq<crate::ide_info::ArtifactLocationView>) -> nat
    decreases locs.len(),
{
    if locs.len() == 0 {
        0
    } else {
        located_count(locs.drop_last()) + if spec_best_path(locs.last().absolute_path, locs.last().root_path, locs.last().relative_path) is Some {
            1nat
        } else {
            0nat
        }
    }
}

/// The JAR locations of a target's `jars` entries.
pub open spec fn class_jar_locs(ji: crate::ide_info::JavaIdeInfoView) -> Seq<crate::ide_info::ArtifactLocationView> {
    ji.jars.map_values(|j: crate::ide_info::JarInfoView| j.jar)
}

/// `ps` are, in order, the paths of the located artifacts of `locs`, each
/// normalized against `ws` (see [`normalized_artifact`]).
pub open spec fn paths_fit(locs: Seq<crate::ide_info::ArtifactLocationView>, ws: Seq<char>, ps: Seq<Seq<char>>) -> bool
    decreases locs.len(),
{
    if locs.len() == 0 {
        ps.len() == 0
    } else if spec_best_path(locs.last().absolute_path, locs.last().root_path, locs.last().relative_path) is None {
        paths_fit(locs.drop_last(), ws, ps)
    } else {
        &&& ps.len() > 0
        &&& normalized_artifact(locs.last(), ws, ps.last())
        &&& paths_fit(locs.drop_last(), ws, ps.drop_last())
    }
}

/// Normalized paths of located artifacts are as many as the located
/// artifacts.
pub proof fn lemma_paths_fit_len(locs: Seq<crate::ide_info::ArtifactLocationView>, ws: Seq<char>, ps: Seq<Seq<char>>)
    requires
        paths_fit(locs, ws, ps),
    ensures
        ps.len() == located_count(locs),
    decreases locs.len(),
{
    if locs.len() > 0 {
        if spec_best_path(locs.last().absolute_path, locs.last().root_path, locs.last().relative_path) is None {
            lemma_paths_fit_len(locs.drop_last(), ws, ps);
        } else {
            lemma_paths_fit_len(locs.drop_last(), ws, ps.drop_last());
        }
    }
}

/// The resolved JARs built from full, compile and runtime JAR paths: one per
/// full JAR, with the compile JAR at the same position, the runtime JAR of
/// the same file name and a source attachment among the candidates.
pub open spec fn resolved_jars_fit(
    ji: crate::ide_info::JavaIdeInfoView,
    ws: Seq<char>,
    label: Seq<char>,
    home: Option<Seq<char>>,
    full: Seq<Seq<char>>,
    compile: Seq<Seq<char>>,
    runtime: Seq<Seq<char>>,
    v: Seq<ResolvedJarView>,
) -> bool {
    &&& v.len() == full.len()
    &&& forall|i: int| 0 <= i < v.len() ==> {
        &&& (#[trigger] v[i]).full_jar_path == full[i]
        &&& v[i].compile_jar_path == if i < compile.len() {
            Some(compile[i])
        } else {
            None
        }
        &&& v[i].runtime_jar_path == spec_runtime_for(runtime, full[i])
        &&& v[i].source_path matches Some(p) ==> source_candidate(ji, ws, label, home, full[i], p)
    }
}

/// The JARs recorded for an aspect target: none without Java info or
/// without a located JAR; otherwise one per located full JAR (or, when there
/// is none, per located compile JAR), built from the normalized JAR paths
/// (see [`resolved_jars_fit`]).
pub open spec fn jars_fit(
    info: crate::ide_info::TargetIdeInfoView,
    ws: Seq<char>,
    home: Option<Seq<char>>,
    j: Option<Seq<ResolvedJarView>>,
) -> bool {
    match info.java_info {
        None => j is None,
        Some(ji) => {
            let nf = located_count(class_jar_locs(ji));
            let nc = located_count(ji.compile_jars);
            if nf == 0 && nc == 0 {
                j is None
            } else {
                &&& j matches Some(v)
                &&& j->0.len() == if nf > 0 {
                    nf
                } else {
                    nc
                }
                &&& exists|full: Seq<Seq<char>>, compile: Seq<Seq<char>>, runtime: Seq<Seq<char>>|
                    #![trigger paths_fit(class_jar_locs(ji), ws, full), paths_fit(ji.compile_jars, ws, compile), paths_fit(ji.runtime_jars, ws, runtime)]
                    {
                        &&& paths_fit(class_jar_locs(ji), ws, full)
                        &&& paths_fit(ji.compile_jars, ws, compile)
                        &&& paths_fit(ji.runtime_jars, ws, runtime)
                        &&& if nf > 0 {
                            resolved_jars_fit(ji, ws, info.label, home, full, compile, runtime, j->0)
                        } else {
                            resolved_jars_fit(ji, ws, info.label, home, compile, Seq::empty(), runtime, j->0)
                        }
                    }
            }
        },
    }
}

/// The normalized paths of the located artifacts, in order.
fn normalized_paths(locs: &Vec<ArtifactLocation>, workspace_root: &str) -> (r: Vec<String>)
    ensures
        paths_fit(crate::ide_info::locs_view(*locs), workspace_root@, crate::graph::str_list(r@)),
        r@.len() == located_count(crate::ide_info::locs_view(*locs)),
{
    let ghost lv = crate::ide_info::locs_view(*locs);
    let mut r: Vec<String> = Vec::new();
    let mut k: usize = 0;
    while k < locs.len()
        invariant
            k <= locs@.len(),
            lv == crate::ide_info::locs_view(*locs),
            paths_fit(lv.subrange(0, k as int), workspace_root@, crate::graph::str_list(r@)),
        decreases locs@.len() - k,
    {
        proof {
            assert(lv.subrange(0, k + 1).drop_last() =~= lv.subrange(0, k as int));
            assert(lv.subrange(0, k + 1).last() == locs@[k as int]@);
        }
        match normalize_artifact_path(&locs[k], workspace_root) {
            Some(p) => {
                proof {
                    crate::graph::lemma_str_list_push(r@, p);
                }
                let ghost r0 = r@;
                r.push(p);
                proof {
                    assert(crate::graph::str_list(r@).drop_last() =~= crate::graph::str_list(r0));
                }
            },
            None => {},
        }
        k = k + 1;
    }
    proof {
        assert(lv.subrange(0, locs@.len() as int) =~= lv);
        lemma_paths_fit_len(lv, workspace_root@, crate::graph::str_list(r@));
    }
    r
}

/// The normalized paths of the located class JARs, in order.
fn normalized_class_jars(jars: &Vec<crate::ide_info::JarInfo>, workspace_root: &str) -> (r: Vec<String>)
    ensures
        paths_fit(
            crate::ide_info::jars_view(*jars).map_values(|j: crate::ide_info::JarInfoView| j.jar),
            workspace_root@,
            crate::graph::str_list(r@),
        ),
        r@.len() == located_count(crate::ide_info::jars_view(*jars).map_values(|j: crate::ide_info::JarInfoView| j.jar)),
{
    let ghost lv = crate::ide_info::jars_view(*jars).map_values(|j: crate::ide_info::JarInfoView| j.jar);
    let mut r: Vec<String> = Vec::new();
    let mut k: usize = 0;
    while k < jars.len()
        invariant
            k <= jars@.len(),
            lv == crate::ide_info::jars_view(*jars).map_values(|j: crate::ide_info::JarInfoView| j.jar),
            paths_fit(lv.subrange(0, k as int), workspace_root@, crate::graph::str_list(r@)),
        decreases jars@.len() - k,
    {
        proof {
            assert(lv.subrange(0, k + 1).drop_last() =~= lv.subrange(0, k as int));
            assert(lv.subrange(0, k + 1).last() == jars@[k as int].jar@);
        }
        match normalize_artifact_path(&jars[k].jar, workspace_root) {
            Some(p) => {
                proof {
                    crate::graph::lemma_str_list_push(r@, p);
                }
                let ghost r0 = r@;
                r.push(p);
                proof {
                    assert(crate::graph::str_list(r@).drop_last() =~= crate::graph::str_list(r0));
                }
            },
            None => {},
        }
        k = k + 1;
    }
    proof {
        assert(lv.subrange(0, jars@.len() as int) =~= lv);
        lemma_paths_fit_len(lv, workspace_root@, crate::graph::str_list(r@));
    }
    r
}

/// The resolved JARs of an aspect target (see [`jars_fit`] and
/// [`build_resolved_jars`]); compile JARs stand in for missing full JARs.
pub fn resolve_target_jars(info: &crate::ide_info::TargetIdeInfo, workspace_root: &str, home: Option<&str>) -> (r: Option<Vec<ResolvedJar>>)
    ensures
        jars_fit(info@, workspace_root@, crate::classpath::ws_view(home), match r {
            Some(v) => Some(crate::graph::resolved_view(v@)),
            None => None,
        }),
{
    let ji = match &info.java_info {
        Some(ji) => ji,
        None => {
            return None;
        },
    };
    let full = normalized_class_jars(&ji.jars, workspace_root);
    let compile = normalized_paths(&ji.compile_jars, workspace_root);
    let runtime = normalized_paths(&ji.runtime_jars, workspace_root);
    let ghost jv = ji@;
    let ghost ws = workspace_root@;
    let ghost hv = crate::classpath::ws_view(home);
    let ghost fl = crate::graph::str_list(full@);
    let ghost cl = crate::graph::str_list(compile@);
    let ghost rl = crate::graph::str_list(runtime@);
    proof {
        assert(class_jar_locs(jv) == crate::ide_info::jars_view(ji.jars).map_values(|j: crate::ide_info::JarInfoView| j.jar));
    }
    let nonempty_full = full.len() > 0;
    let (eff_full, eff_compile) = if full.len() == 0 {
        (compile, Vec::new())
    } else {
        (full, compile)
    };
    if eff_full.len() == 0 {
        return None;
    }
    let v = build_resolved_jars(ji, eff_full.as_slice(), eff_compile.as_slice(), runtime.as_slice(), workspace_root, info.label.as_str(), home);
    proof {
        let rv = crate::graph::resolved_view(v@);
        let ef = crate::graph::str_list(eff_full@);
        let ec = crate::graph::str_list(eff_compile@);
        assert(ef == if nonempty_full { fl } else { cl });
        assert(ec =~= if nonempty_full { cl } else { Seq::<Seq<char>>::empty() });
        assert forall|i: int| 0 <= i < rv.len() implies {
            &&& (#[trigger] rv[i]).full_jar_path == ef[i]
            &&& rv[i].compile_jar_path == if i < ec.len() {
                Some(ec[i])
            } else {
                None
            }
            &&& rv[i].runtime_jar_path == spec_runtime_for(rl, ef[i])
            &&& rv[i].source_path matches Some(p) ==> source_candidate(jv, ws, info@.label, hv, ef[i], p)
        } by {
            assert(rv[i] == v@[i]@);
        }
        assert(resolved_jars_fit(jv, ws, info@.label, hv, ef, ec, rl, rv));
        if nonempty_full {
            assert(resolved_jars_fit(jv, ws, info@.label, hv, fl, cl, rl, rv));
        } else {
            assert(resolved_jars_fit(jv, ws, info@.label, hv, cl, Seq::empty(), rl, rv));
        }
        assert(paths_fit(class_jar_locs(jv), ws, fl));
        assert(paths_fit(jv.compile_jars, ws, cl));
        assert(paths_fit(jv.runtime_jars, ws, rl));
    }
    Some(v)
}

} // verus!
