//! Target information produced by the IntelliJ aspect.
use vstd::prelude::*;
use crate::strutil::{
    chars_of, contains_char, find_chars, first_occurrence, push_char, seq_starts_with,
    starts_with_chars, string_of, substring,
};
use crate::labels::{append_chars, rfind_char};
use crate::strutil::last_occurrence;

verus! {

/// A fully resolved Java target from aspect output.
#[derive(Debug, Clone)]
pub struct TargetIdeInfo {
    pub label: String,
    pub kind: String,
    pub build_file: Option<ArtifactLocation>,
    pub java_info: Option<JavaIdeInfo>,
    pub deps: Vec<String>,
    pub runtime_deps: Vec<String>,
    pub exports: Vec<String>,
}

/// Java-specific information of a target.
#[derive(Debug, Clone, Default)]
pub struct JavaIdeInfo {
    pub sources: Vec<ArtifactLocation>,
    pub jars: Vec<JarInfo>,
    pub generated_jars: Vec<JarInfo>,
    pub compile_jars: Vec<ArtifactLocation>,
    pub runtime_jars: Vec<ArtifactLocation>,
    pub annotation_processors: Vec<String>,
    pub source_jars: Vec<ArtifactLocation>,
    pub javac_options: Option<JavacOptions>,
}

/// A JAR artifact with its source and interface JARs.
#[derive(Debug, Clone, Default)]
pub struct JarInfo {
    pub jar: ArtifactLocation,
    pub source_jar: Option<ArtifactLocation>,
    pub interface_jar: Option<ArtifactLocation>,
}

/// Location of a file artifact within the Bazel workspace.
#[derive(Debug, Clone, Default)]
pub struct ArtifactLocation {
    pub relative_path: Option<String>,
    pub absolute_path: Option<String>,
    pub is_source: bool,
    pub is_external: bool,
    pub root_execution_path_fragment: Option<String>,
    pub root_path: Option<String>,
}

/// Javac compiler options.
#[derive(Debug, Clone)]
pub struct JavacOptions {
    pub options: Vec<String>,
}

/// Abstract artifact location.
pub struct ArtifactLocationView {
    pub relative_path: Option<Seq<char>>,
    pub absolute_path: Option<Seq<char>>,
    pub is_source: bool,
    pub is_external: bool,
    pub root_execution_path_fragment: Option<Seq<char>>,
    pub root_path: Option<Seq<char>>,
}

/// Abstract JAR artifact.
pub struct JarInfoView {
    pub jar: ArtifactLocationView,
    pub source_jar: Option<ArtifactLocationView>,
    pub interface_jar: Option<ArtifactLocationView>,
}

/// Abstract Java information.
pub struct JavaIdeInfoView {
    pub sources: Seq<ArtifactLocationView>,
    pub jars: Seq<JarInfoView>,
    pub generated_jars: Seq<JarInfoView>,
    pub compile_jars: Seq<ArtifactLocationView>,
    pub runtime_jars: Seq<ArtifactLocationView>,
    pub annotation_processors: Seq<Seq<char>>,
    pub source_jars: Seq<ArtifactLocationView>,
    pub javac_options: Option<Seq<Seq<char>>>,
}

/// Abstract target information.
pub struct TargetIdeInfoView {
    pub label: Seq<char>,
    pub kind: Seq<char>,
    pub build_file: Option<ArtifactLocationView>,
    pub java_info: Option<JavaIdeInfoView>,
    pub deps: Seq<Seq<char>>,
    pub runtime_deps: Seq<Seq<char>>,
    pub exports: Seq<Seq<char>>,
}

/// The views of a vector of strings.
pub open spec fn strs_view(v: Vec<String>) -> Seq<Seq<char>> {
    v@.map_values(|s: String| s@)
}

/// The views of a vector of locations.
pub open spec fn locs_view(v: Vec<ArtifactLocation>) -> Seq<ArtifactLocationView> {
    v@.map_values(|a: ArtifactLocation| a@)
}

/// The views of a vector of JARs.
pub open spec fn jars_view(v: Vec<JarInfo>) -> Seq<JarInfoView> {
    v@.map_values(|a: JarInfo| a@)
}

/// The view of an optional location.
pub open spec fn opt_loc_view(o: Option<ArtifactLocation>) -> Option<ArtifactLocationView> {
    match o {
        Some(a) => Some(a@),
        None => None,
    }
}

impl View for ArtifactLocation {
    type V = ArtifactLocationView;

    open spec fn view(&self) -> ArtifactLocationView {
        ArtifactLocationView {
            relative_path: opt_view(self.relative_path),
            absolute_path: opt_view(self.absolute_path),
            is_source: self.is_source,
            is_external: self.is_external,
            root_execution_path_fragment: opt_view(self.root_execution_path_fragment),
            root_path: opt_view(self.root_path),
        }
    }
}

impl View for JarInfo {
    type V = JarInfoView;

    open spec fn view(&self) -> JarInfoView {
        JarInfoView {
            jar: self.jar@,
            source_jar: opt_loc_view(self.source_jar),
            interface_jar: opt_loc_view(self.interface_jar),
        }
    }
}

impl View for JavaIdeInfo {
    type V = JavaIdeInfoView;

    open spec fn view(&self) -> JavaIdeInfoView {
        JavaIdeInfoView {
            sources: locs_view(self.sources),
            jars: jars_view(self.jars),
            generated_jars: jars_view(self.generated_jars),
            compile_jars: locs_view(self.compile_jars),
            runtime_jars: locs_view(self.runtime_jars),
            annotation_processors: strs_view(self.annotation_processors),
            source_jars: locs_view(self.source_jars),
            javac_options: match self.javac_options {
                Some(o) => Some(strs_view(o.options)),
                None => None,
            },
        }
    }
}

impl View for TargetIdeInfo {
    type V = TargetIdeInfoView;

    open spec fn view(&self) -> TargetIdeInfoView {
        TargetIdeInfoView {
            label: self.label@,
            kind: self.kind@,
            build_file: opt_loc_view(self.build_file),
            java_info: match self.java_info {
                Some(j) => Some(j@),
                None => None,
            },
            deps: strs_view(self.deps),
            runtime_deps: strs_view(self.runtime_deps),
            exports: strs_view(self.exports),
        }
    }
}

impl TargetIdeInfo {
    /// A target with the given label and kind and nothing else.
    pub fn new(label: String, kind: String) -> (r: Self)
        ensures
            r.label == label,
            r.kind == kind,
            r.build_file is None,
            r.java_info is None,
            r.deps@.len() == 0,
            r.runtime_deps@.len() == 0,
            r.exports@.len() == 0,
    {
        TargetIdeInfo {
            label,
            kind,
            build_file: None,
            java_info: None,
            deps: Vec::new(),
            runtime_deps: Vec::new(),
            exports: Vec::new(),
        }
    }

    /// A target is a Java target when the aspect reported Java information.
    pub fn is_java_target(&self) -> (b: bool)
        ensures
            b == self.java_info is Some,
    {
        self.java_info.is_some()
    }
}

impl Default for TargetIdeInfo {
    fn default() -> (r: Self)
        ensures
            r.label@.len() == 0,
            r.kind@.len() == 0,
            r.build_file is None,
            r.java_info is None,
            r.deps@.len() == 0,
            r.runtime_deps@.len() == 0,
            r.exports@.len() == 0,
    {
        Self::new(String::new(), String::new())
    }
}

/// `s` without its trailing `c` characters.
pub open spec fn trim_end_char(s: Seq<char>, c: char) -> Seq<char>
    decreases s.len(),
{
    if s.len() > 0 && s.last() == c {
        trim_end_char(s.drop_last(), c)
    } else {
        s
    }
}

/// `s` without its leading `c` characters.
pub open spec fn trim_start_char(s: Seq<char>, c: char) -> Seq<char>
    decreases s.len(),
{
    if s.len() > 0 && s[0] == c {
        trim_start_char(s.drop_first(), c)
    } else {
        s
    }
}

/// The path an artifact is best known by: the absolute path when known,
/// else `root/relative` (one `/` between them), else the relative path.
pub open spec fn spec_best_path(
    abs: Option<Seq<char>>,
    root: Option<Seq<char>>,
    rel: Option<Seq<char>>,
) -> Option<Seq<char>> {
    match abs {
        Some(a) => Some(a),
        None => match (root, rel) {
            (Some(r), Some(l)) => Some(
                trim_end_char(r, '/') + seq!['/'] + trim_start_char(l, '/'),
            ),
            (_, Some(l)) => Some(l),
            _ => None,
        },
    }
}

/// The view of an optional string.
pub open spec fn opt_view(o: Option<String>) -> Option<Seq<char>> {
    match o {
        Some(s) => Some(s@),
        None => None,
    }
}

/// Trims trailing `c` characters.
pub fn trim_end_chars(s: &[char], c: char) -> (r: String)
    ensures
        r@ == trim_end_char(s@, c),
{
    let mut end = s.len();
    assert(s@.subrange(0, s@.len() as int) =~= s@);
    while end > 0 && s[end - 1] == c
        invariant
            end <= s@.len(),
            trim_end_char(s@.subrange(0, end as int), c) == trim_end_char(s@, c),
        decreases end,
    {
        assert(s@.subrange(0, end as int).drop_last() =~= s@.subrange(0, end - 1));
        end = end - 1;
    }
    substring(s, 0, end)
}

/// Trims leading `c` characters.
pub fn trim_start_chars(s: &[char], c: char) -> (r: String)
    ensures
        r@ == trim_start_char(s@, c),
{
    let mut start: usize = 0;
    assert(s@.subrange(0, s@.len() as int) =~= s@);
    while start < s.len() && s[start] == c
        invariant
            start <= s@.len(),
            trim_start_char(s@.subrange(start as int, s@.len() as int), c) == trim_start_char(s@, c),
        decreases s@.len() - start,
    {
        assert(s@.subrange(start as int, s@.len() as int).drop_first() =~= s@.subrange(start + 1, s@.len() as int));
        start = start + 1;
    }
    substring(s, start, s.len())
}

impl ArtifactLocation {
    /// The best available path: `absolute_path` if set, else
    /// `root_path` + `/` + `relative_path` with the slashes between them
    /// collapsed, else `relative_path`.
    pub fn best_path(&self) -> (r: Option<String>)
        ensures
            opt_view(r) == spec_best_path(
                opt_view(self.absolute_path),
                opt_view(self.root_path),
                opt_view(self.relative_path),
            ),
    {
        if let Some(abs) = &self.absolute_path {
            return Some(abs.clone());
        }
        match (&self.root_path, &self.relative_path) {
            (Some(root), Some(rel)) => {
                let rc = chars_of(root.as_str());
                let lc = chars_of(rel.as_str());
                let mut out = trim_end_chars(rc.as_slice(), '/');
                push_char(&mut out, '/');
                let tail = trim_start_chars(lc.as_slice(), '/');
                let tc = chars_of(tail.as_str());
                append_chars(&mut out, tc.as_slice());
                Some(out)
            },
            (_, Some(rel)) => Some(rel.clone()),
            _ => None,
        }
    }
}

/// The apparent label of a bzlmod canonical label:
/// `@@<module>~<ext>~<repo>//<rest>` becomes `@<repo>//<rest>`.
/// Labels not of that shape (no `@@`, no `//`, or no `~` in the repository
/// part) have none.
pub open spec fn spec_canonical_to_apparent(l: Seq<char>) -> Option<Seq<char>> {
    if !seq_starts_with(l, seq!['@', '@']) {
        None
    } else {
        let rest = l.subrange(2, l.len() as int);
        match first_occurrence(rest, seq!['/', '/']) {
            None => None,
            Some(p) => {
                let repo = rest.subrange(0, p);
                if !repo.contains('~') {
                    None
                } else {
                    let after = rest.subrange(p, rest.len() as int);
                    let apparent = match last_occurrence(repo, seq!['~']) {
                        Some(t) => repo.subrange(t + 1, repo.len() as int),
                        None => repo,
                    };
                    Some(seq!['@'] + apparent + after)
                }
            },
        }
    }
}

/// Derives the apparent repository label from a bzlmod canonical label
/// (see [`spec_canonical_to_apparent`]).
pub fn canonical_to_apparent_label(label: &str) -> (r: Option<String>)
    ensures
        opt_view(r) == spec_canonical_to_apparent(label@),
{
    let l = chars_of(label);
    let aa = vec!['@', '@'];
    assert(aa@ =~= seq!['@', '@']);
    if !starts_with_chars(l.as_slice(), aa.as_slice()) {
        return None;
    }
    let rest_s = substring(l.as_slice(), 2, l.len());
    let rest = chars_of(rest_s.as_str());
    let ds = vec!['/', '/'];
    assert(ds@ =~= seq!['/', '/']);
    let slash_pos = match find_chars(rest.as_slice(), ds.as_slice()) {
        Some(p) => p,
        None => return None,
    };
    let repo_s = substring(rest.as_slice(), 0, slash_pos);
    let repo = chars_of(repo_s.as_str());
    if !contains_char(repo.as_slice(), '~') {
        return None;
    }
    let after_s = substring(rest.as_slice(), slash_pos, rest.len());
    let after = chars_of(after_s.as_str());
    let apparent = match rfind_char(repo.as_slice(), '~') {
        Some(t) => substring(repo.as_slice(), t + 1, repo.len()),
        None => string_of(repo.as_slice()),
    };
    let ac = chars_of(apparent.as_str());
    let mut out = String::new();
    push_char(&mut out, '@');
    append_chars(&mut out, ac.as_slice());
    append_chars(&mut out, after.as_slice());
    assert(out@ =~= seq!['@'] + ac@ + after@);
    Some(out)
}

} // verus!
