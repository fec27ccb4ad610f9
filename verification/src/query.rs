//! Bazel command lines and what their output says: the Java target query,
//! the aspect build arguments, and the parsing of their output.
use vstd::prelude::*;
use crate::strutil::{chars_of, concat2, concat3, owned, push_char, str_starts_with, str_ends_with,
    seq_starts_with, seq_ends_with, substring};
use crate::text::{trim_ws, trim_str, str_lines, lines_of};
use crate::graph::{str_list, join_with, lemma_str_list_push};
use crate::paths::{path_join, path_join_of};
use crate::ide_info::{ArtifactLocation, ArtifactLocationView, JarInfo, JarInfoView, JavaIdeInfo, JavaIdeInfoView,
    JavacOptions, TargetIdeInfo, TargetIdeInfoView, spec_best_path, opt_view, opt_loc_view, locs_view, jars_view};
use crate::text_proto::clone_strings;

verus! {

/// Why a Bazel command failed.
#[derive(Debug, Clone)]
pub enum BazelError {
    CommandFailed { message: String },
    IoError(String),
    Utf8Error(String),
}

impl BazelError {
    /// The error as text.
    pub fn message(&self) -> (m: String)
        ensures
            m@ == match self {
                BazelError::CommandFailed { message } => "Bazel command failed: "@ + message@,
                BazelError::IoError(e) => "IO error: "@ + e@,
                BazelError::Utf8Error(e) => "UTF-8 error: "@ + e@,
            },
    {
        match self {
            BazelError::CommandFailed { message } => concat2("Bazel command failed: ", message.as_str()),
            BazelError::IoError(e) => concat2("IO error: ", e.as_str()),
            BazelError::Utf8Error(e) => concat2("UTF-8 error: ", e.as_str()),
        }
    }
}

/// The name of the Bazel binary on the platform.
pub fn bazel_binary_name(windows: bool) -> (r: String)
    ensures
        r@ == (if windows { "bazel.exe"@ } else { "bazel"@ }),
{
    if windows {
        owned("bazel.exe")
    } else {
        owned("bazel")
    }
}

/// Runs Bazel commands in a workspace with an aspect.
pub struct BazelInvoker {
    bazel_path: String,
    workspace_root: String,
    aspect_label: String,
}

impl BazelInvoker {
    /// The Bazel binary the invoker runs.
    pub closed spec fn spec_bazel_path(&self) -> Seq<char> {
        self.bazel_path@
    }

    /// The workspace the invoker runs in.
    pub closed spec fn spec_workspace_root(&self) -> Seq<char> {
        self.workspace_root@
    }

    /// The aspect the invoker builds with.
    pub closed spec fn spec_aspect_label(&self) -> Seq<char> {
        self.aspect_label@
    }

    /// An invoker for a Bazel binary, a workspace and an aspect.
    pub fn new(bazel_path: &str, workspace_root: &str, aspect_label: &str) -> (r: Self)
        ensures
            r.spec_bazel_path() == bazel_path@,
            r.spec_workspace_root() == workspace_root@,
            r.spec_aspect_label() == aspect_label@,
    {
        BazelInvoker {
            bazel_path: owned(bazel_path),
            workspace_root: owned(workspace_root),
            aspect_label: owned(aspect_label),
        }
    }

    /// An invoker that runs the platform's `bazel` binary found on `PATH`.
    pub fn with_default_bazel(workspace_root: &str, aspect_label: &str, windows: bool) -> (r: Self)
        ensures
            r.spec_bazel_path() == (if windows { "bazel.exe"@ } else { "bazel"@ }),
            r.spec_workspace_root() == workspace_root@,
            r.spec_aspect_label() == aspect_label@,
    {
        let b = bazel_binary_name(windows);
        Self::new(b.as_str(), workspace_root, aspect_label)
    }

    /// The Bazel binary.
    pub fn bazel_path(&self) -> (r: &str)
        ensures
            r@ == self.spec_bazel_path(),
    {
        self.bazel_path.as_str()
    }

    /// The workspace root.
    pub fn workspace_root(&self) -> (r: &str)
        ensures
            r@ == self.spec_workspace_root(),
    {
        self.workspace_root.as_str()
    }

    /// The aspect label.
    pub fn aspect_label(&self) -> (r: &str)
        ensures
            r@ == self.spec_aspect_label(),
    {
        self.aspect_label.as_str()
    }

    /// Where Bazel's outputs live: `bazel-out` under the workspace.
    pub fn get_execution_root(&self) -> (r: String)
        ensures
            r@ == path_join_of(self.spec_workspace_root(), "bazel-out"@),
    {
        path_join(self.workspace_root.as_str(), "bazel-out")
    }
}

/// The optional build flags as a list.
pub open spec fn flags_of(f: Option<Seq<Seq<char>>>) -> Seq<Seq<char>> {
    match f {
        Some(l) => l,
        None => Seq::empty(),
    }
}

/// The view of optional flags.
pub open spec fn opt_strs(f: Option<&[String]>) -> Option<Seq<Seq<char>>> {
    match f {
        Some(l) => Some(str_list(l@)),
        None => None,
    }
}

/// Appends copies of strings to a list.
fn extend_strings(v: &mut Vec<String>, extra: &[String])
    ensures
        str_list(final(v)@) == str_list(old(v)@) + str_list(extra@),
{
    let mut k: usize = 0;
    while k < extra.len()
        invariant
            k <= extra@.len(),
            str_list(v@) == str_list(old(v)@) + str_list(extra@).subrange(0, k as int),
        decreases extra@.len() - k,
    {
        let ghost before = v@;
        let s = extra[k].clone();
        v.push(s);
        proof {
            lemma_str_list_push(before, s);
            assert(str_list(old(v)@) + str_list(extra@).subrange(0, k + 1) =~= (str_list(old(v)@)
                + str_list(extra@).subrange(0, k as int)).push(extra@[k as int]@));
        }
        k = k + 1;
    }
    proof {
        assert(str_list(extra@).subrange(0, extra@.len() as int) =~= str_list(extra@));
    }
}

/// The arguments of a label query: `query`, the build flags,
/// `--output=label` and the query.
pub open spec fn spec_query_args(flags: Option<Seq<Seq<char>>>, query: Seq<char>) -> Seq<Seq<char>> {
    seq!["query"@] + flags_of(flags) + seq!["--output=label"@, query]
}

/// Builds the arguments of a label query.
pub fn query_args(build_flags: Option<&[String]>, query: &str) -> (r: Vec<String>)
    ensures
        str_list(r@) == spec_query_args(opt_strs(build_flags), query@),
{
    let mut args: Vec<String> = Vec::new();
    args.push(owned("query"));
    proof {
        assert(str_list(args@) =~= seq!["query"@]);
    }
    if let Some(flags) = build_flags {
        extend_strings(&mut args, flags);
    }
    let ghost before = args@;
    let o = owned("--output=label");
    args.push(o);
    proof {
        lemma_str_list_push(before, o);
    }
    let ghost before2 = args@;
    let q = owned(query);
    args.push(q);
    proof {
        lemma_str_list_push(before2, q);
        assert(str_list(args@) =~= spec_query_args(opt_strs(build_flags), query@));
    }
    args
}

/// The arguments of an aspect build: `build`, the build flags, the
/// aspect, the output groups of the IntelliJ aspect, all results shown,
/// then the targets.
pub open spec fn spec_aspect_build_args(
    targets: Seq<Seq<char>>,
    aspect: Seq<char>,
    flags: Option<Seq<Seq<char>>>,
) -> Seq<Seq<char>> {
    seq!["build"@] + flags_of(flags) + seq![
        "--aspects="@ + aspect,
        "--output_groups=intellij-info-java,intellij-info-generic"@,
        "--show_result=2147483647"@,
    ] + targets
}

/// Builds the arguments of an aspect build.
pub fn aspect_build_args(targets: &[String], aspect_file: &str, build_flags: Option<&[String]>) -> (r: Vec<String>)
    ensures
        str_list(r@) == spec_aspect_build_args(str_list(targets@), aspect_file@, opt_strs(build_flags)),
{
    let mut args: Vec<String> = Vec::new();
    args.push(owned("build"));
    proof {
        assert(str_list(args@) =~= seq!["build"@]);
    }
    if let Some(flags) = build_flags {
        extend_strings(&mut args, flags);
    }
    let ghost b0 = args@;
    let a = concat2("--aspects=", aspect_file);
    args.push(a);
    proof {
        lemma_str_list_push(b0, a);
    }
    let ghost b1 = args@;
    let g = owned("--output_groups=intellij-info-java,intellij-info-generic");
    args.push(g);
    proof {
        lemma_str_list_push(b1, g);
    }
    let ghost b2 = args@;
    let s = owned("--show_result=2147483647");
    args.push(s);
    proof {
        lemma_str_list_push(b2, s);
    }
    extend_strings(&mut args, targets);
    proof {
        assert(str_list(args@) =~= spec_aspect_build_args(str_list(targets@), aspect_file@, opt_strs(build_flags)));
    }
    args
}

/// Strings joined with a separator.
fn join_sep(l: &Vec<String>, sep: &str) -> (r: String)
    ensures
        r@ == join_with(str_list(l@), sep@),
{
    let mut r = String::new();
    let mut k: usize = 0;
    while k < l.len()
        invariant
            k <= l@.len(),
            r@ == join_with(str_list(l@).subrange(0, k as int), sep@),
        decreases l@.len() - k,
    {
        let ghost before = r@;
        if k > 0 {
            r.append(sep);
        }
        r.append(l[k].as_str());
        proof {
            let sub = str_list(l@).subrange(0, k + 1);
            assert(sub.drop_last() =~= str_list(l@).subrange(0, k as int));
            if k == 0 {
                assert(r@ =~= sub[0]);
            } else {
                assert(r@ =~= before + sep@ + sub.last());
            }
        }
        k = k + 1;
    }
    proof {
        assert(str_list(l@).subrange(0, l@.len() as int) =~= str_list(l@));
    }
    r
}

/// The Java rule kinds the query looks for.
pub open spec fn java_kinds() -> Seq<Seq<char>> {
    seq!["java_library"@, "java_binary"@, "java_test"@, "java_import"@]
}

/// The scope queried when none is given.
pub open spec fn default_scope() -> Seq<char> {
    "//...:*"@
}

/// `kind(k, scope)` for each Java kind, joined by ` union `.
pub open spec fn kinds_in(scope: Seq<char>) -> Seq<char> {
    join_with(java_kinds().map_values(|k: Seq<char>| "kind("@ + k + ", "@ + scope + ")"@), " union "@)
}

/// The patterns that do not start with `-`.
pub open spec fn positive_patterns(p: Seq<Seq<char>>) -> Seq<Seq<char>>
    decreases p.len(),
{
    if p.len() == 0 {
        Seq::empty()
    } else {
        let r = positive_patterns(p.drop_last());
        if p.last().len() > 0 && p.last()[0] == '-' {
            r
        } else {
            r.push(p.last())
        }
    }
}

/// The patterns that start with `-`, without it.
pub open spec fn negative_patterns(p: Seq<Seq<char>>) -> Seq<Seq<char>>
    decreases p.len(),
{
    if p.len() == 0 {
        Seq::empty()
    } else {
        let r = negative_patterns(p.drop_last());
        if p.last().len() > 0 && p.last()[0] == '-' {
            r.push(p.last().drop_first())
        } else {
            r
        }
    }
}

/// The Bazel query for the Java targets of a scope: no scope or an empty
/// one means the whole workspace; the positive patterns, joined by
/// ` union `, form the scope (the whole workspace when there are none);
/// the negative ones follow `except`.
pub open spec fn spec_java_target_query(scope: Option<Seq<Seq<char>>>) -> Seq<char> {
    match scope {
        Some(p) if p.len() > 0 => {
            let pos = positive_patterns(p);
            let neg = negative_patterns(p);
            let sc = if pos.len() == 0 {
                default_scope()
            } else {
                join_with(pos, " union "@)
            };
            if neg.len() == 0 {
                kinds_in(sc)
            } else {
                kinds_in(sc) + " except "@ + join_with(neg, " union "@)
            }
        },
        _ => kinds_in(default_scope()),
    }
}

/// `kind(k, scope)` for each Java kind, joined by ` union `.
fn kinds_query(scope: &str) -> (r: String)
    ensures
        r@ == kinds_in(scope@),
{
    let mut parts: Vec<String> = Vec::new();
    let kinds: [&str; 4] = ["java_library", "java_binary", "java_test", "java_import"];
    let mut k: usize = 0;
    let ghost pieces = java_kinds().map_values(|q: Seq<char>| "kind("@ + q + ", "@ + scope@ + ")"@);
    proof {
        reveal_strlit("java_library");
        reveal_strlit("java_binary");
        reveal_strlit("java_test");
        reveal_strlit("java_import");
        assert(kinds@.map_values(|s: &str| s@) =~= java_kinds());
    }
    while k < 4
        invariant
            k <= 4,
            kinds@.map_values(|s: &str| s@) == java_kinds(),
            pieces == java_kinds().map_values(|q: Seq<char>| "kind("@ + q + ", "@ + scope@ + ")"@),
            str_list(parts@) == pieces.subrange(0, k as int),
        decreases 4 - k,
    {
        let a = concat3("kind(", kinds[k], ", ");
        let b = concat3(a.as_str(), scope, ")");
        let ghost before = parts@;
        parts.push(b);
        proof {
            assert(kinds@.map_values(|s: &str| s@)[k as int] == kinds@[k as int]@);
            lemma_str_list_push(before, b);
            assert(str_list(parts@) =~= pieces.subrange(0, k + 1));
        }
        k = k + 1;
    }
    proof {
        assert(pieces.subrange(0, 4) =~= pieces);
    }
    join_sep(&parts, " union ")
}

/// Builds the Bazel query that finds the Java targets of a scope.
pub fn build_java_target_query(scope_patterns: Option<&[String]>) -> (r: String)
    ensures
        r@ == spec_java_target_query(opt_strs(scope_patterns)),
{
    let patterns = match scope_patterns {
        Some(p) => {
            if p.len() == 0 {
                return kinds_query("//...:*");
            }
            p
        },
        None => {
            return kinds_query("//...:*");
        },
    };
    let ghost pv = str_list(patterns@);
    let mut pos: Vec<String> = Vec::new();
    let mut neg: Vec<String> = Vec::new();
    let mut k: usize = 0;
    while k < patterns.len()
        invariant
            k <= patterns@.len(),
            pv == str_list(patterns@),
            str_list(pos@) == positive_patterns(pv.subrange(0, k as int)),
            str_list(neg@) == negative_patterns(pv.subrange(0, k as int)),
        decreases patterns@.len() - k,
    {
        let pc = chars_of(patterns[k].as_str());
        proof {
            let t = pv.subrange(0, k + 1);
            assert(t.drop_last() =~= pv.subrange(0, k as int));
            assert(t.last() == patterns@[k as int]@);
        }
        if pc.len() > 0 && pc[0] == '-' {
            let ghost before = neg@;
            let n = substring(&pc, 1, pc.len());
            neg.push(n);
            proof {
                lemma_str_list_push(before, n);
                assert(n@ =~= pc@.drop_first());
            }
        } else {
            let ghost before = pos@;
            let n = patterns[k].clone();
            pos.push(n);
            proof {
                lemma_str_list_push(before, n);
            }
        }
        k = k + 1;
    }
    proof {
        assert(pv.subrange(0, patterns@.len() as int) =~= pv);
    }
    let scope = if pos.len() == 0 {
        owned("//...:*")
    } else {
        join_sep(&pos, " union ")
    };
    let q = kinds_query(scope.as_str());
    if neg.len() == 0 {
        q
    } else {
        let n = join_sep(&neg, " union ");
        concat3(q.as_str(), " except ", n.as_str())
    }
}

/// The trimmed lines that are labels (start with `//`).
pub open spec fn label_lines(ls: Seq<Seq<char>>) -> Seq<Seq<char>>
    decreases ls.len(),
{
    if ls.len() == 0 {
        Seq::empty()
    } else {
        let r = label_lines(ls.drop_last());
        let t = trim_ws(ls.last());
        if t.len() > 0 && seq_starts_with(t, "//"@) {
            r.push(t)
        } else {
            r
        }
    }
}

/// The labels in `bazel query --output=label` output, one per line.
pub fn parse_label_output(output: &str) -> (r: Vec<String>)
    ensures
        str_list(r@) == label_lines(str_lines(output@)),
{
    let ls = lines_of(output);
    let ghost all = str_list(ls@);
    let mut r: Vec<String> = Vec::new();
    let mut k: usize = 0;
    while k < ls.len()
        invariant
            k <= ls@.len(),
            all == str_list(ls@),
            str_list(r@) == label_lines(all.subrange(0, k as int)),
        decreases ls@.len() - k,
    {
        let t = trim_str(ls[k].as_str());
        proof {
            let s = all.subrange(0, k + 1);
            assert(s.drop_last() =~= all.subrange(0, k as int));
            assert(s.last() == ls@[k as int]@);
        }
        if !t.as_str().is_empty() && str_starts_with(t.as_str(), "//") {
            let ghost before = r@;
            r.push(t);
            proof {
                lemma_str_list_push(before, t);
            }
        }
        k = k + 1;
    }
    proof {
        assert(all.subrange(0, ls@.len() as int) =~= all);
    }
    r
}

/// The trimmed non-empty lines.
pub open spec fn nonempty_lines(ls: Seq<Seq<char>>) -> Seq<Seq<char>>
    decreases ls.len(),
{
    if ls.len() == 0 {
        Seq::empty()
    } else {
        let r = nonempty_lines(ls.drop_last());
        let t = trim_ws(ls.last());
        if t.len() > 0 {
            r.push(t)
        } else {
            r
        }
    }
}

/// The targets a query printed: its trimmed non-empty lines.
pub fn query_output_targets(stdout: &str) -> (r: Vec<String>)
    ensures
        str_list(r@) == nonempty_lines(str_lines(stdout@)),
{
    let ls = lines_of(stdout);
    let ghost all = str_list(ls@);
    let mut r: Vec<String> = Vec::new();
    let mut k: usize = 0;
    while k < ls.len()
        invariant
            k <= ls@.len(),
            all == str_list(ls@),
            str_list(r@) == nonempty_lines(all.subrange(0, k as int)),
        decreases ls@.len() - k,
    {
        let t = trim_str(ls[k].as_str());
        proof {
            let s = all.subrange(0, k + 1);
            assert(s.drop_last() =~= all.subrange(0, k as int));
            assert(s.last() == ls@[k as int]@);
        }
        if !t.as_str().is_empty() {
            let ghost before = r@;
            r.push(t);
            proof {
                lemma_str_list_push(before, t);
            }
        }
        k = k + 1;
    }
    proof {
        assert(all.subrange(0, ls@.len() as int) =~= all);
    }
    r
}

/// The suffix of the files the IntelliJ aspect writes.
pub open spec fn info_suffix() -> Seq<char> {
    ".intellij-info.txt"@
}

/// The trimmed lines that name aspect output files, each once, in order
/// of first appearance.
pub open spec fn info_locations(ls: Seq<Seq<char>>) -> Seq<Seq<char>>
    decreases ls.len(),
{
    if ls.len() == 0 {
        Seq::empty()
    } else {
        let r = info_locations(ls.drop_last());
        let t = trim_ws(ls.last());
        if seq_ends_with(t, info_suffix()) && !r.contains(t) {
            r.push(t)
        } else {
            r
        }
    }
}

/// Whether a file name is that of an aspect output file.
pub fn is_aspect_output(name: &str) -> (b: bool)
    ensures
        b == seq_ends_with(name@, info_suffix()),
{
    str_ends_with(name, ".intellij-info.txt")
}

/// The aspect output files named in the build's messages, without repeats.
pub fn parse_aspect_output_locations(output: &str) -> (r: Vec<String>)
    ensures
        str_list(r@) == info_locations(str_lines(output@)),
{
    let ls = lines_of(output);
    let ghost all = str_list(ls@);
    let mut r: Vec<String> = Vec::new();
    let mut k: usize = 0;
    while k < ls.len()
        invariant
            k <= ls@.len(),
            all == str_list(ls@),
            str_list(r@) == info_locations(all.subrange(0, k as int)),
        decreases ls@.len() - k,
    {
        let t = trim_str(ls[k].as_str());
        proof {
            let s = all.subrange(0, k + 1);
            assert(s.drop_last() =~= all.subrange(0, k as int));
            assert(s.last() == ls@[k as int]@);
        }
        if is_aspect_output(t.as_str()) {
            let seen = crate::assoc::find_str(&r, t.as_str());
            proof {
                if seen is None {
                    assert forall|i: int| 0 <= i < str_list(r@).len() implies str_list(r@)[i] != t@ by {
                        assert(str_list(r@)[i] == r@[i]@);
                    }
                    assert(!str_list(r@).contains(t@));
                } else {
                    let i = seen->0 as int;
                    assert(str_list(r@)[i] == t@);
                    assert(str_list(r@).contains(t@));
                }
            }
            if seen.is_none() {
                let ghost before = r@;
                r.push(t);
                proof {
                    lemma_str_list_push(before, t);
                }
            }
        }
        k = k + 1;
    }
    proof {
        assert(all.subrange(0, ls@.len() as int) =~= all);
    }
    r
}

/// What a label query came to: a failed command reports its error
/// output; output that is not UTF-8 is an error; else the targets it
/// printed.
pub open spec fn spec_query_outcome(
    succeeded: bool,
    stdout: Result<Seq<char>, Seq<char>>,
    stderr: Seq<char>,
) -> Result<Seq<Seq<char>>, BazelErrorView> {
    if !succeeded {
        Err(BazelErrorView::CommandFailed("bazel query failed: "@ + stderr))
    } else {
        match stdout {
            Err(e) => Err(BazelErrorView::Utf8Error(e)),
            Ok(s) => Ok(nonempty_lines(str_lines(s))),
        }
    }
}

/// Abstract Bazel error.
pub enum BazelErrorView {
    CommandFailed(Seq<char>),
    IoError(Seq<char>),
    Utf8Error(Seq<char>),
}

impl View for BazelError {
    type V = BazelErrorView;

    open spec fn view(&self) -> BazelErrorView {
        match self {
            BazelError::CommandFailed { message } => BazelErrorView::CommandFailed(message@),
            BazelError::IoError(e) => BazelErrorView::IoError(e@),
            BazelError::Utf8Error(e) => BazelErrorView::Utf8Error(e@),
        }
    }
}

/// The view of a text result.
pub open spec fn text_result(r: Result<String, String>) -> Result<Seq<char>, Seq<char>> {
    match r {
        Ok(s) => Ok(s@),
        Err(e) => Err(e@),
    }
}

/// Interprets the outcome of a label query.
pub fn query_outcome(succeeded: bool, stdout: Result<String, String>, stderr: &str) -> (r: Result<Vec<String>, BazelError>)
    ensures
        match (r, spec_query_outcome(succeeded, text_result(stdout), stderr@)) {
            (Ok(v), Ok(w)) => str_list(v@) == w,
            (Err(e), Err(f)) => e@ == f,
            _ => false,
        },
{
    if !succeeded {
        return Err(BazelError::CommandFailed { message: concat2("bazel query failed: ", stderr) });
    }
    match stdout {
        Err(e) => Err(BazelError::Utf8Error(e)),
        Ok(s) => Ok(query_output_targets(s.as_str())),
    }
}

/// What an aspect build came to: error output that is not UTF-8 is an
/// error; a failed command reports its error output; else the error
/// output, where Bazel names the files it wrote.
pub open spec fn spec_aspect_build_outcome(
    succeeded: bool,
    stderr: Result<Seq<char>, Seq<char>>,
) -> Result<Seq<char>, BazelErrorView> {
    match stderr {
        Err(e) => Err(BazelErrorView::Utf8Error(e)),
        Ok(s) => if succeeded {
            Ok(s)
        } else {
            Err(BazelErrorView::CommandFailed("bazel build with aspects failed: "@ + s))
        },
    }
}

/// Interprets the outcome of an aspect build.
pub fn aspect_build_outcome(succeeded: bool, stderr: Result<String, String>) -> (r: Result<String, BazelError>)
    ensures
        match (r, spec_aspect_build_outcome(succeeded, text_result(stderr))) {
            (Ok(v), Ok(w)) => v@ == w,
            (Err(e), Err(f)) => e@ == f,
            _ => false,
        },
{
    match stderr {
        Err(e) => Err(BazelError::Utf8Error(e)),
        Ok(s) => if succeeded {
            Ok(s)
        } else {
            Err(BazelError::CommandFailed { message: concat2("bazel build with aspects failed: ", s.as_str()) })
        },
    }
}

/// `s` with every `'` written as `'\''`.
pub open spec fn escape_quotes(s: Seq<char>) -> Seq<char>
    decreases s.len(),
{
    if s.len() == 0 {
        Seq::empty()
    } else if s.last() == '\'' {
        escape_quotes(s.drop_last()) + seq!['\'', '\\', '\'', '\'']
    } else {
        escape_quotes(s.drop_last()).push(s.last())
    }
}

/// A shell word: `s` in single quotes, each quote in it closed, escaped
/// and reopened.
pub fn shell_escape_str(s: &str) -> (r: String)
    ensures
        r@ == seq!['\''] + escape_quotes(s@) + seq!['\''],
{
    let c = chars_of(s);
    let mut r = String::new();
    push_char(&mut r, '\'');
    let mut k: usize = 0;
    while k < c.len()
        invariant
            k <= c@.len(),
            c@ == s@,
            r@ == seq!['\''] + escape_quotes(c@.subrange(0, k as int)),
        decreases c@.len() - k,
    {
        let ghost before = r@;
        if c[k] == '\'' {
            push_char(&mut r, '\'');
            push_char(&mut r, '\\');
            push_char(&mut r, '\'');
            push_char(&mut r, '\'');
        } else {
            push_char(&mut r, c[k]);
        }
        proof {
            let t = c@.subrange(0, k + 1);
            assert(t.drop_last() =~= c@.subrange(0, k as int));
            assert(t.last() == c@[k as int]);
            assert(r@ =~= seq!['\''] + escape_quotes(t));
        }
        k = k + 1;
    }
    push_char(&mut r, '\'');
    proof {
        assert(c@.subrange(0, c@.len() as int) =~= c@);
    }
    r
}

/// A location with its absolute path filled in: when it has none, the
/// workspace root joined with its best path, if it has one.
pub open spec fn resolved_loc(a: ArtifactLocationView, ws: Seq<char>) -> ArtifactLocationView {
    match (a.absolute_path, spec_best_path(a.absolute_path, a.root_path, a.relative_path)) {
        (None, Some(c)) => ArtifactLocationView { absolute_path: Some(path_join_of(ws, c)), ..a },
        _ => a,
    }
}

/// An optional location resolved.
pub open spec fn resolved_opt(a: Option<ArtifactLocationView>, ws: Seq<char>) -> Option<ArtifactLocationView> {
    match a {
        Some(l) => Some(resolved_loc(l, ws)),
        None => None,
    }
}

/// Locations resolved.
pub open spec fn resolved_locs(l: Seq<ArtifactLocationView>, ws: Seq<char>) -> Seq<ArtifactLocationView> {
    l.map_values(|a: ArtifactLocationView| resolved_loc(a, ws))
}

/// A JAR with its class, source and (when `iface`) interface JARs resolved.
pub open spec fn resolved_jar(j: JarInfoView, ws: Seq<char>, iface: bool) -> JarInfoView {
    JarInfoView {
        jar: resolved_loc(j.jar, ws),
        source_jar: resolved_opt(j.source_jar, ws),
        interface_jar: if iface { resolved_opt(j.interface_jar, ws) } else { j.interface_jar },
    }
}

/// JARs resolved.
pub open spec fn resolved_jars(l: Seq<JarInfoView>, ws: Seq<char>, iface: bool) -> Seq<JarInfoView> {
    l.map_values(|j: JarInfoView| resolved_jar(j, ws, iface))
}

/// A target's Java artifacts with absolute paths: the JARs (with their
/// source and interface JARs), sources, compile, runtime and source JARs,
/// and the generated JARs (with their source JARs).
pub open spec fn resolved_info(t: TargetIdeInfoView, ws: Seq<char>) -> TargetIdeInfoView {
    match t.java_info {
        Some(j) => TargetIdeInfoView {
            java_info: Some(JavaIdeInfoView {
                jars: resolved_jars(j.jars, ws, true),
                sources: resolved_locs(j.sources, ws),
                compile_jars: resolved_locs(j.compile_jars, ws),
                runtime_jars: resolved_locs(j.runtime_jars, ws),
                source_jars: resolved_locs(j.source_jars, ws),
                generated_jars: resolved_jars(j.generated_jars, ws, false),
                ..j
            }),
            ..t
        },
        None => t,
    }
}

fn copy_opt_str(o: &Option<String>) -> (r: Option<String>)
    ensures
        opt_view(r) == opt_view(*o),
{
    match o {
        Some(s) => Some(s.clone()),
        None => None,
    }
}

fn resolve_loc(a: &ArtifactLocation, ws: &str) -> (r: ArtifactLocation)
    ensures
        r@ == resolved_loc(a@, ws@),
{
    let abs = if a.absolute_path.is_none() {
        match a.best_path() {
            Some(c) => Some(path_join(ws, c.as_str())),
            None => None,
        }
    } else {
        copy_opt_str(&a.absolute_path)
    };
    ArtifactLocation {
        relative_path: copy_opt_str(&a.relative_path),
        absolute_path: abs,
        is_source: a.is_source,
        is_external: a.is_external,
        root_execution_path_fragment: copy_opt_str(&a.root_execution_path_fragment),
        root_path: copy_opt_str(&a.root_path),
    }
}

fn resolve_opt_loc(a: &Option<ArtifactLocation>, ws: &str) -> (r: Option<ArtifactLocation>)
    ensures
        opt_loc_view(r) == resolved_opt(opt_loc_view(*a), ws@),
{
    match a {
        Some(l) => Some(resolve_loc(l, ws)),
        None => None,
    }
}

fn copy_opt_loc(a: &Option<ArtifactLocation>) -> (r: Option<ArtifactLocation>)
    ensures
        opt_loc_view(r) == opt_loc_view(*a),
{
    match a {
        Some(l) => Some(ArtifactLocation {
            relative_path: copy_opt_str(&l.relative_path),
            absolute_path: copy_opt_str(&l.absolute_path),
            is_source: l.is_source,
            is_external: l.is_external,
            root_execution_path_fragment: copy_opt_str(&l.root_execution_path_fragment),
            root_path: copy_opt_str(&l.root_path),
        }),
        None => None,
    }
}

fn resolve_locs(l: &Vec<ArtifactLocation>, ws: &str) -> (r: Vec<ArtifactLocation>)
    ensures
        locs_view(r) == resolved_locs(locs_view(*l), ws@),
{
    let mut r: Vec<ArtifactLocation> = Vec::new();
    let mut k: usize = 0;
    while k < l.len()
        invariant
            k <= l@.len(),
            r@.len() == k,
            locs_view(r) == resolved_locs(locs_view(*l), ws@).subrange(0, k as int),
        decreases l@.len() - k,
    {
        let a = resolve_loc(&l[k], ws);
        let ghost before = r@;
        r.push(a);
        proof {
            assert(r@ == before.push(a));
            assert(locs_view(r).len() == k + 1);
            assert(locs_view(r) =~= resolved_locs(locs_view(*l), ws@).subrange(0, k + 1));
        }
        k = k + 1;
    }
    proof {
        assert(resolved_locs(locs_view(*l), ws@).subrange(0, l@.len() as int) =~= resolved_locs(locs_view(*l), ws@));
    }
    r
}

fn resolve_jars(l: &Vec<JarInfo>, ws: &str, iface: bool) -> (r: Vec<JarInfo>)
    ensures
        jars_view(r) == resolved_jars(jars_view(*l), ws@, iface),
{
    let mut r: Vec<JarInfo> = Vec::new();
    let mut k: usize = 0;
    while k < l.len()
        invariant
            k <= l@.len(),
            r@.len() == k,
            jars_view(r) == resolved_jars(jars_view(*l), ws@, iface).subrange(0, k as int),
        decreases l@.len() - k,
    {
        let j = &l[k];
        let nj = JarInfo {
            jar: resolve_loc(&j.jar, ws),
            source_jar: resolve_opt_loc(&j.source_jar, ws),
            interface_jar: if iface { resolve_opt_loc(&j.interface_jar, ws) } else { copy_opt_loc(&j.interface_jar) },
        };
        let ghost before = r@;
        r.push(nj);
        proof {
            assert(nj@ == resolved_jar(j@, ws@, iface));
            assert(r@ == before.push(nj));
            assert(jars_view(r).len() == k + 1);
            assert(jars_view(r) =~= resolved_jars(jars_view(*l), ws@, iface).subrange(0, k + 1));
        }
        k = k + 1;
    }
    proof {
        assert(resolved_jars(jars_view(*l), ws@, iface).subrange(0, l@.len() as int) =~= resolved_jars(jars_view(*l), ws@, iface));
    }
    r
}

/// Fills in the absolute paths of a target's Java artifacts, relative to
/// the workspace root, where the aspect left them out.
pub fn resolve_artifact_paths(info: &mut TargetIdeInfo, workspace_root: &str)
    ensures
        final(info)@ == resolved_info(old(info)@, workspace_root@),
{
    let resolved = match &info.java_info {
        Some(j) => Some(JavaIdeInfo {
            sources: resolve_locs(&j.sources, workspace_root),
            jars: resolve_jars(&j.jars, workspace_root, true),
            generated_jars: resolve_jars(&j.generated_jars, workspace_root, false),
            compile_jars: resolve_locs(&j.compile_jars, workspace_root),
            runtime_jars: resolve_locs(&j.runtime_jars, workspace_root),
            annotation_processors: clone_strings(&j.annotation_processors),
            source_jars: resolve_locs(&j.source_jars, workspace_root),
            javac_options: match &j.javac_options {
                Some(o) => Some(JavacOptions { options: clone_strings(&o.options) }),
                None => None,
            },
        }),
        None => None,
    };
    if resolved.is_some() {
        info.java_info = resolved;
    }
}

/// Every label a query output yields starts with `//`.
pub proof fn law_labels_are_workspace_labels(ls: Seq<Seq<char>>)
    ensures
        forall|i: int| 0 <= i < label_lines(ls).len() ==> seq_starts_with(#[trigger] label_lines(ls)[i], "//"@),
    decreases ls.len(),
{
    if ls.len() > 0 {
        law_labels_are_workspace_labels(ls.drop_last());
        let r = label_lines(ls.drop_last());
        let t = label_lines(ls);
        assert forall|i: int| 0 <= i < t.len() implies seq_starts_with(#[trigger] t[i], "//"@) by {
            if i < r.len() {
                assert(t[i] == r[i]);
            }
        }
    }
}

/// The aspect output locations name aspect output files, each once.
pub proof fn law_info_locations_distinct(ls: Seq<Seq<char>>)
    ensures
        info_locations(ls).no_duplicates(),
        forall|i: int| 0 <= i < info_locations(ls).len() ==> seq_ends_with(#[trigger] info_locations(ls)[i], info_suffix()),
    decreases ls.len(),
{
    if ls.len() > 0 {
        law_info_locations_distinct(ls.drop_last());
        let r = info_locations(ls.drop_last());
        let t = info_locations(ls);
        assert forall|i: int| 0 <= i < t.len() implies seq_ends_with(#[trigger] t[i], info_suffix()) by {
            if i < r.len() {
                assert(t[i] == r[i]);
            }
        }
        if t.len() > r.len() {
            assert forall|i: int, j: int| 0 <= i < j < t.len() implies t[i] != t[j] by {
                if j == r.len() {
                    assert(t[i] == r[i]);
                    assert(!r.contains(t[j]));
                } else {
                    assert(t[i] == r[i] && t[j] == r[j]);
                }
            }
        }
    }
}

} // verus!
