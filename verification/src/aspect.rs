//! The bundled IntelliJ aspect: Bazel version detection, adapting the
//! aspect to older Bazel versions, and `.bazelignore` conflicts.
use vstd::prelude::*;
use crate::strutil::{chars_of, substring, str_starts_with, str_contains, str_eq, concat3, owned, seq_starts_with, seq_contains_sub};
use crate::jars::{split_char, split_at_char, lemma_split_nonempty};
use crate::text::{trim_ws, trim_str, str_lines, lines_of, spec_parse_u32, parse_u32};
use crate::graph::{str_list, join_with, join_strings};
use crate::hashing::{le_bytes, version_input};

verus! {

/// Why the aspect files could not be written.
#[derive(Debug, Clone)]
pub enum AspectError {
    IoError(String),
    Utf8Error(String),
}

impl AspectError {
    /// The error as text.
    pub fn message(&self) -> (m: String)
        ensures
            m@ == match self {
                AspectError::IoError(e) => "IO error: "@ + e@,
                AspectError::Utf8Error(e) => "UTF-8 error: "@ + e@,
            },
    {
        match self {
            AspectError::IoError(e) => crate::strutil::concat2("IO error: ", e.as_str()),
            AspectError::Utf8Error(e) => crate::strutil::concat2("UTF-8 error: ", e.as_str()),
        }
    }
}

/// The Bazel version the tools assume when it cannot be detected.
pub open spec fn default_bazel_major() -> u32 {
    8
}

/// The major version in `bazel --version` output: the text is trimmed, a
/// leading `bazel ` dropped, and what comes before the first `.` parsed.
pub open spec fn spec_major_version(out: Seq<char>) -> Option<u32> {
    let t = trim_ws(out);
    let v = if seq_starts_with(t, "bazel "@) {
        t.subrange(6, t.len() as int)
    } else {
        t
    };
    spec_parse_u32(split_char(v, '.')[0])
}

/// Parses the major version number from `bazel --version` output.
pub fn parse_bazel_major_version(version_output: &str) -> (r: Option<u32>)
    ensures
        r == spec_major_version(version_output@),
{
    let t = trim_str(version_output);
    let tc = chars_of(t.as_str());
    proof {
        reveal_strlit("bazel ");
    }
    let v = if str_starts_with(t.as_str(), "bazel ") {
        substring(&tc, 6, tc.len())
    } else {
        substring(&tc, 0, tc.len())
    };
    proof {
        assert(tc@.subrange(0, tc@.len() as int) =~= tc@);
    }
    let pieces = split_at_char(v.as_str(), '.');
    proof {
        lemma_split_nonempty(v@, '.');
    }
    parse_u32(pieces[0].as_str())
}

/// The Bazel major version from the outcome of `bazel --version`: the
/// parsed version when the command succeeded and its output parses, else 8.
pub fn bazel_major_from_output(succeeded: bool, stdout: &str) -> (r: u32)
    ensures
        r == (if succeeded {
            match spec_major_version(stdout@) {
                Some(v) => v,
                None => default_bazel_major(),
            }
        } else {
            default_bazel_major()
        }),
{
    if succeeded {
        match parse_bazel_major_version(stdout) {
            Some(v) => v,
            None => 8,
        }
    } else {
        8
    }
}

/// The lines that do not mention `toolchains_aspects`.
pub open spec fn keep_lines(ls: Seq<Seq<char>>) -> Seq<Seq<char>>
    decreases ls.len(),
{
    if ls.len() == 0 {
        Seq::empty()
    } else {
        let r = keep_lines(ls.drop_last());
        if seq_contains_sub(ls.last(), "toolchains_aspects"@) {
            r
        } else {
            r.push(ls.last())
        }
    }
}

/// The bundled aspect for a Bazel major version: unchanged from Bazel 9
/// on; before that, its lines mentioning `toolchains_aspects` (an
/// attribute older versions reject) are dropped and the rest joined by
/// newlines.
pub open spec fn spec_adapt_bzl(content: Seq<char>, major: u32) -> Seq<char> {
    if major >= 9 {
        content
    } else {
        join_with(keep_lines(str_lines(content)), seq!['\n'])
    }
}

/// Adapts the bundled aspect file to the Bazel major version.
pub fn adapt_bundled_bzl_for_version(content: &str, bazel_major: u32) -> (r: String)
    ensures
        r@ == spec_adapt_bzl(content@, bazel_major),
{
    if bazel_major >= 9 {
        return owned(content);
    }
    let ls = lines_of(content);
    let mut kept: Vec<String> = Vec::new();
    let mut k: usize = 0;
    while k < ls.len()
        invariant
            k <= ls@.len(),
            str_list(ls@) == str_lines(content@),
            str_list(kept@) == keep_lines(str_list(ls@).subrange(0, k as int)),
        decreases ls@.len() - k,
    {
        let ghost before = kept@;
        proof {
            let t = str_list(ls@).subrange(0, k + 1);
            assert(t.drop_last() =~= str_list(ls@).subrange(0, k as int));
            assert(t.last() == ls@[k as int]@);
        }
        if !str_contains(ls[k].as_str(), "toolchains_aspects") {
            let line = ls[k].clone();
            kept.push(line);
            proof {
                crate::graph::lemma_str_list_push(before, line);
            }
        }
        k = k + 1;
    }
    proof {
        assert(str_list(ls@).subrange(0, ls@.len() as int) =~= str_list(ls@));
    }
    join_strings(&kept, '\n')
}

/// A `.bazelignore` pattern that hides the aspect directory.
pub open spec fn hides_aspects(t: Seq<char>) -> bool {
    t == ".bazel-jdt"@ || t == ".bazel-jdt/"@ || t == ".bazel-jdt/**"@ || t == "/"@
}

/// The first trimmed, non-empty, non-comment line that hides the aspect
/// directory.
pub open spec fn first_hiding_pattern(ls: Seq<Seq<char>>) -> Option<Seq<char>>
    decreases ls.len(),
{
    if ls.len() == 0 {
        None
    } else {
        let t = trim_ws(ls[0]);
        if t.len() > 0 && t[0] != '#' && hides_aspects(t) {
            Some(t)
        } else {
            first_hiding_pattern(ls.drop_first())
        }
    }
}

/// The warning for a hiding pattern.
pub open spec fn hiding_warning(t: Seq<char>) -> Seq<char> {
    "Aspect directory '.bazel-jdt/aspects' is covered by .bazelignore (pattern: '"@ + t
        + "') \u{2014} aspects may not be found by Bazel. Please remove this pattern from .bazelignore."@
}

/// The warning for `.bazelignore` contents that hide the aspect
/// directory from Bazel, if they do.
pub fn bazelignore_conflict(contents: &str) -> (r: Option<String>)
    ensures
        r matches Some(m) ==> first_hiding_pattern(str_lines(contents@)) matches Some(t) && m@ == hiding_warning(t),
        r is None ==> first_hiding_pattern(str_lines(contents@)) is None,
{
    let ls = lines_of(contents);
    let ghost all = str_list(ls@);
    let mut k: usize = 0;
    proof {
        assert(all.subrange(0, all.len() as int) =~= all);
    }
    while k < ls.len()
        invariant
            k <= ls@.len(),
            all == str_list(ls@),
            all == str_lines(contents@),
            first_hiding_pattern(all.subrange(k as int, all.len() as int)) == first_hiding_pattern(all),
        decreases ls@.len() - k,
    {
        let t = trim_str(ls[k].as_str());
        let tc = chars_of(t.as_str());
        let ghost rest = all.subrange(k as int, all.len() as int);
        proof {
            assert(rest[0] == ls@[k as int]@);
            assert(rest.drop_first() =~= all.subrange(k + 1, all.len() as int));
        }
        if tc.len() > 0 && tc[0] != '#' && (str_eq(t.as_str(), ".bazel-jdt") || str_eq(t.as_str(), ".bazel-jdt/")
            || str_eq(t.as_str(), ".bazel-jdt/**") || str_eq(t.as_str(), "/")) {
            let m = concat3(
                "Aspect directory '.bazel-jdt/aspects' is covered by .bazelignore (pattern: '",
                t.as_str(),
                "') \u{2014} aspects may not be found by Bazel. Please remove this pattern from .bazelignore.",
            );
            return Some(m);
        }
        k = k + 1;
    }
    None
}

/// Whether the aspect files must be written again: unless the stored
/// version hash equals the current one.
pub fn needs_extraction(stored_hash: Option<&str>, current_hash: &str) -> (b: bool)
    ensures
        b == !(stored_hash matches Some(h) && h@ == current_hash@),
{
    match stored_hash {
        Some(h) => !str_eq(h, current_hash),
        None => true,
    }
}

/// The content written for an aspect file: the bundled aspect entry point
/// adapted to the Bazel version, every other file as it is.
pub fn aspect_file_content(name: &str, content: &str, bazel_major: u32) -> (r: String)
    ensures
        r@ == (if name@ == "intellij_info_bundled.bzl"@ {
            spec_adapt_bzl(content@, bazel_major)
        } else {
            content@
        }),
{
    if str_eq(name, "intellij_info_bundled.bzl") {
        adapt_bundled_bzl_for_version(content, bazel_major)
    } else {
        owned(content)
    }
}

/// The workspace-relative label of the extracted aspect.
pub fn bundled_aspect_label() -> (r: String)
    ensures
        r@ == "//.bazel-jdt/aspects:intellij_info_bundled.bzl%intellij_info_aspect"@,
{
    owned("//.bazel-jdt/aspects:intellij_info_bundled.bzl%intellij_info_aspect")
}

/// The aspect the bridge builds with: the extracted one, or the one of the
/// `intellij_aspect` repository when the aspect files could not be
/// extracted.
pub fn aspect_label_or_fallback(extracted: Option<String>) -> (r: String)
    ensures
        r@ == match extracted {
            Some(l) => l@,
            None => "@intellij_aspect//:intellij_info.bzl%intellij_info_java"@,
        },
{
    match extracted {
        Some(l) => l,
        None => owned("@intellij_aspect//:intellij_info.bzl%intellij_info_java"),
    }
}

/// No line kept for an older Bazel mentions `toolchains_aspects`, and
/// every kept line is one of the given lines.
pub proof fn law_kept_lines_drop_toolchains_aspects(ls: Seq<Seq<char>>)
    ensures
        forall|i: int| 0 <= i < keep_lines(ls).len() ==> !seq_contains_sub(#[trigger] keep_lines(ls)[i], "toolchains_aspects"@),
        forall|i: int| 0 <= i < keep_lines(ls).len() ==> ls.contains(#[trigger] keep_lines(ls)[i]),
    decreases ls.len(),
{
    if ls.len() > 0 {
        law_kept_lines_drop_toolchains_aspects(ls.drop_last());
        let r = keep_lines(ls.drop_last());
        let t = keep_lines(ls);
        assert forall|i: int| 0 <= i < t.len() implies !seq_contains_sub(#[trigger] t[i], "toolchains_aspects"@)
            && ls.contains(t[i]) by {
            if i < r.len() {
                assert(t[i] == r[i]);
                let j = choose|j: int| 0 <= j < ls.drop_last().len() && ls.drop_last()[j] == r[i];
                assert(ls[j] == r[i]);
            } else {
                assert(t[i] == ls.last());
                assert(ls[ls.len() - 1] == ls.last());
            }
        }
    }
}

/// The aspect for Bazel 9 and later is the bundled file itself.
pub proof fn law_adapt_identity_from_bazel_9(content: Seq<char>, major: u32)
    requires
        major >= 9,
    ensures
        spec_adapt_bzl(content, major) == content,
{
}

/// The four little-endian bytes of a `u32` determine it.
pub proof fn lemma_le_bytes_value(n: u32)
    ensures
        n as int == le_bytes(n)[0] as int + 256 * (le_bytes(n)[1] as int) + 65536 * (le_bytes(n)[2] as int)
            + 16777216 * (le_bytes(n)[3] as int),
{
    assert(n == (n % 256) + 256 * ((n / 256) % 256) + 65536 * ((n / 65536) % 256) + 16777216 * (n / 16777216)) by (bit_vector);
    assert(n / 16777216 < 256) by (bit_vector);
}

/// Different Bazel major versions make different version-hash inputs for
/// the same aspect files.
pub proof fn law_version_input_differs_by_version(m1: u32, m2: u32, files: Seq<(Seq<char>, Seq<char>)>)
    requires
        m1 != m2,
    ensures
        version_input(m1, files) != version_input(m2, files),
{
    lemma_le_bytes_value(m1);
    lemma_le_bytes_value(m2);
    if version_input(m1, files) == version_input(m2, files) {
        assert forall|i: int| 0 <= i < 4 implies le_bytes(m1)[i] == le_bytes(m2)[i] by {
            assert(version_input(m1, files)[i] == le_bytes(m1)[i]);
            assert(version_input(m2, files)[i] == le_bytes(m2)[i]);
        }
        assert(le_bytes(m1)[0] == le_bytes(m2)[0]);
        assert(le_bytes(m1)[1] == le_bytes(m2)[1]);
        assert(le_bytes(m1)[2] == le_bytes(m2)[2]);
        assert(le_bytes(m1)[3] == le_bytes(m2)[3]);
    }
}

} // verus!
