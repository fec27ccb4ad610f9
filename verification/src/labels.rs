//! Bazel label arithmetic: normalization, packages and label classes.
use vstd::prelude::*;
use vstd::string::StringExecFns;
use crate::strutil::{
    chars_of, last_occurrence, lemma_last_occurrence_found, occurs_at, seq_contains_sub, owned, push_char, rfind_chars, seq_starts_with, starts_with_chars,
    substring,
};

verus! {

/// `"//"` as a sequence.
pub open spec fn dslash() -> Seq<char> {
    seq!['/', '/']
}

/// Characters after the last `'/'` of `l` (all of `l` when it has none).
pub open spec fn last_component(l: Seq<char>) -> Seq<char> {
    match last_occurrence(l, seq!['/']) {
        Some(i) => l.subrange(i + 1, l.len() as int),
        None => l,
    }
}

/// The canonical form of a label: `//pkg` becomes `//pkg:last`, where `last`
/// is the last path component of the package; every other label is unchanged.
pub open spec fn spec_normalize_label(l: Seq<char>) -> Seq<char> {
    if !seq_starts_with(l, dslash()) {
        l
    } else if l.subrange(2, l.len() as int).contains(':') {
        l
    } else if last_component(l).len() == 0 {
        l
    } else {
        l + seq![':'] + last_component(l)
    }
}

/// Normalizing a label twice is normalizing it once: a normalized label is
/// canonical.
pub proof fn law_normalize_label_idempotent(l: Seq<char>)
    ensures
        spec_normalize_label(spec_normalize_label(l)) == spec_normalize_label(l),
{
    let n = spec_normalize_label(l);
    if n != l {
        assert(seq_starts_with(l, dslash()));
        assert(n.subrange(0, 2) =~= l.subrange(0, 2));
        assert(n.subrange(2, n.len() as int)[l.len() - 2] == ':');
        assert(n.subrange(2, n.len() as int).contains(':'));
    }
}

/// A dependency label resolved against the package it is written in.
pub open spec fn spec_normalize_dep_label(dep: Seq<char>, pkg: Seq<char>) -> Seq<char> {
    if seq_starts_with(dep, dslash()) || seq_starts_with(dep, seq!['@']) {
        spec_normalize_label(dep)
    } else if seq_starts_with(dep, seq![':']) {
        pkg + seq![':'] + dep.subrange(1, dep.len() as int)
    } else {
        pkg + seq![':'] + dep
    }
}

/// The package part of a `//`-label: everything before its last `':'`.
pub open spec fn spec_package_of(l: Seq<char>) -> Seq<char> {
    match last_occurrence(l, seq![':']) {
        Some(i) => if seq_starts_with(l, dslash()) {
            l.subrange(0, i)
        } else {
            l
        },
        None => l,
    }
}

/// The label a package-only `//`-label is normalized to lies in that
/// package: its package is the label itself.
pub proof fn law_normalized_label_in_own_package(l: Seq<char>)
    requires
        seq_starts_with(l, dslash()),
        !l.contains(':'),
        last_component(l).len() > 0,
    ensures
        spec_package_of(spec_normalize_label(l)) == l,
{
    let n = spec_normalize_label(l);
    let lc = last_component(l);
    assert(!l.subrange(2, l.len() as int).contains(':')) by {
        if l.subrange(2, l.len() as int).contains(':') {
            let k = choose|k: int| 0 <= k < l.len() - 2 && l.subrange(2, l.len() as int)[k] == ':';
            assert(l[k + 2] == ':');
        }
    }
    assert(n == l + seq![':'] + lc);
    assert(!lc.contains(':')) by {
        if lc.contains(':') {
            let k = choose|k: int| 0 <= k < lc.len() && lc[k] == ':';
            match last_occurrence(l, seq!['/']) {
                Some(i) => {
                    lemma_last_occurrence_found(l, seq!['/']);
                    assert(l[i + 1 + k] == ':');
                },
                None => {
                    assert(l[k] == ':');
                },
            }
        }
    }
    let p = l.len() as int;
    assert(occurs_at(n, seq![':'], p)) by {
        assert(n.subrange(p, p + 1) =~= seq![':']);
    }
    assert forall|j: int| p < j implies !occurs_at(n, seq![':'], j) by {
        if occurs_at(n, seq![':'], j) {
            assert(n.subrange(j, j + 1)[0] == n[j]);
            assert(n[j] == lc[j - p - 1]);
        }
    }
    lemma_last_occurrence_found(n, seq![':']);
    let i = last_occurrence(n, seq![':'])->0;
    assert(i == p);
    assert(seq_starts_with(n, dslash())) by {
        assert(n.subrange(0, 2) =~= l.subrange(0, 2));
    }
    assert(n.subrange(0, p) =~= l);
}

/// The package of a label without the leading `//`.
pub open spec fn spec_package_path(l: Seq<char>) -> Seq<char> {
    let p = spec_package_of(l);
    if seq_starts_with(p, dslash()) {
        p.subrange(2, p.len() as int)
    } else {
        p
    }
}

/// Labels of Bazel's own toolchain and platform repositories.
pub open spec fn spec_is_bazel_internal(l: Seq<char>) -> bool {
    seq_starts_with(l, seq!['@', '@', 'b', 'a', 'z', 'e', 'l', '_', 't', 'o', 'o', 'l', 's', '/', '/'])
        || seq_starts_with(l, seq!['@', '@', 'l', 'o', 'c', 'a', 'l', '_', 'c', 'o', 'n', 'f', 'i', 'g', '_'])
        || seq_starts_with(l, seq!['@', '@', 'p', 'l', 'a', 't', 'f', 'o', 'r', 'm', 's', '/', '/'])
}

/// Index of the last occurrence of `c` in `s`.
pub fn rfind_char(s: &[char], c: char) -> (r: Option<usize>)
    ensures
        r is Some <==> last_occurrence(s@, seq![c]) is Some,
        r matches Some(i) ==> last_occurrence(s@, seq![c]) == Some(i as int) && i < s.len()
            && s@[i as int] == c,
{
    let pat = vec![c];
    assert(pat@ =~= seq![c]);
    let r = rfind_chars(s, pat.as_slice());
    proof {
        if let Some(i) = r {
            assert(s@.subrange(i as int, i + 1)[0] == c);
        }
    }
    r
}

/// Whether `c` occurs in `s[from..]`.
fn contains_char_from(s: &[char], c: char, from: usize) -> (b: bool)
    requires
        from <= s@.len(),
    ensures
        b == s@.subrange(from as int, s@.len() as int).contains(c),
{
    let mut i = from;
    while i < s.len()
        invariant
            from <= i <= s@.len(),
            forall|j: int| from <= j < i ==> s@[j] != c,
        decreases s@.len() - i,
    {
        if s[i] == c {
            assert(s@.subrange(from as int, s@.len() as int)[i - from] == c);
            return true;
        }
        i = i + 1;
    }
    proof {
        let t = s@.subrange(from as int, s@.len() as int);
        assert forall|k: int| 0 <= k < t.len() implies t[k] != c by {
            assert(t[k] == s@[from + k]);
        }
    }
    false
}

/// Normalizes a Bazel label: a package-only label `//a/b` gains its implicit
/// target name (`//a/b:b`); all other labels are returned unchanged.
pub fn normalize_label(label: &str) -> (r: String)
    ensures
        r@ == spec_normalize_label(label@),
{
    let l = chars_of(label);
    let ds = vec!['/', '/'];
    assert(ds@ =~= dslash());
    if !starts_with_chars(l.as_slice(), ds.as_slice()) {
        return owned(label);
    }
    if contains_char_from(l.as_slice(), ':', 2) {
        return owned(label);
    }
    let slash = rfind_char(l.as_slice(), '/');
    let start = match slash {
        Some(i) => i + 1,
        None => 0,
    };
    let last = substring(l.as_slice(), start, l.len());
    assert(last@ == last_component(l@));
    let lc = chars_of(last.as_str());
    if lc.len() == 0 {
        return owned(label);
    }
    let mut r = owned(label);
    push_char(&mut r, ':');
    append_chars(&mut r, lc.as_slice());
    r
}

/// Appends the characters of `t` to `s`.
pub fn append_chars(s: &mut String, t: &[char])
    ensures
        final(s)@ == old(s)@ + t@,
{
    let mut k: usize = 0;
    while k < t.len()
        invariant
            k <= t@.len(),
            s@ == old(s)@ + t@.subrange(0, k as int),
        decreases t@.len() - k,
    {
        push_char(s, t[k]);
        assert(t@.subrange(0, k + 1) =~= t@.subrange(0, k as int).push(t@[k as int]));
        k = k + 1;
    }
    assert(t@.subrange(0, t@.len() as int) =~= t@);
}

/// Resolves a dependency label written in package `package_label`:
/// `":t"` and `"t"` become `"<package_label>:t"`; `//` and `@` labels are
/// normalized with [`normalize_label`].
pub fn normalize_dep_label(dep: &str, package_label: &str) -> (r: String)
    ensures
        r@ == spec_normalize_dep_label(dep@, package_label@),
{
    let d = chars_of(dep);
    let ds = vec!['/', '/'];
    let at = vec!['@'];
    let colon = vec![':'];
    assert(ds@ =~= dslash());
    assert(at@ =~= seq!['@']);
    assert(colon@ =~= seq![':']);
    if starts_with_chars(d.as_slice(), ds.as_slice()) || starts_with_chars(d.as_slice(), at.as_slice()) {
        return normalize_label(dep);
    }
    let mut r = owned(package_label);
    push_char(&mut r, ':');
    if starts_with_chars(d.as_slice(), colon.as_slice()) {
        let rest = substring(d.as_slice(), 1, d.len());
        let rc = chars_of(rest.as_str());
        append_chars(&mut r, rc.as_slice());
    } else {
        append_chars(&mut r, d.as_slice());
    }
    r
}

/// The package of a label: `//foo/bar:baz` gives `//foo/bar`; labels that
/// do not start with `//` or have no `':'` are returned unchanged.
pub fn package_of(label: &str) -> (r: String)
    ensures
        r@ == spec_package_of(label@),
{
    let l = chars_of(label);
    let ds = vec!['/', '/'];
    assert(ds@ =~= dslash());
    match rfind_char(l.as_slice(), ':') {
        Some(i) => {
            if starts_with_chars(l.as_slice(), ds.as_slice()) {
                substring(l.as_slice(), 0, i)
            } else {
                owned(label)
            }
        },
        None => owned(label),
    }
}

/// The package path of a label, without the leading `//`.
pub fn package_path(label: &str) -> (r: String)
    ensures
        r@ == spec_package_path(label@),
{
    let p = package_of(label);
    let pc = chars_of(p.as_str());
    let ds = vec!['/', '/'];
    assert(ds@ =~= dslash());
    if starts_with_chars(pc.as_slice(), ds.as_slice()) {
        substring(pc.as_slice(), 2, pc.len())
    } else {
        p
    }
}

/// True for Bazel-internal toolchain/platform labels (`@@bazel_tools//`,
/// `@@local_config_*`, `@@platforms//`), which never belong on a classpath.
pub fn is_bazel_internal_label(label: &str) -> (b: bool)
    ensures
        b == spec_is_bazel_internal(label@),
{
    let l = chars_of(label);
    let a = vec!['@', '@', 'b', 'a', 'z', 'e', 'l', '_', 't', 'o', 'o', 'l', 's', '/', '/'];
    let b = vec!['@', '@', 'l', 'o', 'c', 'a', 'l', '_', 'c', 'o', 'n', 'f', 'i', 'g', '_'];
    let c = vec!['@', '@', 'p', 'l', 'a', 't', 'f', 'o', 'r', 'm', 's', '/', '/'];
    assert(a@ =~= seq!['@', '@', 'b', 'a', 'z', 'e', 'l', '_', 't', 'o', 'o', 'l', 's', '/', '/']);
    assert(b@ =~= seq!['@', '@', 'l', 'o', 'c', 'a', 'l', '_', 'c', 'o', 'n', 'f', 'i', 'g', '_']);
    assert(c@ =~= seq!['@', '@', 'p', 'l', 'a', 't', 'f', 'o', 'r', 'm', 's', '/', '/']);
    starts_with_chars(l.as_slice(), a.as_slice()) || starts_with_chars(l.as_slice(), b.as_slice())
        || starts_with_chars(l.as_slice(), c.as_slice())
}


/// `s` with every backslash turned into a slash.
pub open spec fn replace_backslashes(s: Seq<char>) -> Seq<char> {
    s.map_values(|c: char| if c == '\\' { '/' } else { c })
}

/// `//` followed by a directory path with slashes.
pub open spec fn slash_label(s: Seq<char>) -> Seq<char> {
    dslash() + replace_backslashes(s)
}

/// Turns backslashes into slashes.
pub fn backslashes_to_slashes(s: &str) -> (r: String)
    ensures
        r@ == replace_backslashes(s@),
{
    let c = chars_of(s);
    let mut r = String::new();
    let mut k: usize = 0;
    while k < c.len()
        invariant
            k <= c@.len(),
            c@ == s@,
            r@ == replace_backslashes(s@).subrange(0, k as int),
        decreases c@.len() - k,
    {
        let ch = if c[k] == '\\' {
            '/'
        } else {
            c[k]
        };
        push_char(&mut r, ch);
        proof {
            assert(r@ =~= replace_backslashes(s@).subrange(0, k + 1));
        }
        k = k + 1;
    }
    proof {
        assert(replace_backslashes(s@).subrange(0, c@.len() as int) =~= replace_backslashes(s@));
    }
    r
}

/// `//` followed by a directory path, with backslashes turned into slashes
/// (just `//` for the empty path).
pub fn slash_label_of(dir: &str) -> (r: String)
    ensures
        r@ == slash_label(dir@),
{
    let mut r = String::new();
    push_char(&mut r, '/');
    push_char(&mut r, '/');
    let rest = backslashes_to_slashes(dir);
    r.append(rest.as_str());
    proof {
        assert(r@ =~= slash_label(dir@));
    }
    r
}

} // verus!
