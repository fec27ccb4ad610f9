//! Character-level string helpers with exact specifications.
//!
//! Strings are handled as sequences of `char`; every helper states its result
//! over `Seq<char>`.
use vstd::prelude::*;
use vstd::string::StringExecFns;
use vstd::std_specs::iter::IteratorSpec;

verus! {

broadcast use vstd::string::group_string_axioms;

/// `p` is a prefix of `s`.
pub open spec fn seq_starts_with(s: Seq<char>, p: Seq<char>) -> bool {
    p.len() <= s.len() && s.subrange(0, p.len() as int) == p
}

/// `p` is a suffix of `s`.
pub open spec fn seq_ends_with(s: Seq<char>, p: Seq<char>) -> bool {
    p.len() <= s.len() && s.subrange(s.len() - p.len(), s.len() as int) == p
}

/// `p` occurs in `s` starting at index `i`.
pub open spec fn occurs_at(s: Seq<char>, p: Seq<char>, i: int) -> bool {
    0 <= i && i + p.len() <= s.len() && s.subrange(i, i + p.len()) == p
}

/// `p` occurs somewhere in `s`.
pub open spec fn seq_contains_sub(s: Seq<char>, p: Seq<char>) -> bool {
    exists|i: int| occurs_at(s, p, i)
}

/// Index of the first occurrence of `p` in `s`.
pub open spec fn first_occurrence(s: Seq<char>, p: Seq<char>) -> Option<int> {
    if seq_contains_sub(s, p) {
        Some(choose|i: int| occurs_at(s, p, i) && forall|j: int| 0 <= j < i ==> !occurs_at(s, p, j))
    } else {
        None
    }
}

/// Index of the last occurrence of `p` in `s`.
pub open spec fn last_occurrence(s: Seq<char>, p: Seq<char>) -> Option<int> {
    if seq_contains_sub(s, p) {
        Some(choose|i: int| occurs_at(s, p, i) && forall|j: int| i < j ==> !occurs_at(s, p, j))
    } else {
        None
    }
}

/// When `p` occurs in `s`, its last occurrence is an occurrence with none
/// after it.
pub proof fn lemma_last_occurrence_found(s: Seq<char>, p: Seq<char>)
    requires
        seq_contains_sub(s, p),
    ensures
        last_occurrence(s, p) matches Some(i) && occurs_at(s, p, i) && forall|j: int| i < j ==> !occurs_at(s, p, j),
{
    let w = choose|w: int| occurs_at(s, p, w);
    lemma_last_occurrence_from(s, p, w);
}

/// An occurrence of `p` at `w` or after it is the last one.
proof fn lemma_last_occurrence_from(s: Seq<char>, p: Seq<char>, w: int)
    requires
        occurs_at(s, p, w),
    ensures
        last_occurrence(s, p) matches Some(i) && occurs_at(s, p, i) && forall|j: int| i < j ==> !occurs_at(s, p, j),
    decreases s.len() - w,
{
    if exists|j: int| w < j && occurs_at(s, p, j) {
        let j = choose|j: int| w < j && occurs_at(s, p, j);
        lemma_last_occurrence_from(s, p, j);
    } else {
        assert(occurs_at(s, p, w) && forall|j: int| w < j ==> !occurs_at(s, p, j));
    }
}

/// The characters of a `str`, in order.
pub fn chars_of(s: &str) -> (v: Vec<char>)
    ensures
        v@ == s@,
{
    let mut it = s.chars();
    let mut v: Vec<char> = Vec::new();
    proof {
        vstd::string::axiom_spec_iter(s);
    }
    loop
        invariant
            v@ + it.remaining() == s@,
            it.decrease() is Some,
        decreases it.decrease()->0,
    {
        let ghost before = it.remaining();
        let c = it.next();
        match c {
            Some(ch) => {
                assert(it.remaining() == before.drop_first());
                v.push(ch);
                assert(v@ + it.remaining() =~= s@);
            },
            None => {
                assert(v@ =~= s@);
                return v;
            },
        }
    }
}

/// Appends one character to a `String` (`String::push`).
#[verifier::external_body]
pub(crate) fn push_char(s: &mut String, c: char)
    ensures
        final(s)@ == old(s)@.push(c),
{
    s.push(c);
}

/// Builds a `String` from characters.
pub fn string_of(v: &[char]) -> (s: String)
    ensures
        s@ == v@,
{
    let mut s = String::new();
    let mut i: usize = 0;
    while i < v.len()
        invariant
            i <= v@.len(),
            s@ == v@.subrange(0, i as int),
        decreases v@.len() - i,
    {
        push_char(&mut s, v[i]);
        assert(v@.subrange(0, i + 1) =~= v@.subrange(0, i as int).push(v@[i as int]));
        i = i + 1;
    }
    assert(v@.subrange(0, v@.len() as int) =~= v@);
    s
}

/// Copy of a `str` as an owned `String`.
pub fn owned(s: &str) -> (r: String)
    ensures
        r@ == s@,
{
    String::from_str(s)
}

/// Concatenation of two strings.
pub fn concat2(a: &str, b: &str) -> (r: String)
    ensures
        r@ == a@ + b@,
{
    let mut r = String::from_str(a);
    r.append(b);
    r
}

/// Concatenation of three strings.
pub fn concat3(a: &str, b: &str, c: &str) -> (r: String)
    ensures
        r@ == a@ + b@ + c@,
{
    let mut r = String::from_str(a);
    r.append(b);
    r.append(c);
    r
}

/// Whether `p` occurs in `s` at index `i` (slice version).
pub fn occurs_at_exec(s: &[char], p: &[char], i: usize) -> (b: bool)
    ensures
        b == occurs_at(s@, p@, i as int),
{
    if i > s.len() || p.len() > s.len() - i {
        return false;
    }
    let mut k: usize = 0;
    while k < p.len()
        invariant
            i + p@.len() <= s.len(),
            k <= p@.len(),
            forall|j: int| 0 <= j < k ==> s@[i + j] == p@[j],
        decreases p@.len() - k,
    {
        if s[i + k] != p[k] {
            assert(s@.subrange(i as int, i + p@.len())[k as int] != p@[k as int]);
            return false;
        }
        k = k + 1;
    }
    assert(s@.subrange(i as int, i + p@.len()) =~= p@);
    true
}

/// Prefix test on characters.
pub fn starts_with_chars(s: &[char], p: &[char]) -> (b: bool)
    ensures
        b == seq_starts_with(s@, p@),
{
    occurs_at_exec(s, p, 0)
}

/// Suffix test on characters.
pub fn ends_with_chars(s: &[char], p: &[char]) -> (b: bool)
    ensures
        b == seq_ends_with(s@, p@),
{
    if p.len() > s.len() {
        return false;
    }
    occurs_at_exec(s, p, s.len() - p.len())
}

/// Prefix test on strings.
pub fn str_starts_with(s: &str, p: &str) -> (b: bool)
    ensures
        b == seq_starts_with(s@, p@),
{
    let sc = chars_of(s);
    let pc = chars_of(p);
    starts_with_chars(sc.as_slice(), pc.as_slice())
}

/// Suffix test on strings.
pub fn str_ends_with(s: &str, p: &str) -> (b: bool)
    ensures
        b == seq_ends_with(s@, p@),
{
    let sc = chars_of(s);
    let pc = chars_of(p);
    ends_with_chars(sc.as_slice(), pc.as_slice())
}

/// Index of the first occurrence of `p` in `s`.
pub fn find_chars(s: &[char], p: &[char]) -> (r: Option<usize>)
    ensures
        match r {
            Some(i) => occurs_at(s@, p@, i as int) && forall|j: int| 0 <= j < i ==> !occurs_at(s@, p@, j),
            None => !seq_contains_sub(s@, p@),
        },
        r is Some <==> first_occurrence(s@, p@) is Some,
        r matches Some(i) ==> first_occurrence(s@, p@) == Some(i as int),
{
    if p.len() > s.len() {
        return None;
    }
    let last: usize = s.len() - p.len();
    let mut i: usize = 0;
    loop
        invariant
            last == s@.len() - p@.len(),
            i <= last,
            forall|j: int| 0 <= j < i ==> !occurs_at(s@, p@, j),
        decreases last - i,
    {
        if occurs_at_exec(s, p, i) {
            proof {
                let c = choose|c: int| occurs_at(s@, p@, c) && forall|j: int| 0 <= j < c ==> !occurs_at(s@, p@, j);
                assert(occurs_at(s@, p@, c));
                if c < i {
                } else if c > i {
                    assert(!occurs_at(s@, p@, i as int));
                }
            }
            return Some(i);
        }
        if i == last {
            return None;
        }
        i = i + 1;
    }
}

/// Index of the last occurrence of `p` in `s`.
pub fn rfind_chars(s: &[char], p: &[char]) -> (r: Option<usize>)
    ensures
        match r {
            Some(i) => occurs_at(s@, p@, i as int) && forall|j: int| i < j ==> !occurs_at(s@, p@, j),
            None => !seq_contains_sub(s@, p@),
        },
        r is Some <==> last_occurrence(s@, p@) is Some,
        r matches Some(i) ==> last_occurrence(s@, p@) == Some(i as int),
{
    if p.len() > s.len() {
        return None;
    }
    let mut i: usize = s.len() - p.len();
    loop
        invariant
            i <= s@.len() - p@.len(),
            p@.len() <= s@.len(),
            forall|j: int| i < j ==> !occurs_at(s@, p@, j),
        decreases i,
    {
        if occurs_at_exec(s, p, i) {
            proof {
                let c = choose|c: int| occurs_at(s@, p@, c) && forall|j: int| c < j ==> !occurs_at(s@, p@, j);
                assert(occurs_at(s@, p@, c));
                if c > i {
                } else if c < i {
                    assert(!occurs_at(s@, p@, i as int));
                }
            }
            return Some(i);
        }
        if i == 0 {
            return None;
        }
        i = i - 1;
    }
}

/// Whether `p` occurs in `s`.
pub fn contains_chars(s: &[char], p: &[char]) -> (b: bool)
    ensures
        b == seq_contains_sub(s@, p@),
{
    find_chars(s, p).is_some()
}

/// Whether `p` occurs in the string `s`.
pub fn str_contains(s: &str, p: &str) -> (b: bool)
    ensures
        b == seq_contains_sub(s@, p@),
{
    let sc = chars_of(s);
    let pc = chars_of(p);
    contains_chars(sc.as_slice(), pc.as_slice())
}

/// Whether the character `c` occurs in `s`.
pub fn contains_char(s: &[char], c: char) -> (b: bool)
    ensures
        b == s@.contains(c),
{
    let mut i: usize = 0;
    while i < s.len()
        invariant
            i <= s@.len(),
            forall|j: int| 0 <= j < i ==> s@[j] != c,
        decreases s@.len() - i,
    {
        if s[i] == c {
            return true;
        }
        i = i + 1;
    }
    false
}

/// Equality of two strings.
pub fn str_eq(a: &str, b: &str) -> (r: bool)
    ensures
        r == (a@ == b@),
{
    let ac = chars_of(a);
    let bc = chars_of(b);
    if ac.len() != bc.len() {
        return false;
    }
    let r = occurs_at_exec(ac.as_slice(), bc.as_slice(), 0);
    proof {
        if r {
            assert(ac@.subrange(0, bc@.len() as int) =~= ac@);
        } else {
            assert(!(ac@.subrange(0, bc@.len() as int) =~= bc@));
        }
    }
    r
}

/// Substring of characters `[from, to)` as a `String`.
pub fn substring(s: &[char], from: usize, to: usize) -> (r: String)
    requires
        from <= to <= s@.len(),
    ensures
        r@ == s@.subrange(from as int, to as int),
{
    let mut r = String::new();
    let mut i: usize = from;
    while i < to
        invariant
            from <= i <= to <= s@.len(),
            r@ == s@.subrange(from as int, i as int),
        decreases to - i,
    {
        push_char(&mut r, s[i]);
        assert(s@.subrange(from as int, i + 1) =~= s@.subrange(from as int, i as int).push(s@[i as int]));
        i = i + 1;
    }
    r
}

/// `c` has the Unicode `White_Space` property (`char::is_whitespace`):
/// tab through carriage return, space, next line, no-break space, ogham
/// space mark, the spaces U+2000 to U+200A, line and paragraph separators,
/// narrow no-break space, medium mathematical space and ideographic space.
pub open spec fn unicode_whitespace(c: char) -> bool {
    ||| '\u{9}' <= c <= '\u{d}'
    ||| c == ' '
    ||| c == '\u{85}'
    ||| c == '\u{a0}'
    ||| c == '\u{1680}'
    ||| '\u{2000}' <= c <= '\u{200a}'
    ||| c == '\u{2028}'
    ||| c == '\u{2029}'
    ||| c == '\u{202f}'
    ||| c == '\u{205f}'
    ||| c == '\u{3000}'
}

/// A character beyond ASCII with the Unicode `Alphabetic` property.
pub uninterp spec fn non_ascii_alphabetic(c: char) -> bool;

/// A character beyond ASCII with a Unicode numeric general category.
pub uninterp spec fn non_ascii_numeric(c: char) -> bool;

/// `c` is alphabetic (`char::is_alphabetic`): within ASCII exactly the
/// Latin letters.
pub open spec fn unicode_alphabetic(c: char) -> bool {
    if c <= '\u{7f}' {
        ascii_letter(c)
    } else {
        non_ascii_alphabetic(c)
    }
}

/// `c` is numeric (`char::is_numeric`): within ASCII exactly the decimal
/// digits.
pub open spec fn unicode_numeric(c: char) -> bool {
    if c <= '\u{7f}' {
        ascii_digit(c)
    } else {
        non_ascii_numeric(c)
    }
}

/// `c` is alphanumeric: alphabetic or numeric (`char::is_alphanumeric`).
pub open spec fn unicode_alphanumeric(c: char) -> bool {
    unicode_alphabetic(c) || unicode_numeric(c)
}

/// `char::is_whitespace`: whether `c` has the Unicode `White_Space` property,
/// the list of code points that `unicode_whitespace` spells out.
#[verifier::external_body]
pub(crate) fn is_whitespace(c: char) -> (b: bool)
    ensures
        b == unicode_whitespace(c),
{
    c.is_whitespace()
}

/// `char::is_alphabetic`: whether `c` has the Unicode `Alphabetic` property.
/// Stated for ASCII, where exactly the Latin letters are alphabetic; beyond
/// ASCII the Unicode table is only named.
#[verifier::external_body]
pub(crate) fn is_alphabetic(c: char) -> (b: bool)
    ensures
        b == (if c <= '\u{7f}' { ascii_letter(c) } else { non_ascii_alphabetic(c) }),
{
    c.is_alphabetic()
}

/// `char::is_alphanumeric`: as its documentation states, true exactly when
/// `c` is alphabetic or numeric.  Stated for ASCII, where exactly the Latin
/// letters and the decimal digits qualify; beyond ASCII the two Unicode
/// tables are only named.
#[verifier::external_body]
pub(crate) fn is_alphanumeric(c: char) -> (b: bool)
    ensures
        b == (if c <= '\u{7f}' {
            ascii_letter(c) || ascii_digit(c)
        } else {
            non_ascii_alphabetic(c) || non_ascii_numeric(c)
        }),
{
    c.is_alphanumeric()
}

/// ASCII Latin letter.
pub open spec fn ascii_letter(c: char) -> bool {
    ('a' <= c <= 'z') || ('A' <= c <= 'Z')
}

/// ASCII decimal digit.
pub open spec fn ascii_digit(c: char) -> bool {
    '0' <= c <= '9'
}

} // verus!
