//! White-space trimming, line splitting and decimal parsing, as `str`
//! does them.
use vstd::prelude::*;
use crate::strutil::{chars_of, is_whitespace, unicode_whitespace, substring, ascii_digit};
use crate::jars::{split_char, split_at_char, lemma_split_nonempty};
use crate::graph::str_list;

verus! {

/// `s` without its leading Unicode white space.
pub open spec fn trim_start_ws(s: Seq<char>) -> Seq<char>
    decreases s.len(),
{
    if s.len() > 0 && unicode_whitespace(s[0]) {
        trim_start_ws(s.drop_first())
    } else {
        s
    }
}

/// `s` without its trailing Unicode white space.
pub open spec fn trim_end_ws(s: Seq<char>) -> Seq<char>
    decreases s.len(),
{
    if s.len() > 0 && unicode_whitespace(s.last()) {
        trim_end_ws(s.drop_last())
    } else {
        s
    }
}

/// `str::trim`: `s` without leading and trailing Unicode white space.
pub open spec fn trim_ws(s: Seq<char>) -> Seq<char> {
    trim_end_ws(trim_start_ws(s))
}

/// Trims leading and trailing white space.
pub fn trim_str(s: &str) -> (r: String)
    ensures
        r@ == trim_ws(s@),
{
    let c = chars_of(s);
    let mut start: usize = 0;
    proof {
        assert(c@.subrange(0, c@.len() as int) =~= c@);
    }
    while start < c.len() && is_whitespace(c[start])
        invariant
            start <= c@.len(),
            c@ == s@,
            trim_start_ws(c@.subrange(start as int, c@.len() as int)) == trim_start_ws(s@),
        decreases c@.len() - start,
    {
        proof {
            assert(c@.subrange(start as int, c@.len() as int).drop_first() =~= c@.subrange(start + 1, c@.len() as int));
        }
        start = start + 1;
    }
    let mut end: usize = c.len();
    while end > start && is_whitespace(c[end - 1])
        invariant
            start <= end <= c@.len(),
            c@ == s@,
            trim_end_ws(c@.subrange(start as int, end as int)) == trim_ws(s@),
        decreases end,
    {
        proof {
            assert(c@.subrange(start as int, end as int).drop_last() =~= c@.subrange(start as int, end - 1));
        }
        end = end - 1;
    }
    substring(&c, start, end)
}

/// A line without the `\r` of a `\r\n` ending.
pub open spec fn strip_cr(x: Seq<char>) -> Seq<char> {
    if x.len() > 0 && x.last() == '\r' {
        x.drop_last()
    } else {
        x
    }
}

/// The first `n` pieces, each without a trailing `\r`.
pub open spec fn stripped(p: Seq<Seq<char>>) -> Seq<Seq<char>> {
    p.map_values(|x: Seq<char>| strip_cr(x))
}

/// `str::lines`: the pieces between newlines; a piece followed by a
/// newline loses a `\r` just before it, and a last empty piece is no line.
pub open spec fn str_lines(s: Seq<char>) -> Seq<Seq<char>> {
    let p = split_char(s, '\n');
    let body = stripped(p.subrange(0, p.len() - 1));
    if p.last().len() == 0 {
        body
    } else {
        body.push(p.last())
    }
}

/// Drops a trailing `\r`.
fn strip_cr_str(x: &str) -> (r: String)
    ensures
        r@ == strip_cr(x@),
{
    let c = chars_of(x);
    if c.len() > 0 && c[c.len() - 1] == '\r' {
        substring(&c, 0, c.len() - 1)
    } else {
        substring(&c, 0, c.len())
    }
}

/// The lines of a text.
pub fn lines_of(s: &str) -> (r: Vec<String>)
    ensures
        str_list(r@) == str_lines(s@),
{
    let parts = split_at_char(s, '\n');
    proof {
        lemma_split_nonempty(s@, '\n');
    }
    let n = parts.len() - 1;
    let ghost p = str_list(parts@);
    let mut r: Vec<String> = Vec::new();
    let mut k: usize = 0;
    while k < n
        invariant
            k <= n,
            n + 1 == parts@.len(),
            p == str_list(parts@),
            p == split_char(s@, '\n'),
            str_list(r@) == stripped(p.subrange(0, k as int)),
        decreases n - k,
    {
        let line = strip_cr_str(parts[k].as_str());
        let ghost before = r@;
        r.push(line);
        proof {
            crate::graph::lemma_str_list_push(before, line);
            let q = p.subrange(0, k + 1);
            assert(q.subrange(0, k as int) =~= p.subrange(0, k as int));
            assert(stripped(q).len() == k + 1);
            assert(stripped(q) =~= stripped(p.subrange(0, k as int)).push(strip_cr(p[k as int])));
            assert(str_list(r@) =~= stripped(p.subrange(0, k + 1)));
        }
        k = k + 1;
    }
    if !parts[n].as_str().is_empty() {
        let ghost before = r@;
        let last = parts[n].clone();
        r.push(last);
        proof {
            crate::graph::lemma_str_list_push(before, last);
            assert(str_list(r@) =~= str_lines(s@));
        }
    }
    r
}

/// The value of a string of decimal digits.
pub open spec fn digits_value(s: Seq<char>) -> int
    decreases s.len(),
{
    if s.len() == 0 {
        0
    } else {
        digits_value(s.drop_last()) * 10 + (s.last() as int - '0' as int)
    }
}

/// Every character is an ASCII digit.
pub open spec fn all_digits(s: Seq<char>) -> bool {
    forall|i: int| 0 <= i < s.len() ==> ascii_digit(#[trigger] s[i])
}

/// `str::parse::<u32>`: an optional `+`, then at least one digit, with a
/// value that fits in `u32`.
pub open spec fn spec_parse_u32(s: Seq<char>) -> Option<u32> {
    let d = if s.len() > 0 && s[0] == '+' {
        s.drop_first()
    } else {
        s
    };
    if d.len() > 0 && all_digits(d) && digits_value(d) <= u32::MAX {
        Some(digits_value(d) as u32)
    } else {
        None
    }
}

proof fn lemma_digits_grow(s: Seq<char>, k: int)
    requires
        0 <= k <= s.len(),
        all_digits(s),
    ensures
        digits_value(s.subrange(0, k)) <= digits_value(s),
        0 <= digits_value(s.subrange(0, k)),
    decreases s.len() - k,
{
    if k < s.len() {
        lemma_digits_grow(s, k + 1);
        let t = s.subrange(0, k + 1);
        assert(t.drop_last() =~= s.subrange(0, k));
        assert(ascii_digit(t.last()));
    } else {
        assert(s.subrange(0, k) =~= s);
        lemma_digits_nonneg(s);
    }
}

proof fn lemma_digits_nonneg(s: Seq<char>)
    requires
        all_digits(s),
    ensures
        0 <= digits_value(s),
    decreases s.len(),
{
    if s.len() > 0 {
        assert(all_digits(s.drop_last())) by {
            assert forall|i: int| 0 <= i < s.drop_last().len() implies ascii_digit(#[trigger] s.drop_last()[i]) by {
                assert(s.drop_last()[i] == s[i]);
            }
        }
        lemma_digits_nonneg(s.drop_last());
        assert(ascii_digit(s.last()));
    }
}

/// Parses a decimal `u32` as `str::parse::<u32>` does.
pub fn parse_u32(s: &str) -> (r: Option<u32>)
    ensures
        r == spec_parse_u32(s@),
{
    let c = chars_of(s);
    let start: usize = if c.len() > 0 && c[0] == '+' { 1 } else { 0 };
    let ghost d = if s@.len() > 0 && s@[0] == '+' { s@.drop_first() } else { s@ };
    proof {
        assert(d =~= c@.subrange(start as int, c@.len() as int));
    }
    if start == c.len() {
        return None;
    }
    let mut acc: u64 = 0;
    let mut k: usize = start;
    while k < c.len()
        invariant
            start <= k <= c@.len(),
            c@ == s@,
            d == c@.subrange(start as int, c@.len() as int),
            d == (if s@.len() > 0 && s@[0] == '+' { s@.drop_first() } else { s@ }),
            all_digits(c@.subrange(start as int, k as int)),
            acc == digits_value(c@.subrange(start as int, k as int)),
            acc <= u32::MAX,
        decreases c@.len() - k,
    {
        let ch = c[k];
        let ghost pre = c@.subrange(start as int, k as int);
        let ghost next = c@.subrange(start as int, k + 1);
        proof {
            assert(next.drop_last() =~= pre);
            assert(next.last() == ch);
        }
        if !('0' <= ch && ch <= '9') {
            proof {
                assert(d[k - start] == ch);
                assert(!ascii_digit(d[k - start]));
                assert(!all_digits(d));
                assert(spec_parse_u32(s@) is None);
            }
            return None;
        }
        let v = (ch as u32 - '0' as u32) as u64;
        acc = acc * 10 + v;
        proof {
            assert(acc == digits_value(next));
            assert(all_digits(next)) by {
                assert forall|i: int| 0 <= i < next.len() implies ascii_digit(#[trigger] next[i]) by {
                    if i < pre.len() {
                        assert(next[i] == pre[i]);
                    }
                }
            }
        }
        if acc > 4294967295u64 {
            proof {
                if all_digits(d) {
                    lemma_digits_grow(d, k + 1 - start);
                    assert(d.subrange(0, k + 1 - start) =~= next);
                }
            }
            return None;
        }
        k = k + 1;
    }
    proof {
        assert(c@.subrange(start as int, k as int) =~= d);
    }
    Some(acc as u32)
}

} // verus!
