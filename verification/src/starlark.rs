//! BUILD file syntax trees from the text of a Starlark module as the
//! `starlark_syntax` parser prints it back: one simple statement per line,
//! nested bodies indented by two more spaces, string literals in double
//! quotes with escapes, and compound expressions in parentheses.
use vstd::prelude::*;
use crate::build_file::{BuildArg, BuildExpr, BuildStmt};
use crate::strutil::{chars_of, seq_starts_with, push_char, substring, starts_with_chars, str_eq};
use crate::text::{str_lines, lines_of};
use crate::graph::str_list;
use crate::ide_info::strs_view;

verus! {

// ---------------------------------------------------------------------
// Scanning the printed text.
// ---------------------------------------------------------------------

/// The index just past the closing quote of a string literal whose body
/// starts at `q` (a backslash escapes the next character); the end of the
/// text when it does not close.
pub open spec fn str_close(t: Seq<char>, q: int) -> int
    decreases t.len() - q,
{
    if q < 0 || q >= t.len() {
        t.len() as int
    } else if t[q] == '\\' {
        if q + 1 < t.len() {
            str_close(t, q + 2)
        } else {
            t.len() as int
        }
    } else if t[q] == '"' {
        q + 1
    } else {
        str_close(t, q + 1)
    }
}

/// A string literal's closing index lies after its start, within the text.
pub proof fn lemma_str_close(t: Seq<char>, q: int)
    requires
        0 <= q <= t.len(),
    ensures
        q <= str_close(t, q) <= t.len(),
        q < t.len() ==> q < str_close(t, q),
    decreases t.len() - q,
{
    if q < t.len() {
        if t[q] == '\\' {
            if q + 1 < t.len() {
                lemma_str_close(t, q + 2);
            }
        } else if t[q] != '"' {
            lemma_str_close(t, q + 1);
        }
    }
}

/// An opening bracket.
pub open spec fn is_open(c: char) -> bool {
    c == '(' || c == '[' || c == '{'
}

/// A closing bracket.
pub open spec fn is_close(c: char) -> bool {
    c == ')' || c == ']' || c == '}'
}

/// The first index in `[q, b)` holding, outside string literals and at
/// bracket depth zero, a closing bracket (or, with `commas`, a comma);
/// `b` when there is none.
pub open spec fn scan_stop(t: Seq<char>, q: int, b: int, depth: nat, commas: bool) -> int
    decreases b - q,
{
    if q < 0 || q >= b || b > t.len() {
        b
    } else {
        let c = t[q];
        if c == '"' {
            let e = str_close(t, q + 1);
            if q < e && e < b {
                scan_stop(t, e, b, depth, commas)
            } else {
                b
            }
        } else if is_open(c) {
            scan_stop(t, q + 1, b, depth + 1, commas)
        } else if is_close(c) {
            if depth == 0 {
                q
            } else {
                scan_stop(t, q + 1, b, (depth - 1) as nat, commas)
            }
        } else if c == ',' && depth == 0 && commas {
            q
        } else {
            scan_stop(t, q + 1, b, depth, commas)
        }
    }
}

/// Whether the text from `q` on holds ` = ` outside string literals and
/// at bracket depth zero: the mark of an assignment.
pub open spec fn assign_scan(t: Seq<char>, q: int, depth: nat) -> bool
    decreases t.len() - q,
{
    if q < 0 || q >= t.len() {
        false
    } else {
        let c = t[q];
        if c == '"' {
            let e = str_close(t, q + 1);
            if q < e && e <= t.len() {
                assign_scan(t, e, depth)
            } else {
                false
            }
        } else if is_open(c) {
            assign_scan(t, q + 1, depth + 1)
        } else if is_close(c) {
            assign_scan(t, q + 1, if depth > 0 { (depth - 1) as nat } else { 0 })
        } else if depth == 0 && c == ' ' && q + 2 < t.len() && t[q + 1] == '=' && t[q + 2] == ' ' {
            true
        } else {
            assign_scan(t, q + 1, depth)
        }
    }
}

/// A character that starts an identifier.
pub open spec fn ident_start(c: char) -> bool {
    ('a' <= c && c <= 'z') || ('A' <= c && c <= 'Z') || c == '_'
}

/// A character of an identifier.
pub open spec fn ident_char(c: char) -> bool {
    ident_start(c) || ('0' <= c && c <= '9')
}

/// The end of the identifier characters from `q` on, within `[q, b)`.
pub open spec fn ident_end(t: Seq<char>, q: int, b: int) -> int
    decreases b - q,
{
    if q < 0 || q >= b || b > t.len() || !ident_char(t[q]) {
        q
    } else {
        ident_end(t, q + 1, b)
    }
}

/// The character an escape `\c` stands for.
pub open spec fn esc_char(c: char) -> char {
    if c == 'n' {
        '\n'
    } else if c == 't' {
        '\t'
    } else if c == 'r' {
        '\r'
    } else if c == '0' {
        '\0'
    } else {
        c
    }
}

/// The value of a string literal's body `[a, b)`.
pub open spec fn decode(t: Seq<char>, a: int, b: int) -> Seq<char>
    decreases b - a,
{
    if a < 0 || a >= b || b > t.len() {
        Seq::empty()
    } else if t[a] == '\\' && a + 1 < b {
        seq![esc_char(t[a + 1])] + decode(t, a + 2, b)
    } else {
        seq![t[a]] + decode(t, a + 1, b)
    }
}

fn str_close_exec(t: &Vec<char>, q: usize) -> (r: usize)
    requires
        q <= t@.len(),
    ensures
        r == str_close(t@, q as int),
{
    let mut k = q;
    while k < t.len()
        invariant
            q <= k <= t@.len(),
            str_close(t@, k as int) == str_close(t@, q as int),
        decreases t@.len() - k,
    {
        if t[k] == '\\' {
            if k + 1 < t.len() {
                k = k + 2;
            } else {
                return t.len();
            }
        } else if t[k] == '"' {
            return k + 1;
        } else {
            k = k + 1;
        }
    }
    t.len()
}

fn scan_stop_exec(t: &Vec<char>, q: usize, b: usize, commas: bool) -> (r: usize)
    requires
        q <= b <= t@.len(),
    ensures
        r == scan_stop(t@, q as int, b as int, 0, commas),
        q <= r <= b,
{
    let mut k = q;
    let mut depth: usize = 0;
    while k < b
        invariant
            q <= k <= b,
            b <= t@.len(),
            depth <= k,
            scan_stop(t@, k as int, b as int, depth as nat, commas) == scan_stop(t@, q as int, b as int, 0, commas),
        decreases b - k,
    {
        let c = t[k];
        if c == '"' {
            proof {
                lemma_str_close(t@, k + 1);
            }
            let e = str_close_exec(t, k + 1);
            if k < e && e < b {
                k = e;
            } else {
                return b;
            }
        } else if c == '(' || c == '[' || c == '{' {
            depth = depth + 1;
            k = k + 1;
        } else if c == ')' || c == ']' || c == '}' {
            if depth == 0 {
                return k;
            }
            depth = depth - 1;
            k = k + 1;
        } else if c == ',' && depth == 0 && commas {
            return k;
        } else {
            k = k + 1;
        }
    }
    b
}

fn assign_scan_exec(t: &Vec<char>) -> (r: bool)
    ensures
        r == assign_scan(t@, 0, 0),
{
    let mut k: usize = 0;
    let mut depth: usize = 0;
    while k < t.len()
        invariant
            k <= t@.len(),
            depth <= k,
            assign_scan(t@, k as int, depth as nat) == assign_scan(t@, 0, 0),
        decreases t@.len() - k,
    {
        let c = t[k];
        if c == '"' {
            proof {
                lemma_str_close(t@, k + 1);
            }
            let e = str_close_exec(t, k + 1);
            if k < e && e <= t.len() {
                k = e;
            } else {
                return false;
            }
        } else if c == '(' || c == '[' || c == '{' {
            depth = depth + 1;
            k = k + 1;
        } else if c == ')' || c == ']' || c == '}' {
            if depth > 0 {
                depth = depth - 1;
            }
            k = k + 1;
        } else if depth == 0 && c == ' ' && t.len() - k > 2 && t[k + 1] == '=' && t[k + 2] == ' ' {
            return true;
        } else {
            k = k + 1;
        }
    }
    false
}

fn ident_end_exec(t: &Vec<char>, q: usize, b: usize) -> (r: usize)
    requires
        q <= b <= t@.len(),
    ensures
        r == ident_end(t@, q as int, b as int),
        q <= r <= b,
{
    let mut k = q;
    while k < b
        invariant
            q <= k <= b,
            b <= t@.len(),
            ident_end(t@, k as int, b as int) == ident_end(t@, q as int, b as int),
        decreases b - k,
    {
        let c = t[k];
        let ok = ('a' <= c && c <= 'z') || ('A' <= c && c <= 'Z') || c == '_' || ('0' <= c && c <= '9');
        if !ok {
            return k;
        }
        k = k + 1;
    }
    k
}

fn decode_exec(t: &Vec<char>, a: usize, b: usize) -> (r: String)
    requires
        a <= b <= t@.len(),
    ensures
        r@ == decode(t@, a as int, b as int),
{
    let mut out = String::new();
    let mut k = a;
    while k < b
        invariant
            a <= k <= b,
            b <= t@.len(),
            out@ + decode(t@, k as int, b as int) == decode(t@, a as int, b as int),
        decreases b - k,
    {
        let ghost o0 = out@;
        if t[k] == '\\' && k + 1 < b {
            let c = t[k + 1];
            let x = if c == 'n' {
                '\n'
            } else if c == 't' {
                '\t'
            } else if c == 'r' {
                '\r'
            } else if c == '0' {
                '\0'
            } else {
                c
            };
            push_char(&mut out, x);
            proof {
                assert(o0 + decode(t@, k as int, b as int) == o0 + (seq![x] + decode(t@, k + 2, b as int)));
                assert(o0 + (seq![x] + decode(t@, k + 2, b as int)) =~= o0.push(x) + decode(t@, k + 2, b as int));
            }
            k = k + 2;
        } else {
            let x = t[k];
            push_char(&mut out, x);
            proof {
                assert(o0 + (seq![x] + decode(t@, k + 1, b as int)) =~= o0.push(x) + decode(t@, k + 1, b as int));
            }
            k = k + 1;
        }
    }
    proof {
        assert(out@ + Seq::<char>::empty() =~= out@);
    }
    out
}


// ---------------------------------------------------------------------
// Expressions.
// ---------------------------------------------------------------------

/// `e` is the expression printed in `[lo, hi)`: a string literal, a list,
/// an identifier, or a call of an identifier; anything else is `Other`.
pub open spec fn expr_fits(e: BuildExpr, t: Seq<char>, lo: int, hi: int) -> bool
    decreases hi - lo, 1int,
{
    if lo < 0 || lo >= hi || hi > t.len() {
        e is Other
    } else if t[lo] == '"' {
        if str_close(t, lo + 1) == hi {
            e matches BuildExpr::Str(s) && s@ == decode(t, lo + 1, hi - 1)
        } else {
            e is Other
        }
    } else if t[lo] == '[' {
        if lo + 1 < hi && t[hi - 1] == ']' && scan_stop(t, lo + 1, hi, 0, false) == hi - 1 {
            e matches BuildExpr::List(v) && items_fit(v@, t, lo + 1, hi - 1)
        } else {
            e is Other
        }
    } else if ident_start(t[lo]) {
        let ie = ident_end(t, lo, hi);
        if ie == hi {
            e matches BuildExpr::Identifier(s) && s@ == t.subrange(lo, hi)
        } else if lo < ie && ie + 1 < hi && t[ie] == '(' && t[hi - 1] == ')' && scan_stop(t, ie + 1, hi, 0, false) == hi - 1 {
            e matches BuildExpr::Call(f, args) && (match *f {
                BuildExpr::Identifier(s) => s@ == t.subrange(lo, ie),
                _ => false,
            }) && args_fit(args@, t, ie + 1, hi - 1)
        } else {
            e is Other
        }
    } else {
        e is Other
    }
}

/// `v` are the comma-separated expressions printed in `[a, b)`.
pub open spec fn items_fit(v: Seq<BuildExpr>, t: Seq<char>, a: int, b: int) -> bool
    decreases b - a + 1, 0int,
{
    if a >= b {
        v.len() == 0
    } else {
        let c = scan_stop(t, a, b, 0, true);
        if a <= c && c < b && 0 <= c < t.len() && t[c] == ',' {
            v.len() >= 1 && expr_fits(v[0], t, a, c) && items_fit(v.drop_first(), t, c + 2, b)
        } else {
            v.len() == 1 && expr_fits(v[0], t, a, b)
        }
    }
}

/// `x` is the call argument printed in `[p, c)`: `name = value`, or a value.
pub open spec fn arg_fits(x: BuildArg, t: Seq<char>, p: int, c: int) -> bool
    decreases c - p, 2int,
{
    let ie = ident_end(t, p, c);
    if 0 <= p && p < ie && ie + 3 <= c && c <= t.len() && ident_start(t[p]) && t[ie] == ' ' && t[ie + 1] == '='
        && t[ie + 2] == ' ' {
        (x.name matches Some(n) && n@ == t.subrange(p, ie)) && expr_fits(x.value, t, ie + 3, c)
    } else {
        x.name is None && expr_fits(x.value, t, p, c)
    }
}

/// `v` are the comma-separated call arguments printed in `[a, b)`.
pub open spec fn args_fit(v: Seq<BuildArg>, t: Seq<char>, a: int, b: int) -> bool
    decreases b - a + 1, 0int,
{
    if a >= b {
        v.len() == 0
    } else {
        let c = scan_stop(t, a, b, 0, true);
        if a <= c && c < b && 0 <= c < t.len() && t[c] == ',' {
            v.len() >= 1 && arg_fits(v[0], t, a, c) && args_fit(v.drop_first(), t, c + 2, b)
        } else {
            v.len() == 1 && arg_fits(v[0], t, a, b)
        }
    }
}

/// Reads the expression printed in `[lo, hi)`.
fn parse_expr(t: &Vec<char>, lo: usize, hi: usize) -> (e: BuildExpr)
    requires
        lo <= hi <= t@.len(),
    ensures
        expr_fits(e, t@, lo as int, hi as int),
    decreases hi - lo, 1int,
{
    if lo >= hi {
        return BuildExpr::Other;
    }
    let c0 = t[lo];
    if c0 == '"' {
        let e = str_close_exec(t, lo + 1);
        if e == hi {
            let s = if lo + 1 <= hi - 1 {
                decode_exec(t, lo + 1, hi - 1)
            } else {
                String::new()
            };
            BuildExpr::Str(s)
        } else {
            BuildExpr::Other
        }
    } else if c0 == '[' {
        if lo + 1 < hi && t[hi - 1] == ']' && scan_stop_exec(t, lo + 1, hi, false) == hi - 1 {
            BuildExpr::List(parse_items(t, lo + 1, hi - 1))
        } else {
            BuildExpr::Other
        }
    } else if ('a' <= c0 && c0 <= 'z') || ('A' <= c0 && c0 <= 'Z') || c0 == '_' {
        let ie = ident_end_exec(t, lo, hi);
        if ie == hi {
            BuildExpr::Identifier(substring(t.as_slice(), lo, hi))
        } else if lo < ie && ie + 1 < hi && t[ie] == '(' && t[hi - 1] == ')' && scan_stop_exec(t, ie + 1, hi, false) == hi - 1 {
            let f = BuildExpr::Identifier(substring(t.as_slice(), lo, ie));
            let args = parse_args(t, ie + 1, hi - 1);
            BuildExpr::Call(Box::new(f), args)
        } else {
            BuildExpr::Other
        }
    } else {
        BuildExpr::Other
    }
}

/// Reads the comma-separated expressions printed in `[a0, b)`.
fn parse_items(t: &Vec<char>, a0: usize, b: usize) -> (v: Vec<BuildExpr>)
    requires
        a0 <= b <= t@.len(),
    ensures
        items_fit(v@, t@, a0 as int, b as int),
    decreases b - a0 + 1, 0int,
{
    let mut out: Vec<BuildExpr> = Vec::new();
    let mut a = a0;
    loop
        invariant
            a0 <= a <= b,
            b <= t@.len(),
            forall|w: Seq<BuildExpr>| items_fit(w, t@, a as int, b as int) ==> items_fit(out@ + w, t@, a0 as int, b as int),
        decreases b - a,
    {
        if a >= b {
            proof {
                assert(items_fit(Seq::<BuildExpr>::empty(), t@, a as int, b as int));
                assert(out@ + Seq::<BuildExpr>::empty() =~= out@);
            }
            return out;
        }
        let c = scan_stop_exec(t, a, b, true);
        if c < b && t[c] == ',' {
            let x = parse_expr(t, a, c);
            let ghost o0 = out@;
            let ghost a1 = a;
            out.push(x);
            a = if c + 1 < b {
                c + 2
            } else {
                b
            };
            proof {
                assert forall|w: Seq<BuildExpr>| items_fit(w, t@, a as int, b as int) implies items_fit(out@ + w, t@, a0 as int, b as int) by {
                    let v = seq![x] + w;
                    assert(v.drop_first() =~= w);
                    assert(v[0] == x);
                    if c + 1 >= b {
                        assert(items_fit(w, t@, c + 2, b as int));
                    }
                    assert(items_fit(v, t@, a1 as int, b as int));
                    assert(o0 + v =~= out@ + w);
                }
            }
        } else {
            let x = parse_expr(t, a, b);
            let ghost o0 = out@;
            out.push(x);
            proof {
                let v = seq![x];
                assert(items_fit(v, t@, a as int, b as int));
                assert(o0 + v =~= out@);
            }
            return out;
        }
    }
}

/// Reads the call argument printed in `[p, c)`.
fn parse_arg(t: &Vec<char>, p: usize, c: usize) -> (x: BuildArg)
    requires
        p <= c <= t@.len(),
    ensures
        arg_fits(x, t@, p as int, c as int),
    decreases c - p, 2int,
{
    let ie = ident_end_exec(t, p, c);
    if p < ie && c >= 3 && ie <= c - 3 {
        let c0 = t[p];
        if (('a' <= c0 && c0 <= 'z') || ('A' <= c0 && c0 <= 'Z') || c0 == '_') && t[ie] == ' ' && t[ie + 1] == '=' && t[ie + 2] == ' ' {
            let name = substring(t.as_slice(), p, ie);
            let value = parse_expr(t, ie + 3, c);
            return BuildArg { name: Some(name), value };
        }
    }
    BuildArg { name: None, value: parse_expr(t, p, c) }
}

/// Reads the comma-separated call arguments printed in `[a0, b)`.
fn parse_args(t: &Vec<char>, a0: usize, b: usize) -> (v: Vec<BuildArg>)
    requires
        a0 <= b <= t@.len(),
    ensures
        args_fit(v@, t@, a0 as int, b as int),
    decreases b - a0 + 1, 0int,
{
    let mut out: Vec<BuildArg> = Vec::new();
    let mut a = a0;
    loop
        invariant
            a0 <= a <= b,
            b <= t@.len(),
            forall|w: Seq<BuildArg>| args_fit(w, t@, a as int, b as int) ==> args_fit(out@ + w, t@, a0 as int, b as int),
        decreases b - a,
    {
        if a >= b {
            proof {
                assert(args_fit(Seq::<BuildArg>::empty(), t@, a as int, b as int));
                assert(out@ + Seq::<BuildArg>::empty() =~= out@);
            }
            return out;
        }
        let c = scan_stop_exec(t, a, b, true);
        if c < b && t[c] == ',' {
            let x = parse_arg(t, a, c);
            let ghost o0 = out@;
            let ghost a1 = a;
            out.push(x);
            a = if c + 1 < b {
                c + 2
            } else {
                b
            };
            proof {
                assert forall|w: Seq<BuildArg>| args_fit(w, t@, a as int, b as int) implies args_fit(out@ + w, t@, a0 as int, b as int) by {
                    let v = seq![x] + w;
                    assert(v.drop_first() =~= w);
                    assert(v[0] == x);
                    if c + 1 >= b {
                        assert(args_fit(w, t@, c + 2, b as int));
                    }
                    assert(args_fit(v, t@, a1 as int, b as int));
                    assert(o0 + v =~= out@ + w);
                }
            }
        } else {
            let x = parse_arg(t, a, b);
            let ghost o0 = out@;
            out.push(x);
            proof {
                let v = seq![x];
                assert(args_fit(v, t@, a as int, b as int));
                assert(o0 + v =~= out@);
            }
            return out;
        }
    }
}


// ---------------------------------------------------------------------
// Statements.
// ---------------------------------------------------------------------

/// The index of the first character from `k` on that is not a space.
pub open spec fn lead(l: Seq<char>, k: int) -> int
    decreases l.len() - k,
{
    if 0 <= k < l.len() && l[k] == ' ' {
        lead(l, k + 1)
    } else {
        k
    }
}

/// The indentation of a line: its leading spaces.
pub open spec fn indent_of(l: Seq<char>) -> int {
    lead(l, 0)
}

/// The first line from `j` on indented no deeper than `d`.
pub open spec fn next_at(ls: Seq<Seq<char>>, j: int, d: int) -> int
    decreases ls.len() - j,
{
    if j < 0 || j >= ls.len() || indent_of(ls[j]) <= d {
        j
    } else {
        next_at(ls, j + 1, d)
    }
}

/// The names a `load` binds, from its arguments `name = "symbol"` in
/// `[a, b)`.
pub open spec fn load_names(t: Seq<char>, a: int, b: int) -> Seq<Seq<char>>
    decreases b - a,
{
    if a < 0 || a >= b || b > t.len() {
        Seq::empty()
    } else {
        let c = scan_stop(t, a, b, 0, true);
        let more = a <= c && c < b && t[c] == ',';
        let end = if more { c } else { b };
        let ie = ident_end(t, a, end);
        let here = if a < ie && ie + 3 <= end && t[ie] == ' ' && t[ie + 1] == '=' && t[ie + 2] == ' ' {
            seq![t.subrange(a, ie)]
        } else {
            Seq::empty()
        };
        if more && c + 2 <= b {
            here + load_names(t, c + 2, b)
        } else {
            here
        }
    }
}

/// The module and the bound names of a printed `load(...)` statement.
pub open spec fn load_of(t: Seq<char>) -> Option<(Seq<char>, Seq<Seq<char>>)> {
    let n = t.len() as int;
    if n >= 6 && seq_starts_with(t, "load("@) && t[n - 1] == ')' && scan_stop(t, 5, n, 0, false) == n - 1 {
        let c = scan_stop(t, 5, n - 1, 0, true);
        let more = 5 <= c && c < n - 1 && t[c] == ',';
        let end = if more { c } else { n - 1 };
        if t[5] == '"' && str_close(t, 6) == end {
            Some((decode(t, 6, end - 1), if more { load_names(t, c + 2, n - 1) } else { Seq::empty() }))
        } else {
            None
        }
    } else {
        None
    }
}

/// Whether the statement on line `i` at indentation `d` is followed, after
/// its body, by an `else:` line at the same indentation.
pub open spec fn else_follows(ls: Seq<Seq<char>>, i: int, d: int) -> bool {
    let n = next_at(ls, i + 1, d);
    &&& 0 <= n < ls.len()
    &&& 0 <= d <= ls[n].len()
    &&& indent_of(ls[n]) == d
    &&& ls[n].subrange(d, ls[n].len() as int) == "else:"@
}

/// `s` is the statement printed on line `i` at indentation `d`, with the
/// body of a `def` or `for` on the deeper lines after it.
pub open spec fn stmt_fits(s: BuildStmt, ls: Seq<Seq<char>>, i: int, d: int) -> bool
    decreases ls.len() - i, 0int,
{
    if 0 <= i < ls.len() && 0 <= d <= ls[i].len() && d + 2 <= usize::MAX {
        let t = ls[i].subrange(d, ls[i].len() as int);
        if seq_starts_with(t, "def "@) {
            s matches BuildStmt::Def(b) && (match *b {
                BuildStmt::Statements(w) => stmts_fit(w@, ls, i + 1, d + 2),
                _ => false,
            })
        } else if seq_starts_with(t, "for "@) {
            s matches BuildStmt::For(b) && (match *b {
                BuildStmt::Statements(w) => stmts_fit(w@, ls, i + 1, d + 2),
                _ => false,
            })
        } else if seq_starts_with(t, "if "@) {
            if else_follows(ls, i, d) {
                s is Other
            } else {
                s is If
            }
        } else if seq_starts_with(t, "load("@) {
            match load_of(t) {
                Some((m, ns)) => s matches BuildStmt::Load(mm, nn) && mm@ == m && strs_view(nn) == ns,
                None => s is Other,
            }
        } else if assign_scan(t, 0, 0) {
            s is Assign
        } else {
            s matches BuildStmt::Expression(e) && expr_fits(e, t, 0, t.len() as int)
        }
    } else {
        s is Other
    }
}

/// `v` are the statements printed at indentation `d` from line `i` on,
/// up to the first line indented less.
pub open spec fn stmts_fit(v: Seq<BuildStmt>, ls: Seq<Seq<char>>, i: int, d: int) -> bool
    decreases ls.len() - i, 1int,
{
    if i < 0 || i >= ls.len() || indent_of(ls[i]) < d {
        v.len() == 0
    } else if indent_of(ls[i]) > d {
        stmts_fit(v, ls, i + 1, d)
    } else {
        let n = next_at(ls, i + 1, d);
        if i < n && n <= ls.len() {
            v.len() >= 1 && stmt_fits(v[0], ls, i, d) && stmts_fit(v.drop_first(), ls, n, d)
        } else {
            false
        }
    }
}

/// `m` is the module printed as `text`: its statements, from the top.
pub open spec fn tree_fits(m: BuildStmt, text: Seq<char>) -> bool {
    m matches BuildStmt::Statements(v) && stmts_fit(v@, str_lines(text), 0, 0)
}

fn lead_exec(l: &Vec<char>) -> (r: usize)
    ensures
        r == indent_of(l@),
        r <= l@.len(),
{
    let mut k: usize = 0;
    while k < l.len() && l[k] == ' '
        invariant
            k <= l@.len(),
            lead(l@, k as int) == lead(l@, 0),
        decreases l@.len() - k,
    {
        k = k + 1;
    }
    k
}

fn next_at_exec(ls: &Vec<String>, j: usize, d: usize) -> (r: usize)
    requires
        j <= ls@.len(),
    ensures
        r == next_at(str_list(ls@), j as int, d as int),
        j <= r <= ls@.len(),
{
    let ghost lv = str_list(ls@);
    let mut k = j;
    while k < ls.len()
        invariant
            j <= k <= ls@.len(),
            lv == str_list(ls@),
            next_at(lv, k as int, d as int) == next_at(lv, j as int, d as int),
        decreases ls@.len() - k,
    {
        let l = chars_of(ls[k].as_str());
        assert(lv[k as int] == ls@[k as int]@);
        if lead_exec(&l) <= d {
            return k;
        }
        k = k + 1;
    }
    k
}

fn load_names_exec(t: &Vec<char>, a0: usize, b: usize) -> (r: Vec<String>)
    requires
        a0 <= b <= t@.len(),
    ensures
        strs_view(r) == load_names(t@, a0 as int, b as int),
{
    let mut out: Vec<String> = Vec::new();
    let mut a = a0;
    while a < b
        invariant
            a0 <= a <= b,
            b <= t@.len(),
            strs_view(out) + load_names(t@, a as int, b as int) == load_names(t@, a0 as int, b as int),
        decreases b - a,
    {
        let c = scan_stop_exec(t, a, b, true);
        let more = c < b && t[c] == ',';
        let end = if more {
            c
        } else {
            b
        };
        let ie = ident_end_exec(t, a, end);
        let ghost o0 = strs_view(out);
        let ghost here: Seq<Seq<char>> = Seq::empty();
        if a < ie && end >= 3 && ie <= end - 3 && t[ie] == ' ' && t[ie + 1] == '=' && t[ie + 2] == ' ' {
            let nm = substring(t.as_slice(), a, ie);
            proof {
                here = seq![nm@];
                lemma_str_list_push_view(out@, nm);
            }
            out.push(nm);
        }
        if more {
            proof {
                if c + 2 <= b {
                    assert(o0 + (here + load_names(t@, c + 2, b as int)) =~= strs_view(out) + load_names(t@, c + 2, b as int));
                } else {
                    assert(o0 + here =~= strs_view(out) + load_names(t@, b as int, b as int));
                }
            }
            a = if c + 1 < b {
                c + 2
            } else {
                b
            };
        } else {
            proof {
                assert(o0 + here =~= strs_view(out) + load_names(t@, b as int, b as int));
            }
            a = b;
        }
    }
    proof {
        assert(strs_view(out) + Seq::<Seq<char>>::empty() =~= strs_view(out));
    }
    out
}

/// The view of a vector of strings after a push.
proof fn lemma_str_list_push_view(v: Seq<String>, s: String)
    ensures
        v.push(s).map_values(|x: String| x@) == v.map_values(|x: String| x@).push(s@),
{
    assert(v.push(s).map_values(|x: String| x@) =~= v.map_values(|x: String| x@).push(s@));
}

fn load_exec(t: &Vec<char>) -> (r: Option<(String, Vec<String>)>)
    ensures
        match (r, load_of(t@)) {
            (Some((m, ns)), Some((mm, nn))) => m@ == mm && strs_view(ns) == nn,
            (None, None) => true,
            _ => false,
        },
{
    let n = t.len();
    let lp = chars_of("load(");
    if n >= 6 && starts_with_chars(t.as_slice(), lp.as_slice()) && t[n - 1] == ')' && scan_stop_exec(t, 5, n, false) == n - 1 {
        let c = scan_stop_exec(t, 5, n - 1, true);
        let more = 5 <= c && c < n - 1 && t[c] == ',';
        let end = if more {
            c
        } else {
            n - 1
        };
        if t[5] == '"' && str_close_exec(t, 6) == end {
            let m = if 6 <= end - 1 {
                decode_exec(t, 6, end - 1)
            } else {
                String::new()
            };
            let empty: Vec<String> = Vec::new();
            proof {
                assert(strs_view(empty) =~= Seq::<Seq<char>>::empty());
            }
            let names = if more {
                if c + 2 <= n - 1 {
                    load_names_exec(t, c + 2, n - 1)
                } else {
                    proof {
                        assert(load_names(t@, c + 2, n - 1) =~= Seq::<Seq<char>>::empty());
                    }
                    empty
                }
            } else {
                empty
            };
            Some((m, names))
        } else {
            None
        }
    } else {
        None
    }
}

fn else_follows_exec(ls: &Vec<String>, i: usize, d: usize) -> (r: bool)
    requires
        i < ls@.len(),
    ensures
        r == else_follows(str_list(ls@), i as int, d as int),
{
    let ghost lv = str_list(ls@);
    let count = ls.len();
    if i >= count {
        return false;
    }
    let n = next_at_exec(ls, i + 1, d);
    if n >= count {
        return false;
    }
    let l = chars_of(ls[n].as_str());
    assert(lv[n as int] == l@);
    if d > l.len() || lead_exec(&l) != d {
        return false;
    }
    let rest = substring(l.as_slice(), d, l.len());
    str_eq(rest.as_str(), "else:")
}

/// Reads the statement printed on line `i` at indentation `d`.
fn parse_stmt(ls: &Vec<String>, i: usize, d: usize) -> (s: BuildStmt)
    requires
        i < ls@.len(),
    ensures
        stmt_fits(s, str_list(ls@), i as int, d as int),
    decreases ls@.len() - i, 0int,
{
    let ghost lv = str_list(ls@);
    let count = ls.len();
    let l = chars_of(ls[i].as_str());
    assert(lv[i as int] == l@);
    if d > l.len() || d > usize::MAX - 2 || i >= count {
        return BuildStmt::Other;
    }
    let t = chars_of(substring(l.as_slice(), d, l.len()).as_str());
    let def_kw = chars_of("def ");
    let for_kw = chars_of("for ");
    let if_kw = chars_of("if ");
    let load_kw = chars_of("load(");
    if starts_with_chars(t.as_slice(), def_kw.as_slice()) {
        let body = parse_stmts(ls, i + 1, d + 2);
        BuildStmt::Def(Box::new(BuildStmt::Statements(body)))
    } else if starts_with_chars(t.as_slice(), for_kw.as_slice()) {
        let body = parse_stmts(ls, i + 1, d + 2);
        BuildStmt::For(Box::new(BuildStmt::Statements(body)))
    } else if starts_with_chars(t.as_slice(), if_kw.as_slice()) {
        if else_follows_exec(ls, i, d) {
            BuildStmt::Other
        } else {
            BuildStmt::If
        }
    } else if starts_with_chars(t.as_slice(), load_kw.as_slice()) {
        match load_exec(&t) {
            Some((m, ns)) => BuildStmt::Load(m, ns),
            None => BuildStmt::Other,
        }
    } else if assign_scan_exec(&t) {
        BuildStmt::Assign
    } else {
        BuildStmt::Expression(parse_expr(&t, 0, t.len()))
    }
}

/// Reads the statements printed at indentation `d` from line `i0` on.
fn parse_stmts(ls: &Vec<String>, i0: usize, d: usize) -> (v: Vec<BuildStmt>)
    requires
        i0 <= ls@.len(),
    ensures
        stmts_fit(v@, str_list(ls@), i0 as int, d as int),
    decreases ls@.len() - i0, 1int,
{
    let ghost lv = str_list(ls@);
    let mut out: Vec<BuildStmt> = Vec::new();
    let mut i = i0;
    loop
        invariant
            i0 <= i <= ls@.len(),
            lv == str_list(ls@),
            forall|w: Seq<BuildStmt>| stmts_fit(w, lv, i as int, d as int) ==> stmts_fit(out@ + w, lv, i0 as int, d as int),
        decreases ls@.len() - i,
    {
        if i >= ls.len() {
            proof {
                assert(stmts_fit(Seq::<BuildStmt>::empty(), lv, i as int, d as int));
                assert(out@ + Seq::<BuildStmt>::empty() =~= out@);
            }
            return out;
        }
        let l = chars_of(ls[i].as_str());
        assert(lv[i as int] == l@);
        let ind = lead_exec(&l);
        if ind < d {
            proof {
                assert(stmts_fit(Seq::<BuildStmt>::empty(), lv, i as int, d as int));
                assert(out@ + Seq::<BuildStmt>::empty() =~= out@);
            }
            return out;
        }
        if ind > d {
            proof {
                assert forall|w: Seq<BuildStmt>| stmts_fit(w, lv, i + 1, d as int) implies stmts_fit(out@ + w, lv, i0 as int, d as int) by {
                    assert(stmts_fit(w, lv, i as int, d as int));
                }
            }
            i = i + 1;
        } else {
            let n = next_at_exec(ls, i + 1, d);
            let x = parse_stmt(ls, i, d);
            let ghost o0 = out@;
            let ghost i1 = i;
            out.push(x);
            i = n;
            proof {
                assert forall|w: Seq<BuildStmt>| stmts_fit(w, lv, i as int, d as int) implies stmts_fit(out@ + w, lv, i0 as int, d as int) by {
                    let v = seq![x] + w;
                    assert(v.drop_first() =~= w);
                    assert(v[0] == x);
                    assert(stmts_fit(v, lv, i1 as int, d as int));
                    assert(o0 + v =~= out@ + w);
                }
            }
        }
    }
}

/// What `starlark_syntax` prints back for the module it parses from
/// `content` (read as the file `path`), or `None` when it does not parse.
pub uninterp spec fn starlark_text_of(path: Seq<char>, content: Seq<char>) -> Option<Seq<char>>;

/// Parses `content` with `starlark_syntax::syntax::module::AstModule::parse`
/// in the standard dialect and prints the module's statement back with its
/// `Display`.  Trusted: the result is the named `starlark_text_of` of the
/// path and the content, a function of the two that is not stated here;
/// `None` stands for a syntax error.
#[verifier::external_body]
pub(crate) fn parse_starlark(path: &str, content: &str) -> (r: Option<String>)
    ensures
        match r {
            Some(t) => starlark_text_of(path@, content@) == Some(t@),
            None => starlark_text_of(path@, content@) is None,
        },
{
    match starlark_syntax::syntax::module::AstModule::parse(
        path,
        content.to_string(),
        &starlark_syntax::dialect::Dialect::Standard,
    ) {
        Ok(m) => Some(m.statement().node.to_string()),
        Err(_) => None,
    }
}

/// Reads the module printed as `text`.
pub fn parse_printed_module(text: &str) -> (m: BuildStmt)
    ensures
        tree_fits(m, text@),
{
    let ls = lines_of(text);
    BuildStmt::Statements(parse_stmts(&ls, 0, 0))
}

} // verus!
