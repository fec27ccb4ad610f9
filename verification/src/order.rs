//! Lexicographic order of strings (by characters, which is the order of
//! `String` in Rust), and sorting without duplicates.
use vstd::prelude::*;
use crate::graph::str_list;
use crate::strutil::chars_of;

verus! {

/// `a` comes before `b` lexicographically.
pub open spec fn seq_lt(a: Seq<char>, b: Seq<char>) -> bool
    decreases a.len(),
{
    if a.len() == 0 {
        b.len() > 0
    } else if b.len() == 0 {
        false
    } else if a[0] != b[0] {
        a[0] < b[0]
    } else {
        seq_lt(a.drop_first(), b.drop_first())
    }
}

pub proof fn lemma_lt_irreflexive(a: Seq<char>)
    ensures
        !seq_lt(a, a),
    decreases a.len(),
{
    if a.len() > 0 {
        lemma_lt_irreflexive(a.drop_first());
    }
}

pub proof fn lemma_lt_total(a: Seq<char>, b: Seq<char>)
    ensures
        a == b || seq_lt(a, b) || seq_lt(b, a),
    decreases a.len(),
{
    if a.len() > 0 && b.len() > 0 && a[0] == b[0] {
        lemma_lt_total(a.drop_first(), b.drop_first());
        if a.drop_first() == b.drop_first() {
            assert(a =~= seq![a[0]] + a.drop_first());
            assert(b =~= seq![b[0]] + b.drop_first());
        }
    } else if a.len() == 0 && b.len() == 0 {
        assert(a =~= b);
    }
}

pub proof fn lemma_lt_asymmetric(a: Seq<char>, b: Seq<char>)
    ensures
        seq_lt(a, b) ==> !seq_lt(b, a),
    decreases a.len(),
{
    if a.len() > 0 && b.len() > 0 && a[0] == b[0] {
        lemma_lt_asymmetric(a.drop_first(), b.drop_first());
    }
}

pub proof fn lemma_lt_transitive(a: Seq<char>, b: Seq<char>, c: Seq<char>)
    requires
        seq_lt(a, b),
        seq_lt(b, c),
    ensures
        seq_lt(a, c),
    decreases a.len(),
{
    if a.len() > 0 && b.len() > 0 && c.len() > 0 {
        if a[0] == b[0] && b[0] == c[0] {
            lemma_lt_transitive(a.drop_first(), b.drop_first(), c.drop_first());
        }
    }
}

/// Lexicographic comparison of two strings.
pub fn str_less(a: &str, b: &str) -> (r: bool)
    ensures
        r == seq_lt(a@, b@),
{
    let ac = chars_of(a);
    let bc = chars_of(b);
    let mut i: usize = 0;
    proof {
        assert(ac@.subrange(0, ac@.len() as int) =~= ac@);
        assert(bc@.subrange(0, bc@.len() as int) =~= bc@);
    }
    while i < ac.len() && i < bc.len() && ac[i] == bc[i]
        invariant
            i <= ac@.len(),
            i <= bc@.len(),
            seq_lt(ac@, bc@) == seq_lt(ac@.subrange(i as int, ac@.len() as int), bc@.subrange(i as int, bc@.len() as int)),
        decreases ac@.len() - i,
    {
        proof {
            let x = ac@.subrange(i as int, ac@.len() as int);
            let y = bc@.subrange(i as int, bc@.len() as int);
            assert(x.drop_first() =~= ac@.subrange(i + 1, ac@.len() as int));
            assert(y.drop_first() =~= bc@.subrange(i + 1, bc@.len() as int));
        }
        i = i + 1;
    }
    proof {
        let x = ac@.subrange(i as int, ac@.len() as int);
        let y = bc@.subrange(i as int, bc@.len() as int);
        if i < ac@.len() && i < bc@.len() {
            assert(x[0] == ac@[i as int] && y[0] == bc@[i as int]);
        }
    }
    if i == ac.len() {
        i < bc.len()
    } else if i == bc.len() {
        false
    } else {
        ac[i] < bc[i]
    }
}

/// The strings are in strictly increasing order.
pub open spec fn strictly_sorted(l: Seq<Seq<char>>) -> bool {
    forall|i: int, j: int| 0 <= i < j < l.len() ==> seq_lt(#[trigger] l[i], #[trigger] l[j])
}

/// The strings of a list, sorted, each once.
pub fn sorted_distinct(v: &Vec<String>) -> (r: Vec<String>)
    ensures
        strictly_sorted(str_list(r@)),
        forall|x: Seq<char>| #[trigger] str_list(r@).contains(x) <==> str_list(v@).contains(x),
{
    let mut r: Vec<String> = Vec::new();
    let mut k: usize = 0;
    while k < v.len()
        invariant
            k <= v@.len(),
            strictly_sorted(str_list(r@)),
            forall|x: Seq<char>| #[trigger] str_list(r@).contains(x) <==> str_list(v@).subrange(0, k as int).contains(x),
        decreases v@.len() - k,
    {
        let x = v[k].as_str();
        let ghost rl = str_list(r@);
        let mut p: usize = 0;
        while p < r.len() && str_less(r[p].as_str(), x)
            invariant
                p <= r@.len(),
                rl == str_list(r@),
                forall|i: int| 0 <= i < p ==> seq_lt(#[trigger] rl[i], x@),
            decreases r@.len() - p,
        {
            proof {
                assert(rl[p as int] == r@[p as int]@);
            }
            p = p + 1;
        }
        let present = p < r.len() && crate::strutil::str_eq(r[p].as_str(), x);
        proof {
            assert(str_list(v@).subrange(0, k + 1) =~= str_list(v@).subrange(0, k as int).push(x@));
            crate::assoc::lemma_contains_push(str_list(v@).subrange(0, k as int), x@);
        }
        if !present {
            let ghost r0 = r@;
            let s = v[k].clone();
            r.insert(p, s);
            proof {
                let nl = str_list(r@);
                assert(r@ == r0.insert(p as int, s));
                assert(nl.len() == rl.len() + 1);
                assert forall|i: int| 0 <= i < nl.len() implies #[trigger] nl[i] == if i < p {
                    rl[i]
                } else if i == p {
                    x@
                } else {
                    rl[i - 1]
                } by {
                    if i < p {
                        assert(r@[i] == r0[i]);
                    } else if i > p {
                        assert(r@[i] == r0[i - 1]);
                    }
                }
                if p < rl.len() {
                    assert(rl[p as int] == r0[p as int]@);
                    assert(!seq_lt(rl[p as int], x@));
                    lemma_lt_total(rl[p as int], x@);
                    assert(seq_lt(x@, rl[p as int]));
                }
                assert forall|i: int, j: int| 0 <= i < j < nl.len() implies seq_lt(#[trigger] nl[i], #[trigger] nl[j]) by {
                    if j < p {
                        assert(seq_lt(rl[i], rl[j]));
                    } else if j == p {
                        assert(seq_lt(rl[i], x@));
                    } else if i == p {
                        if j - 1 > p {
                            assert(seq_lt(rl[p as int], rl[j - 1]));
                            lemma_lt_transitive(x@, rl[p as int], rl[j - 1]);
                        }
                    } else if i < p {
                        assert(seq_lt(rl[i], x@));
                        if j - 1 > p {
                            assert(seq_lt(rl[p as int], rl[j - 1]));
                            lemma_lt_transitive(x@, rl[p as int], rl[j - 1]);
                        }
                        lemma_lt_transitive(rl[i], x@, rl[j - 1]);
                    } else {
                        assert(seq_lt(rl[i - 1], rl[j - 1]));
                    }
                }
                assert forall|y: Seq<char>| #[trigger] nl.contains(y) <==> rl.contains(y) || y == x@ by {
                    if nl.contains(y) {
                        let i = choose|i: int| 0 <= i < nl.len() && nl[i] == y;
                        if i < p {
                            assert(rl[i] == y);
                        } else if i > p {
                            assert(rl[i - 1] == y);
                        }
                    }
                    if rl.contains(y) {
                        let i = choose|i: int| 0 <= i < rl.len() && rl[i] == y;
                        if i < p {
                            assert(nl[i] == y);
                        } else {
                            assert(nl[i + 1] == y);
                        }
                    }
                    if y == x@ {
                        assert(nl[p as int] == y);
                    }
                }
            }
        } else {
            proof {
                assert(rl[p as int] == r@[p as int]@);
            }
        }
        k = k + 1;
    }
    proof {
        assert(str_list(v@).subrange(0, v@.len() as int) =~= str_list(v@));
    }
    r
}

} // verus!
