//! Association lists keyed by strings, read as maps.
use vstd::prelude::*;

verus! {

/// No key occurs twice.
pub open spec fn keys_unique<V>(l: Seq<(Seq<char>, V)>) -> bool {
    forall|i: int, j: int| 0 <= i < j < l.len() ==> l[i].0 != l[j].0
}

/// The map an association list stands for (a later pair wins).
pub open spec fn assoc_map<V>(l: Seq<(Seq<char>, V)>) -> Map<Seq<char>, V>
    decreases l.len(),
{
    if l.len() == 0 {
        Map::empty()
    } else {
        assoc_map(l.drop_last()).insert(l.last().0, l.last().1)
    }
}

/// The keys of a map are those of its pairs.
pub proof fn lemma_assoc_dom<V>(l: Seq<(Seq<char>, V)>, k: Seq<char>)
    ensures
        assoc_map(l).dom().contains(k) <==> exists|i: int| 0 <= i < l.len() && l[i].0 == k,
    decreases l.len(),
{
    if l.len() > 0 {
        lemma_assoc_dom(l.drop_last(), k);
        if exists|i: int| 0 <= i < l.drop_last().len() && l.drop_last()[i].0 == k {
            let i = choose|i: int| 0 <= i < l.drop_last().len() && l.drop_last()[i].0 == k;
            assert(l[i].0 == k);
        }
        if exists|i: int| 0 <= i < l.len() && l[i].0 == k {
            let i = choose|i: int| 0 <= i < l.len() && l[i].0 == k;
            if i < l.len() - 1 {
                assert(l.drop_last()[i].0 == k);
            }
        }
    }
}

/// With unique keys, the value of a pair's key is that pair's value.
pub proof fn lemma_assoc_index<V>(l: Seq<(Seq<char>, V)>, i: int)
    requires
        keys_unique(l),
        0 <= i < l.len(),
    ensures
        assoc_map(l).dom().contains(l[i].0),
        assoc_map(l)[l[i].0] == l[i].1,
    decreases l.len(),
{
    if i < l.len() - 1 {
        assert(keys_unique(l.drop_last()));
        lemma_assoc_index(l.drop_last(), i);
        assert(l.drop_last()[i] == l[i]);
        assert(l.last().0 != l[i].0);
    }
}

/// Replacing the value of the pair at `i` replaces the value of its key.
pub proof fn lemma_assoc_update<V>(l: Seq<(Seq<char>, V)>, i: int, v: V)
    requires
        keys_unique(l),
        0 <= i < l.len(),
    ensures
        keys_unique(l.update(i, (l[i].0, v))),
        assoc_map(l.update(i, (l[i].0, v))) == assoc_map(l).insert(l[i].0, v),
    decreases l.len(),
{
    let l2 = l.update(i, (l[i].0, v));
    assert(keys_unique(l2));
    if i == l.len() - 1 {
        assert(l2.drop_last() =~= l.drop_last());
        assert(assoc_map(l2) =~= assoc_map(l).insert(l[i].0, v));
    } else {
        assert(keys_unique(l.drop_last()));
        lemma_assoc_update(l.drop_last(), i, v);
        assert(l2.drop_last() =~= l.drop_last().update(i, (l[i].0, v)));
        assert(l.last().0 != l[i].0);
        assert(assoc_map(l2) =~= assoc_map(l).insert(l[i].0, v));
    }
}

/// Removing the pair at `i` removes its key.
pub proof fn lemma_assoc_remove<V>(l: Seq<(Seq<char>, V)>, i: int)
    requires
        keys_unique(l),
        0 <= i < l.len(),
    ensures
        keys_unique(l.remove(i)),
        assoc_map(l.remove(i)) == assoc_map(l).remove(l[i].0),
{
    let t = l.remove(i);
    assert forall|a: int, b: int| 0 <= a < b < t.len() implies t[a].0 != t[b].0 by {
        let a2 = if a < i { a } else { a + 1 };
        let b2 = if b < i { b } else { b + 1 };
        assert(t[a] == l[a2] && t[b] == l[b2]);
    }
    assert forall|k: Seq<char>| #[trigger] assoc_map(t).dom().contains(k) <==> assoc_map(l).remove(l[i].0).dom().contains(k) by {
        lemma_assoc_dom(t, k);
        lemma_assoc_dom(l, k);
        if exists|j: int| 0 <= j < t.len() && t[j].0 == k {
            let j = choose|j: int| 0 <= j < t.len() && t[j].0 == k;
            let j2 = if j < i { j } else { j + 1 };
            assert(t[j] == l[j2]);
            assert(j2 != i);
        }
        if (exists|j: int| 0 <= j < l.len() && l[j].0 == k) && k != l[i].0 {
            let j = choose|j: int| 0 <= j < l.len() && l[j].0 == k;
            assert(j != i);
            if j < i {
                assert(t[j] == l[j]);
            } else {
                assert(t[j - 1] == l[j]);
            }
        }
    }
    assert forall|k: Seq<char>| #[trigger] assoc_map(t).dom().contains(k) implies assoc_map(t)[k] == assoc_map(l)[k] by {
        lemma_assoc_dom(t, k);
        let j = choose|j: int| 0 <= j < t.len() && t[j].0 == k;
        let j2 = if j < i { j } else { j + 1 };
        assert(t[j] == l[j2]);
        lemma_assoc_index(t, j);
        lemma_assoc_index(l, j2);
    }
    assert(assoc_map(t) =~= assoc_map(l).remove(l[i].0));
}

/// Appending a pair with a new key keeps keys unique.
pub proof fn lemma_assoc_push<V>(l: Seq<(Seq<char>, V)>, k: Seq<char>, v: V)
    requires
        keys_unique(l),
        forall|i: int| 0 <= i < l.len() ==> l[i].0 != k,
    ensures
        keys_unique(l.push((k, v))),
        assoc_map(l.push((k, v))) == assoc_map(l).insert(k, v),
{
    assert(l.push((k, v)).drop_last() =~= l);
}

/// Membership after appending.
pub proof fn lemma_contains_push<A>(s: Seq<A>, a: A)
    ensures
        forall|x: A| #[trigger] s.push(a).contains(x) <==> s.contains(x) || x == a,
{
    assert forall|x: A| #[trigger] s.push(a).contains(x) <==> s.contains(x) || x == a by {
        if s.contains(x) {
            let k = choose|k: int| 0 <= k < s.len() && s[k] == x;
            assert(s.push(a)[k] == x);
        }
        if x == a {
            assert(s.push(a)[s.len() as int] == a);
        }
        if s.push(a).contains(x) && x != a {
            let k = choose|k: int| 0 <= k < s.push(a).len() && s.push(a)[k] == x;
            assert(k < s.len());
            assert(s[k] == x);
        }
    }
}

/// Membership after removing the element at `i` of a list without
/// duplicates.
pub proof fn lemma_contains_remove<A>(s: Seq<A>, i: int)
    requires
        s.no_duplicates(),
        0 <= i < s.len(),
    ensures
        forall|x: A| #[trigger] s.remove(i).contains(x) <==> s.contains(x) && x != s[i],
        s.remove(i).no_duplicates(),
{
    let t = s.remove(i);
    assert forall|x: A| #[trigger] t.contains(x) <==> s.contains(x) && x != s[i] by {
        if s.contains(x) && x != s[i] {
            let k = choose|k: int| 0 <= k < s.len() && s[k] == x;
            if k < i {
                assert(t[k] == x);
            } else {
                assert(k != i);
                assert(t[k - 1] == x);
            }
        }
        if t.contains(x) {
            let k = choose|k: int| 0 <= k < t.len() && t[k] == x;
            if k < i {
                assert(s[k] == x);
            } else {
                assert(s[k + 1] == x);
            }
        }
    }
    assert forall|a: int, b: int| 0 <= a < b < t.len() implies t[a] != t[b] by {
        let a2 = if a < i { a } else { a + 1 };
        let b2 = if b < i { b } else { b + 1 };
        assert(t[a] == s[a2] && t[b] == s[b2]);
    }
}

/// Index of the pair whose key is `k`.
pub fn find_key<V>(l: &Vec<(String, V)>, k: &str) -> (r: Option<usize>)
    ensures
        r matches Some(i) ==> i < l@.len() && l@[i as int].0@ == k@,
        r matches Some(i) ==> forall|j: int| 0 <= j < i ==> l@[j].0@ != k@,
        r is None ==> forall|i: int| 0 <= i < l@.len() ==> l@[i].0@ != k@,
{
    let mut i: usize = 0;
    while i < l.len()
        invariant
            i <= l@.len(),
            forall|j: int| 0 <= j < i ==> l@[j].0@ != k@,
        decreases l@.len() - i,
    {
        if crate::strutil::str_eq(l[i].0.as_str(), k) {
            return Some(i);
        }
        i = i + 1;
    }
    None
}

/// Index of `k` in a list of strings.
pub fn find_str(l: &Vec<String>, k: &str) -> (r: Option<usize>)
    ensures
        r matches Some(i) ==> i < l@.len() && l@[i as int]@ == k@,
        r is None ==> forall|i: int| 0 <= i < l@.len() ==> l@[i]@ != k@,
{
    let mut i: usize = 0;
    while i < l.len()
        invariant
            i <= l@.len(),
            forall|j: int| 0 <= j < i ==> l@[j]@ != k@,
        decreases l@.len() - i,
    {
        if crate::strutil::str_eq(l[i].as_str(), k) {
            return Some(i);
        }
        i = i + 1;
    }
    None
}

/// The map of an association list has finitely many keys.
pub proof fn lemma_assoc_finite<V>(l: Seq<(Seq<char>, V)>)
    ensures
        assoc_map(l).dom().finite(),
    decreases l.len(),
{
    if l.len() > 0 {
        lemma_assoc_finite(l.drop_last());
    }
}

} // verus!
