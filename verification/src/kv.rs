//! The keyed-entry model behind both cookie maps: a sequence of
//! `(name, value)` entries, viewed as a map in which a later entry for a
//! name wins over an earlier one.

use vstd::prelude::*;

verus! {

/// No two entries share a key.
pub open spec fn unique_keys<V>(s: Seq<(Seq<char>, V)>) -> bool {
    forall|i: int, j: int| 0 <= i < j < s.len() ==> s[i].0 != s[j].0
}

/// Some entry has key `k`.
pub open spec fn has_key<V>(s: Seq<(Seq<char>, V)>, k: Seq<char>) -> bool {
    exists|i: int| 0 <= i < s.len() && s[i].0 == k
}

/// The entries as a map; a later entry overwrites an earlier one.
pub open spec fn map_of<V>(s: Seq<(Seq<char>, V)>) -> Map<Seq<char>, V>
    decreases s.len(),
{
    if s.len() == 0 {
        Map::empty()
    } else {
        map_of(s.drop_last()).insert(s.last().0, s.last().1)
    }
}

/// The entries with every entry for `k` taken out, order kept.
pub open spec fn remove_key<V>(s: Seq<(Seq<char>, V)>, k: Seq<char>) -> Seq<(Seq<char>, V)>
    decreases s.len(),
{
    if s.len() == 0 {
        s
    } else if s.last().0 == k {
        remove_key(s.drop_last(), k)
    } else {
        remove_key(s.drop_last(), k).push(s.last())
    }
}

/// The entries with the one for `k` replaced, or appended at the end.
pub open spec fn upsert<V>(s: Seq<(Seq<char>, V)>, k: Seq<char>, v: V) -> Seq<(Seq<char>, V)> {
    remove_key(s, k).push((k, v))
}

pub proof fn lemma_map_of_absent<V>(s: Seq<(Seq<char>, V)>, k: Seq<char>)
    requires
        forall|i: int| 0 <= i < s.len() ==> s[i].0 != k,
    ensures
        !map_of(s).contains_key(k),
    decreases s.len(),
{
    if s.len() > 0 {
        assert(forall|i: int|
            0 <= i < s.drop_last().len() ==> s.drop_last()[i] == s[i]);
        lemma_map_of_absent(s.drop_last(), k);
    }
}

pub proof fn lemma_map_of_index<V>(s: Seq<(Seq<char>, V)>, k: Seq<char>, i: int)
    requires
        unique_keys(s),
        0 <= i < s.len(),
        s[i].0 == k,
    ensures
        map_of(s).contains_key(k),
        map_of(s)[k] == s[i].1,
    decreases s.len(),
{
    if i == s.len() - 1 {
    } else {
        assert(forall|x: int|
            0 <= x < s.drop_last().len() ==> s.drop_last()[x] == s[x]);
        lemma_map_of_index(s.drop_last(), k, i);
        assert(s.last().0 != k);
    }
}

pub proof fn lemma_remove_key<V>(s: Seq<(Seq<char>, V)>, k: Seq<char>)
    ensures
        map_of(remove_key(s, k)) == map_of(s).remove(k),
        forall|i: int| 0 <= i < remove_key(s, k).len() ==> remove_key(s, k)[i].0 != k,
        forall|k2: Seq<char>| has_key(remove_key(s, k), k2) ==> has_key(s, k2),
        unique_keys(s) ==> unique_keys(remove_key(s, k)),
        (forall|i: int| 0 <= i < s.len() ==> s[i].0 != k) ==> remove_key(s, k) == s,
    decreases s.len(),
{
    if s.len() == 0 {
        assert(map_of(remove_key(s, k)) =~= map_of(s).remove(k));
    } else {
        let t = s.drop_last();
        assert(forall|x: int| 0 <= x < t.len() ==> t[x] == s[x]);
        lemma_remove_key(t, k);
        let r = remove_key(s, k);
        let rt = remove_key(t, k);
        if s.last().0 == k {
            assert(map_of(r) =~= map_of(s).remove(k));
            assert forall|k2: Seq<char>| has_key(r, k2) implies has_key(s, k2) by {
                assert(has_key(t, k2));
                let i = choose|i: int| 0 <= i < t.len() && t[i].0 == k2;
                assert(s[i].0 == k2);
            }
        } else {
            assert(map_of(r) == map_of(rt).insert(s.last().0, s.last().1)) by {
                assert(r.drop_last() =~= rt);
                assert(r.last() == s.last());
            }
            assert(map_of(r) =~= map_of(s).remove(k));
            assert forall|k2: Seq<char>| has_key(r, k2) implies has_key(s, k2) by {
                let i = choose|i: int| 0 <= i < r.len() && r[i].0 == k2;
                if i < rt.len() {
                    assert(rt[i].0 == k2);
                    assert(has_key(t, k2));
                    let j = choose|j: int| 0 <= j < t.len() && t[j].0 == k2;
                    assert(s[j].0 == k2);
                } else {
                    assert(r[i] == s.last());
                    assert(s[s.len() - 1].0 == k2);
                }
            }
            if unique_keys(s) {
                assert(unique_keys(rt));
                assert forall|i: int, j: int|
                    0 <= i < j < r.len() implies r[i].0 != r[j].0 by {
                    if j < rt.len() {
                        assert(r[i] == rt[i] && r[j] == rt[j]);
                    } else {
                        assert(r[j] == s.last());
                        assert(rt[i].0 == r[i].0);
                        if r[i].0 == s.last().0 {
                            assert(has_key(rt, r[i].0));
                            assert(has_key(t, r[i].0));
                            let x = choose|x: int| 0 <= x < t.len() && t[x].0 == r[i].0;
                            assert(s[x].0 == s[s.len() - 1].0);
                        }
                    }
                }
            }
            if forall|i: int| 0 <= i < s.len() ==> s[i].0 != k {
                assert(rt == t);
                assert(r =~= s);
            }
        }
    }
}

pub proof fn lemma_upsert<V>(s: Seq<(Seq<char>, V)>, k: Seq<char>, v: V)
    ensures
        map_of(upsert(s, k, v)) == map_of(s).insert(k, v),
        unique_keys(s) ==> unique_keys(upsert(s, k, v)),
        upsert(s, k, v).len() <= s.len() + 1,
{
    lemma_remove_key(s, k);
    let r = remove_key(s, k);
    let u = upsert(s, k, v);
    assert(u.drop_last() =~= r);
    assert(u.last() == (k, v));
    assert(map_of(u) == map_of(r).insert(k, v));
    assert(map_of(u) =~= map_of(s).insert(k, v));
    if unique_keys(s) {
        assert forall|i: int, j: int| 0 <= i < j < u.len() implies u[i].0 != u[j].0 by {
            if j < r.len() {
                assert(u[i] == r[i] && u[j] == r[j]);
            } else {
                assert(u[i] == r[i]);
                assert(r[i].0 != k);
            }
        }
    }
    lemma_remove_key_len(s, k);
}

proof fn lemma_remove_key_len<V>(s: Seq<(Seq<char>, V)>, k: Seq<char>)
    ensures
        remove_key(s, k).len() <= s.len(),
    decreases s.len(),
{
    if s.len() > 0 {
        lemma_remove_key_len(s.drop_last(), k);
    }
}

/// Under unique keys, taking out key `k` found at index `i` is exactly
/// removing the entry at `i`.
pub proof fn lemma_remove_key_at<V>(s: Seq<(Seq<char>, V)>, k: Seq<char>, i: int)
    requires
        unique_keys(s),
        0 <= i < s.len(),
        s[i].0 == k,
    ensures
        remove_key(s, k) == s.remove(i),
    decreases s.len(),
{
    let t = s.drop_last();
    assert(forall|x: int| 0 <= x < t.len() ==> t[x] == s[x]);
    if i == s.len() - 1 {
        lemma_remove_key(t, k);
        assert(forall|x: int| 0 <= x < t.len() ==> t[x].0 != k);
        assert(remove_key(s, k) == t);
        assert(s.remove(i) =~= t);
    } else {
        assert(s.last().0 != k);
        lemma_remove_key_at(t, k, i);
        assert(remove_key(s, k) =~= s.remove(i)) by {
            assert(remove_key(s, k) == t.remove(i).push(s.last()));
        }
    }
}

/// Taking a key out keeps only entries that were already there.
pub proof fn lemma_remove_key_subset<V>(s: Seq<(Seq<char>, V)>, k: Seq<char>)
    ensures
        forall|i: int|
            0 <= i < remove_key(s, k).len() ==> s.contains(#[trigger] remove_key(s, k)[i]),
    decreases s.len(),
{
    if s.len() > 0 {
        let t = s.drop_last();
        lemma_remove_key_subset(t, k);
        assert(forall|x: int| 0 <= x < t.len() ==> t[x] == s[x]);
        assert forall|i: int|
            0 <= i < remove_key(s, k).len() implies s.contains(
            #[trigger] remove_key(s, k)[i]) by {
            let r = remove_key(s, k);
            let rt = remove_key(t, k);
            if s.last().0 == k {
                assert(t.contains(rt[i]));
                let j = choose|j: int| 0 <= j < t.len() && t[j] == rt[i];
                assert(s[j] == r[i]);
            } else {
                if i < rt.len() {
                    assert(t.contains(rt[i]));
                    let j = choose|j: int| 0 <= j < t.len() && t[j] == rt[i];
                    assert(s[j] == r[i]);
                } else {
                    assert(r[i] == s.last());
                    assert(s[s.len() - 1] == r[i]);
                }
            }
        }
    }
}

/// Under unique keys there are as many map entries as sequence entries.
pub proof fn lemma_map_of_len<V>(s: Seq<(Seq<char>, V)>)
    requires
        unique_keys(s),
    ensures
        map_of(s).dom().finite(),
        map_of(s).dom().len() == s.len(),
    decreases s.len(),
{
    if s.len() > 0 {
        let t = s.drop_last();
        assert(forall|x: int| 0 <= x < t.len() ==> t[x] == s[x]);
        lemma_map_of_len(t);
        assert(forall|x: int| 0 <= x < t.len() ==> t[x].0 != s.last().0);
        lemma_map_of_absent(t, s.last().0);
        assert(map_of(s).dom() =~= map_of(t).dom().insert(s.last().0));
    }
}

} // verus!
