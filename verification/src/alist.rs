//! String-keyed association lists: the verified building block behind each of
//! the five storage buckets. A bucket is a vector of key/value pairs with
//! pairwise-distinct keys, read through the finite map it denotes.

use crate::keys::str_eq;
use vstd::prelude::*;

verus! {

/// The finite map denoted by a sequence of key/value pairs; a later entry for
/// a key overrides an earlier one.
pub open spec fn alist_map<V>(s: Seq<(String, V)>) -> Map<Seq<char>, V>
    decreases s.len(),
{
    if s.len() == 0 {
        Map::empty()
    } else {
        alist_map(s.drop_last()).insert(s.last().0@, s.last().1)
    }
}

/// Well-formed: no two entries share a key.
pub open spec fn alist_wf<V>(s: Seq<(String, V)>) -> bool {
    forall|i: int, j: int| 0 <= i < j < s.len() ==> s[i].0@ != s[j].0@
}

/// Each entry of a well-formed list is in the denoted map with its own value.
pub proof fn lemma_alist_map_index<V>(s: Seq<(String, V)>)
    requires
        alist_wf(s),
    ensures
        forall|j: int|
            0 <= j < s.len() ==> alist_map(s).contains_key(#[trigger] s[j].0@) && alist_map(
                s,
            )[s[j].0@] == s[j].1,
    decreases s.len(),
{
    if s.len() > 0 {
        lemma_alist_map_index(s.drop_last());
        assert(forall|j: int| 0 <= j < s.len() - 1 ==> s.drop_last()[j] == s[j]);
    }
}

/// The denoted map holds a key exactly when some entry carries it.
pub proof fn lemma_alist_map_dom<V>(s: Seq<(String, V)>, k: Seq<char>)
    ensures
        alist_map(s).contains_key(k) <==> exists|j: int| 0 <= j < s.len() && s[j].0@ == k,
    decreases s.len(),
{
    if s.len() > 0 {
        lemma_alist_map_dom(s.drop_last(), k);
        if s.last().0@ == k {
            assert(s[s.len() - 1].0@ == k);
        } else {
            assert(forall|j: int| 0 <= j < s.len() - 1 ==> s.drop_last()[j] == s[j]);
            if exists|j: int| 0 <= j < s.len() && s[j].0@ == k {
                let j = choose|j: int| 0 <= j < s.len() && s[j].0@ == k;
                assert(s.drop_last()[j] == s[j]);
            }
        }
    }
}

/// Appending an entry denotes a map insert.
pub proof fn lemma_alist_map_push<V>(s: Seq<(String, V)>, e: (String, V))
    ensures
        alist_map(s.push(e)) == alist_map(s).insert(e.0@, e.1),
{
    assert(s.push(e).drop_last() =~= s);
}

/// Removing the entry at an index of a well-formed list denotes removing its
/// key from the map.
pub proof fn lemma_alist_map_remove<V>(s: Seq<(String, V)>, i: int)
    requires
        alist_wf(s),
        0 <= i < s.len(),
    ensures
        alist_wf(s.remove(i)),
        alist_map(s.remove(i)) == alist_map(s).remove(s[i].0@),
    decreases s.len(),
{
    let k = s[i].0@;
    if i == s.len() - 1 {
        assert(s.remove(i) =~= s.drop_last());
        lemma_alist_map_dom(s.drop_last(), k);
        assert(forall|j: int| 0 <= j < s.len() - 1 ==> s.drop_last()[j] == s[j]);
        assert(!alist_map(s.drop_last()).contains_key(k));
        assert(alist_map(s.drop_last()).insert(k, s.last().1).remove(k) =~= alist_map(
            s.drop_last(),
        ));
        assert(alist_map(s.remove(i)) == alist_map(s).remove(k));
    } else {
        let d = s.drop_last();
        assert(forall|j: int| 0 <= j < s.len() - 1 ==> d[j] == s[j]);
        lemma_alist_map_remove(d, i);
        assert(s.remove(i).drop_last() =~= d.remove(i));
        assert(s.remove(i).last() == s.last());
        assert(alist_map(s.remove(i)) == alist_map(d.remove(i)).insert(s.last().0@, s.last().1));
        assert(alist_map(d).remove(k).insert(s.last().0@, s.last().1) =~= alist_map(d).insert(
            s.last().0@,
            s.last().1,
        ).remove(k)) by {
            assert(s.last().0@ != k);
        }
        assert(alist_map(s.remove(i)) == alist_map(s).remove(k));
    }
}

/// Replacing the entry at an index by one carrying the same key denotes a
/// map insert of that key, whatever the new value is.
pub proof fn lemma_alist_map_update<V>(s: Seq<(String, V)>, i: int)
    requires
        alist_wf(s),
        0 <= i < s.len(),
    ensures
        forall|e: (String, V)|
            e.0@ == s[i].0@ ==> alist_wf(#[trigger] s.update(i, e)) && alist_map(s.update(i, e))
                == alist_map(s).insert(s[i].0@, e.1),
    decreases s.len(),
{
    assert forall|e: (String, V)| e.0@ == s[i].0@ implies alist_wf(#[trigger] s.update(i, e))
        && alist_map(s.update(i, e)) == alist_map(s).insert(s[i].0@, e.1) by {
        let u = s.update(i, e);
        assert(forall|j: int| 0 <= j < s.len() && j != i ==> u[j] == s[j]);
        assert(alist_wf(u));
        if i == s.len() - 1 {
            assert(u.drop_last() =~= s.drop_last());
            assert(alist_map(s.drop_last()).insert(s[i].0@, e.1) =~= alist_map(
                s.drop_last(),
            ).insert(s[i].0@, s[i].1).insert(s[i].0@, e.1));
        } else {
            let d = s.drop_last();
            lemma_alist_map_update(d, i);
            assert(forall|j: int| 0 <= j < s.len() - 1 ==> d[j] == s[j]);
            assert(u.drop_last() =~= d.update(i, e));
            assert(u.last() == s.last());
            assert(alist_map(u) == alist_map(d).insert(s[i].0@, e.1).insert(
                s.last().0@,
                s.last().1,
            ));
            assert(alist_map(d).insert(s[i].0@, e.1).insert(s.last().0@, s.last().1)
                =~= alist_map(d).insert(s.last().0@, s.last().1).insert(s[i].0@, e.1)) by {
                assert(s.last().0@ != s[i].0@);
            }
        }
    }
}

/// Looks a key up in a bucket, returning a mutable reference to its value.
pub(crate) fn alist_get_mut<'a, V>(entries: &'a mut Vec<(String, V)>, key: &str) -> (r: Option<
    &'a mut V,
>)
    requires
        alist_wf(old(entries)@),
    ensures
        match r {
            Some(v) => alist_map(old(entries)@).contains_key(key@) && *v == alist_map(
                old(entries)@,
            )[key@] && alist_wf(final(entries)@) && alist_map(final(entries)@) == alist_map(
                old(entries)@,
            ).insert(key@, *final(v)),
            None => !alist_map(old(entries)@).contains_key(key@) && final(entries)@ == old(
                entries,
            )@,
        },
{
    let n = entries.len();
    let mut i: usize = 0;
    while i < n
        invariant
            n == entries@.len(),
            0 <= i <= n,
            alist_wf(entries@),
            entries@ == old(entries)@,
            forall|j: int| 0 <= j < i ==> entries@[j].0@ != key@,
        decreases n - i,
    {
        if str_eq(entries[i].0.as_str(), key) {
            proof {
                lemma_alist_map_index(entries@);
                lemma_alist_map_update(entries@, i as int);
            }
            let e = vstd::std_specs::vec::vec_index_mut(entries, i);
            return Some(&mut e.1);
        }
        i += 1;
    }
    proof {
        lemma_alist_map_dom(entries@, key@);
    }
    None
}

/// Looks a key up in a bucket.
pub(crate) fn alist_get<'a, V>(entries: &'a Vec<(String, V)>, key: &str) -> (r: Option<&'a V>)
    requires
        alist_wf(entries@),
    ensures
        match r {
            Some(v) => alist_map(entries@).contains_key(key@) && *v == alist_map(
                entries@,
            )[key@],
            None => !alist_map(entries@).contains_key(key@),
        },
{
    let n = entries.len();
    let mut i: usize = 0;
    while i < n
        invariant
            n == entries@.len(),
            0 <= i <= n,
            alist_wf(entries@),
            forall|j: int| 0 <= j < i ==> entries@[j].0@ != key@,
        decreases n - i,
    {
        if str_eq(entries[i].0.as_str(), key) {
            proof {
                lemma_alist_map_index(entries@);
            }
            return Some(&entries[i].1);
        }
        i += 1;
    }
    proof {
        lemma_alist_map_dom(entries@, key@);
    }
    None
}

/// Removes the entry for a key from a bucket, returning its value.
pub(crate) fn alist_remove<V>(entries: &mut Vec<(String, V)>, key: &str) -> (r: Option<V>)
    requires
        alist_wf(old(entries)@),
    ensures
        alist_wf(final(entries)@),
        alist_map(final(entries)@) == alist_map(old(entries)@).remove(key@),
        match r {
            Some(v) => alist_map(old(entries)@).contains_key(key@) && v == alist_map(
                old(entries)@,
            )[key@],
            None => !alist_map(old(entries)@).contains_key(key@) && final(entries)@ == old(
                entries,
            )@,
        },
{
    let n = entries.len();
    let mut i: usize = 0;
    while i < n
        invariant
            n == entries@.len(),
            0 <= i <= n,
            alist_wf(entries@),
            entries@ == old(entries)@,
            forall|j: int| 0 <= j < i ==> entries@[j].0@ != key@,
        decreases n - i,
    {
        if str_eq(entries[i].0.as_str(), key) {
            proof {
                lemma_alist_map_index(entries@);
                lemma_alist_map_remove(entries@, i as int);
            }
            let p = entries.remove(i);
            return Some(p.1);
        }
        i += 1;
    }
    proof {
        lemma_alist_map_dom(entries@, key@);
        assert(alist_map(entries@).remove(key@) =~= alist_map(entries@));
    }
    None
}

/// Inserts or overwrites the value for a key in a bucket.
pub(crate) fn alist_insert<V>(entries: &mut Vec<(String, V)>, key: &str, value: V)
    requires
        alist_wf(old(entries)@),
    ensures
        alist_wf(final(entries)@),
        alist_map(final(entries)@) == alist_map(old(entries)@).insert(key@, value),
{
    let _removed = alist_remove(entries, key);
    let ghost mid = entries@;
    proof {
        lemma_alist_map_dom(mid, key@);
    }
    let owned: String = key.to_owned();
    entries.push((owned, value));
    proof {
        lemma_alist_map_push(mid, entries@.last());
        assert(entries@ == mid.push(entries@.last()));
        assert(alist_map(old(entries)@).remove(key@).insert(key@, value) =~= alist_map(
            old(entries)@,
        ).insert(key@, value));
    }
}

} // verus!
