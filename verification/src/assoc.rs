//! Association lists keyed by strings, together with the finite map they
//! denote. The map view is what the replication contracts speak of; the
//! lists themselves keep keys unique.

use vstd::prelude::*;
use crate::strutil::str_eq;

verus! {

/// No two pairs share a key.
pub open spec fn assoc_keys_unique<T>(s: Seq<(String, T)>) -> bool {
    forall|i: int, j: int| 0 <= i < j < s.len() ==> s[i].0@ != s[j].0@
}

/// The finite map an association list denotes; a later pair wins over an
/// earlier one with the same key.
pub open spec fn assoc_view<T: View>(s: Seq<(String, T)>) -> Map<Seq<char>, T::V>
    decreases s.len(),
{
    if s.len() == 0 {
        Map::empty()
    } else {
        assoc_view(s.drop_last()).insert(s.last().0@, s.last().1@)
    }
}

pub proof fn lemma_assoc_view_contains<T: View>(s: Seq<(String, T)>, k: Seq<char>)
    ensures
        assoc_view(s).contains_key(k) <==> exists|i: int|
            0 <= i < s.len() && #[trigger] s[i].0@ == k,
    decreases s.len(),
{
    if s.len() > 0 {
        lemma_assoc_view_contains(s.drop_last(), k);
        if s.last().0@ == k {
            assert(s[s.len() - 1].0@ == k);
        } else {
            if exists|i: int| 0 <= i < s.len() && #[trigger] s[i].0@ == k {
                let i = choose|i: int| 0 <= i < s.len() && #[trigger] s[i].0@ == k;
                assert(s.drop_last()[i] == s[i]);
                assert(s.drop_last()[i].0@ == k);
            }
            if assoc_view(s).contains_key(k) {
                assert(assoc_view(s.drop_last()).contains_key(k));
                let i = choose|i: int|
                    0 <= i < s.drop_last().len() && #[trigger] s.drop_last()[i].0@ == k;
                assert(s[i] == s.drop_last()[i]);
                assert(s[i].0@ == k);
            }
        }
    }
}

pub proof fn lemma_assoc_view_index<T: View>(s: Seq<(String, T)>, i: int)
    requires
        assoc_keys_unique(s),
        0 <= i < s.len(),
    ensures
        assoc_view(s).contains_key(s[i].0@),
        assoc_view(s)[s[i].0@] == s[i].1@,
    decreases s.len(),
{
    if i < s.len() - 1 {
        assert(s.drop_last()[i] == s[i]);
        lemma_assoc_view_index(s.drop_last(), i);
        assert(s[s.len() - 1].0@ != s[i].0@);
    }
}

pub proof fn lemma_assoc_view_len<T: View>(s: Seq<(String, T)>)
    requires
        assoc_keys_unique(s),
    ensures
        assoc_view(s).dom().finite(),
        assoc_view(s).len() == s.len(),
    decreases s.len(),
{
    if s.len() > 0 {
        lemma_assoc_view_len(s.drop_last());
        lemma_assoc_view_contains(s.drop_last(), s.last().0@);
        assert(!assoc_view(s.drop_last()).contains_key(s.last().0@));
    }
}

pub proof fn lemma_assoc_view_update<T: View>(s: Seq<(String, T)>, i: int, p: (String, T))
    requires
        assoc_keys_unique(s),
        0 <= i < s.len(),
        p.0@ == s[i].0@,
    ensures
        assoc_view(s.update(i, p)) == assoc_view(s).insert(p.0@, p.1@),
        assoc_keys_unique(s.update(i, p)),
    decreases s.len(),
{
    let su = s.update(i, p);
    assert(su.len() == s.len());
    if i == s.len() - 1 {
        assert(su.drop_last() =~= s.drop_last());
        assert(su.last() == p);
        assert(assoc_view(su) =~= assoc_view(s).insert(p.0@, p.1@));
    } else {
        assert(su.drop_last() =~= s.drop_last().update(i, p));
        assert(su.last() == s.last());
        lemma_assoc_view_update(s.drop_last(), i, p);
        assert(assoc_view(su) == assoc_view(s.drop_last()).insert(p.0@, p.1@).insert(
            s.last().0@,
            s.last().1@,
        ));
        assert(s.last().0@ != p.0@);
        assert(assoc_view(s.drop_last()).insert(p.0@, p.1@).insert(s.last().0@, s.last().1@)
            =~= assoc_view(s.drop_last()).insert(s.last().0@, s.last().1@).insert(p.0@, p.1@));
    }
}

pub proof fn lemma_assoc_view_remove<T: View>(s: Seq<(String, T)>, i: int)
    requires
        assoc_keys_unique(s),
        0 <= i < s.len(),
    ensures
        assoc_view(s.remove(i)) == assoc_view(s).remove(s[i].0@),
        assoc_keys_unique(s.remove(i)),
    decreases s.len(),
{
    let sr = s.remove(i);
    if i == s.len() - 1 {
        assert(sr =~= s.drop_last());
        lemma_assoc_view_contains(s.drop_last(), s[i].0@);
        assert(!assoc_view(s.drop_last()).contains_key(s[i].0@));
        assert(assoc_view(sr) =~= assoc_view(s).remove(s[i].0@));
    } else {
        assert(sr.drop_last() =~= s.drop_last().remove(i));
        assert(sr.last() == s.last());
        lemma_assoc_view_remove(s.drop_last(), i);
        assert(s.last().0@ != s[i].0@);
        assert(assoc_view(sr) == assoc_view(s.drop_last()).remove(s[i].0@).insert(
            s.last().0@,
            s.last().1@,
        ));
        assert(assoc_view(s.drop_last()).remove(s[i].0@).insert(s.last().0@, s.last().1@)
            =~= assoc_view(s.drop_last()).insert(s.last().0@, s.last().1@).remove(s[i].0@));
    }
}

pub proof fn lemma_assoc_view_push<T: View>(s: Seq<(String, T)>, p: (String, T))
    requires
        assoc_keys_unique(s),
        forall|i: int| 0 <= i < s.len() ==> s[i].0@ != p.0@,
    ensures
        assoc_view(s.push(p)) == assoc_view(s).insert(p.0@, p.1@),
        assoc_keys_unique(s.push(p)),
{
    assert(s.push(p).drop_last() =~= s);
    assert(s.push(p).last() == p);
}

/// Whether some pair among the first `i` carries key `k`.
pub open spec fn prefix_has<T>(s: Seq<(String, T)>, i: int, k: Seq<char>) -> bool {
    exists|j: int| 0 <= j < i && #[trigger] s[j].0@ == k
}

/// Find the position of a key by linear search.
pub fn assoc_find<T>(v: &Vec<(String, T)>, key: &str) -> (r: Option<usize>)
    ensures
        r matches Some(i) ==> i < v@.len() && v@[i as int].0@ == key@,
        r is None ==> forall|i: int| 0 <= i < v@.len() ==> v@[i].0@ != key@,
{
    let n = v.len();
    let mut i: usize = 0;
    while i < n
        invariant
            n == v@.len(),
            i <= n,
            forall|k: int| 0 <= k < i ==> v@[k].0@ != key@,
        decreases n - i,
    {
        if str_eq(v[i].0.as_str(), key) {
            return Some(i);
        }
        i += 1;
    }
    None
}

} // verus!
