//! Association lists over `String` keys with a `Map<Seq<char>, Seq<char>>`
//! view. They stand in for the string-keyed maps that hold flag values and
//! flag aliases.

use vstd::prelude::*;
use crate::strutil::str_eq;

verus! {

/// No two entries share a key.
pub open spec fn keys_unique(s: Seq<(String, String)>) -> bool {
    forall|i: int, j: int| 0 <= i < j < s.len() ==> s[i].0@ != s[j].0@
}

/// The map an association list denotes: later entries shadow earlier ones
/// (irrelevant under `keys_unique`).
pub open spec fn amap(s: Seq<(String, String)>) -> Map<Seq<char>, Seq<char>>
    decreases s.len(),
{
    if s.len() == 0 {
        Map::empty()
    } else {
        amap(s.drop_last()).insert(s.last().0@, s.last().1@)
    }
}

pub proof fn lemma_amap_dom(s: Seq<(String, String)>)
    ensures
        forall|k: Seq<char>|
            amap(s).contains_key(k) <==> exists|i: int| 0 <= i < s.len() && s[i].0@ == k,
    decreases s.len(),
{
    if s.len() > 0 {
        lemma_amap_dom(s.drop_last());
        assert forall|k: Seq<char>| amap(s).contains_key(k) implies exists|i: int|
            0 <= i < s.len() && s[i].0@ == k by {
            if k == s.last().0@ {
                assert(s[s.len() - 1].0@ == k);
            } else {
                assert(amap(s.drop_last()).contains_key(k));
                let i = choose|i: int| 0 <= i < s.drop_last().len() && s.drop_last()[i].0@ == k;
                assert(s.drop_last()[i] == s[i]);
                assert(s[i].0@ == k);
            }
        }
        assert forall|k: Seq<char>| (exists|i: int| 0 <= i < s.len() && s[i].0@ == k)
            implies amap(s).contains_key(k) by {
            let i = choose|i: int| 0 <= i < s.len() && s[i].0@ == k;
            if i < s.len() - 1 {
                assert(s.drop_last()[i].0@ == k);
                assert(amap(s.drop_last()).contains_key(k));
            } else {
                assert(k == s.last().0@);
            }
        }
    }
}

pub proof fn lemma_amap_get(s: Seq<(String, String)>, i: int)
    requires
        keys_unique(s),
        0 <= i < s.len(),
    ensures
        amap(s).contains_key(s[i].0@),
        amap(s)[s[i].0@] == s[i].1@,
    decreases s.len(),
{
    if i == s.len() - 1 {
    } else {
        assert(s.drop_last()[i] == s[i]);
        lemma_amap_get(s.drop_last(), i);
        assert(s[i].0@ != s.last().0@);
    }
}

pub proof fn lemma_amap_update(s: Seq<(String, String)>, i: int, v: String)
    requires
        keys_unique(s),
        0 <= i < s.len(),
    ensures
        keys_unique(s.update(i, (s[i].0, v))),
        amap(s.update(i, (s[i].0, v))) == amap(s).insert(s[i].0@, v@),
    decreases s.len(),
{
    let t = s.update(i, (s[i].0, v));
    assert(forall|j: int| 0 <= j < s.len() ==> t[j].0@ == s[j].0@);
    if i == s.len() - 1 {
        assert(t.drop_last() =~= s.drop_last());
        assert(t.last() == (s[i].0, v));
        assert(amap(t) =~= amap(s).insert(s[i].0@, v@));
    } else {
        assert(t.drop_last() =~= s.drop_last().update(i, (s[i].0, v)));
        assert(s.drop_last()[i] == s[i]);
        lemma_amap_update(s.drop_last(), i, v);
        assert(t.last() == s.last());
        assert(s[i].0@ != s.last().0@);
        assert(amap(t) =~= amap(s).insert(s[i].0@, v@));
    }
}

pub proof fn lemma_amap_push(s: Seq<(String, String)>, k: String, v: String)
    requires
        keys_unique(s),
        forall|i: int| 0 <= i < s.len() ==> s[i].0@ != k@,
    ensures
        keys_unique(s.push((k, v))),
        amap(s.push((k, v))) == amap(s).insert(k@, v@),
{
    let t = s.push((k, v));
    assert(t.drop_last() =~= s);
    assert(forall|i: int, j: int| 0 <= i < j < t.len() && j < s.len() ==> #[trigger] t[i].0@ != #[trigger] t[j].0@);
    assert(forall|i: int| 0 <= i < s.len() ==> #[trigger] t[i].0@ != t[s.len() as int].0@);
}

pub proof fn lemma_amap_remove(s: Seq<(String, String)>, i: int)
    requires
        keys_unique(s),
        0 <= i < s.len(),
    ensures
        keys_unique(s.remove(i)),
        amap(s.remove(i)) == amap(s).remove(s[i].0@),
    decreases s.len(),
{
    let t = s.remove(i);
    assert forall|a: int, b: int| 0 <= a < b < t.len() implies t[a].0@ != t[b].0@ by {
        let a2: int = if a < i { a } else { a + 1 };
        let b2: int = if b < i { b } else { b + 1 };
        assert(t[a] == s[a2] && t[b] == s[b2]);
    }
    if i == s.len() - 1 {
        assert(t =~= s.drop_last());
        lemma_amap_dom(t);
        assert(forall|j: int| 0 <= j < t.len() ==> t[j].0@ != s[i].0@);
        assert(!amap(t).contains_key(s[i].0@));
        assert(amap(s.remove(i)) =~= amap(s).remove(s[i].0@));
    } else {
        assert(t.drop_last() =~= s.drop_last().remove(i));
        assert(t.last() == s.last());
        assert(s.drop_last()[i] == s[i]);
        lemma_amap_remove(s.drop_last(), i);
        assert(s[i].0@ != s.last().0@);
        assert(amap(t) =~= amap(s).remove(s[i].0@));
    }
}

/// Index of the entry holding key `k`, if any.
fn afind(v: &Vec<(String, String)>, k: &str) -> (r: Option<usize>)
    ensures
        match r {
            Some(i) => i < v@.len() && v@[i as int].0@ == k@,
            None => forall|i: int| 0 <= i < v@.len() ==> v@[i].0@ != k@,
        },
{
    let n = v.len();
    let mut i: usize = 0;
    while i < n
        invariant
            n == v@.len(),
            i <= n,
            forall|j: int| 0 <= j < i ==> v@[j].0@ != k@,
        decreases n - i,
    {
        if str_eq(v[i].0.as_str(), k) {
            return Some(i);
        }
        i += 1;
    }
    None
}

/// Looks a key up.
pub fn aget<'a>(v: &'a Vec<(String, String)>, k: &str) -> (r: Option<&'a String>)
    requires
        keys_unique(v@),
    ensures
        match r {
            Some(val) => amap(v@).contains_key(k@) && val@ == amap(v@)[k@],
            None => !amap(v@).contains_key(k@),
        },
{
    proof {
        lemma_amap_dom(v@);
    }
    match afind(v, k) {
        Some(i) => {
            proof {
                lemma_amap_get(v@, i as int);
            }
            Some(&v[i].1)
        },
        None => None,
    }
}

/// True when the key is present.
pub fn acontains(v: &Vec<(String, String)>, k: &str) -> (r: bool)
    requires
        keys_unique(v@),
    ensures
        r == amap(v@).contains_key(k@),
{
    aget(v, k).is_some()
}

/// Inserts or replaces the binding for `k`.
pub fn ainsert(v: &mut Vec<(String, String)>, k: &str, val: String)
    requires
        keys_unique(old(v)@),
    ensures
        keys_unique(final(v)@),
        amap(final(v)@) == amap(old(v)@).insert(k@, val@),
        final(v)@.len() == old(v)@.len() + (if amap(old(v)@).contains_key(k@) {
            0int
        } else {
            1int
        }),
{
    proof {
        lemma_amap_dom(v@);
    }
    match afind(v, k) {
        Some(i) => {
            proof {
                lemma_amap_get(v@, i as int);
                lemma_amap_update(v@, i as int, val);
            }
            let key = v[i].0.clone();
            v.set(i, (key, val));
        },
        None => {
            let key = k.to_owned();
            proof {
                lemma_amap_push(v@, key, val);
            }
            v.push((key, val));
        },
    }
}

/// Removes the binding for `k`, if present.
pub fn aremove(v: &mut Vec<(String, String)>, k: &str)
    requires
        keys_unique(old(v)@),
    ensures
        keys_unique(final(v)@),
        amap(final(v)@) == amap(old(v)@).remove(k@),
{
    proof {
        lemma_amap_dom(v@);
    }
    match afind(v, k) {
        Some(i) => {
            proof {
                lemma_amap_remove(v@, i as int);
            }
            v.remove(i);
        },
        None => {
            proof {
                assert(amap(v@) =~= amap(v@).remove(k@));
            }
        },
    }
}

/// True when the list is empty, which under `keys_unique` is exactly when
/// its map has an empty domain.
pub fn aempty(v: &Vec<(String, String)>) -> (r: bool)
    requires
        keys_unique(v@),
    ensures
        r == (amap(v@) == Map::<Seq<char>, Seq<char>>::empty()),
{
    proof {
        lemma_amap_dom(v@);
        if v@.len() > 0 {
            assert(amap(v@).contains_key(v@[0].0@));
            assert(amap(v@) != Map::<Seq<char>, Seq<char>>::empty());
        } else {
            assert(amap(v@) =~= Map::<Seq<char>, Seq<char>>::empty());
        }
    }
    v.len() == 0
}

} // verus!
