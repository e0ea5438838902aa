//! Id-keyed tables: the shape shared by the catalog's rows, the blob
//! directory, the staging area, and the diagnostic records. A table is a
//! vector of `(key, value)` pairs with pairwise-distinct keys.

use vstd::prelude::*;

verus! {

/// Whether some pair of the table carries the given key.
pub open spec fn has_key<T>(s: Seq<(u128, T)>, key: u128) -> bool {
    exists|i: int| 0 <= i < s.len() && (#[trigger] s[i]).0 == key
}

/// The index of the pair carrying the given key.
pub open spec fn key_index<T>(s: Seq<(u128, T)>, key: u128) -> int {
    choose|i: int| 0 <= i < s.len() && (#[trigger] s[i]).0 == key
}

/// The value stored under the given key.
pub open spec fn val_of<T>(s: Seq<(u128, T)>, key: u128) -> T
    recommends
        has_key(s, key),
{
    s[key_index(s, key)].1
}

/// Whether a sequence of ids is pairwise distinct.
pub open spec fn ids_unique(s: Seq<u128>) -> bool {
    forall|i: int, j: int| 0 <= i < j < s.len() ==> #[trigger] s[i] != #[trigger] s[j]
}

/// Copies a list of ids.
pub fn clone_ids(v: &Vec<u128>) -> (r: Vec<u128>)
    ensures
        r@ == v@,
{
    let mut r: Vec<u128> = Vec::new();
    let mut i: usize = 0;
    while i < v.len()
        invariant
            i <= v@.len(),
            r@ == v@.take(i as int),
        decreases v@.len() - i,
    {
        r.push(v[i]);
        proof {
            assert(r@ =~= v@.take(i as int + 1));
        }
        i = i + 1;
    }
    proof {
        assert(v@.take(v@.len() as int) =~= v@);
    }
    r
}

/// Whether the table's keys are pairwise distinct.
pub open spec fn keys_unique<T>(s: Seq<(u128, T)>) -> bool {
    forall|i: int, j: int|
        0 <= i < j < s.len() ==> (#[trigger] s[i]).0 != (#[trigger] s[j]).0
}

/// In a table with distinct keys, the pair at any index holding `key` is
/// the pair `key_index` names.
pub proof fn lemma_key_at<T>(s: Seq<(u128, T)>, key: u128, i: int)
    requires
        keys_unique(s),
        0 <= i < s.len(),
        s[i].0 == key,
    ensures
        has_key(s, key),
        key_index(s, key) == i,
        val_of(s, key) == s[i].1,
{
    assert(has_key(s, key));
    let j = key_index(s, key);
    assert(0 <= j < s.len() && s[j].0 == key);
    if i < j {
        assert(s[i].0 != s[j].0);
    } else if j < i {
        assert(s[j].0 != s[i].0);
    }
}

/// Membership of a value in a sequence of ids.
pub proof fn lemma_contains_take<T>(s: Seq<T>, i: int, x: T)
    requires
        0 <= i < s.len(),
    ensures
        s.take(i + 1).contains(x) <==> (s.take(i).contains(x) || s[i] == x),
{
    assert(s.take(i + 1) =~= s.take(i).push(s[i]));
    if s.take(i + 1).contains(x) {
        let k = choose|k: int| 0 <= k < i + 1 && #[trigger] s.take(i + 1)[k] == x;
        if k < i {
            assert(s.take(i)[k] == x);
        }
    }
    if s.take(i).contains(x) {
        let k = choose|k: int| 0 <= k < i && #[trigger] s.take(i)[k] == x;
        assert(s.take(i + 1)[k] == x);
    }
    if s[i] == x {
        assert(s.take(i + 1)[i] == x);
    }
}

/// Pushing an element extends membership by exactly that element.
pub proof fn lemma_contains_push<T>(s: Seq<T>, x: T, y: T)
    ensures
        s.push(x).contains(y) <==> (s.contains(y) || x == y),
{
    if s.push(x).contains(y) {
        let k = choose|k: int| 0 <= k < s.push(x).len() && s.push(x)[k] == y;
        if k < s.len() {
            assert(s[k] == y);
        }
    }
    if s.contains(y) {
        let k = choose|k: int| 0 <= k < s.len() && s[k] == y;
        assert(s.push(x)[k] == y);
    }
    if x == y {
        assert(s.push(x)[s.len() as int] == y);
    }
}

/// Whether the given id occurs in the list.
pub fn contains_id(ids: &Vec<u128>, id: u128) -> (r: bool)
    ensures
        r == ids@.contains(id),
{
    let mut i: usize = 0;
    while i < ids.len()
        invariant
            i <= ids@.len(),
            forall|j: int| 0 <= j < i ==> ids@[j] != id,
        decreases ids@.len() - i,
    {
        if ids[i] == id {
            assert(ids@.contains(id));
            return true;
        }
        i = i + 1;
    }
    assert(!ids@.contains(id)) by {
        if ids@.contains(id) {
            let k = choose|k: int| 0 <= k < ids@.len() && ids@[k] == id;
        }
    }
    false
}

/// Finds the index of the pair carrying the given key, if any.
pub fn find<T>(v: &Vec<(u128, T)>, key: u128) -> (r: Option<usize>)
    ensures
        match r {
            Some(i) => i < v@.len() && v@[i as int].0 == key,
            None => !has_key(v@, key),
        },
{
    let mut i: usize = 0;
    while i < v.len()
        invariant
            i <= v@.len(),
            forall|j: int| 0 <= j < i ==> (#[trigger] v@[j]).0 != key,
        decreases v@.len() - i,
    {
        if v[i].0 == key {
            return Some(i);
        }
        i = i + 1;
    }
    None
}

/// Appends a pair under a key the table does not hold yet.
pub fn insert_new<T>(v: &mut Vec<(u128, T)>, key: u128, val: T)
    requires
        keys_unique(old(v)@),
        !has_key(old(v)@, key),
    ensures
        final(v)@ == old(v)@.push((key, val)),
        keys_unique(final(v)@),
        has_key(final(v)@, key),
        val_of(final(v)@, key) == val,
        forall|x: u128|
            #[trigger] has_key(final(v)@, x) <==> (has_key(old(v)@, x) || x == key),
        forall|x: u128|
            has_key(old(v)@, x) ==> #[trigger] val_of(final(v)@, x) == val_of(old(v)@, x),
{
    v.push((key, val));
    proof {
        let s = v@;
        let o = old(v)@;
        assert forall|i: int, j: int| 0 <= i < j < s.len() implies (#[trigger] s[i]).0
            != (#[trigger] s[j]).0 by {
            if j == s.len() - 1 {
                assert(s[i] == o[i]);
                if s[i].0 == key {
                    assert(o[i].0 == key);
                    assert(has_key(o, key));
                }
            }
        }
        lemma_key_at(s, key, s.len() - 1);
        assert forall|x: u128| #[trigger] has_key(s, x) implies (has_key(o, x) || x == key) by {
            let i = key_index(s, x);
            if i < o.len() {
                assert(o[i].0 == x);
            }
        }
        assert forall|x: u128| has_key(o, x) || x == key implies #[trigger] has_key(s, x) by {
            if x == key {
                assert(s[s.len() - 1].0 == key);
            } else {
                let i = key_index(o, x);
                assert(o[i].0 == x);
                assert(s[i].0 == x);
            }
        }
        assert forall|x: u128| has_key(o, x) implies #[trigger] val_of(s, x) == val_of(o, x) by {
            let i = key_index(o, x);
            assert(o[i].0 == x);
            lemma_key_at(o, x, i);
            assert(s[i] == o[i]);
            lemma_key_at(s, x, i);
        }
    }
}

/// Replaces the value stored at index `i`, keeping its key.
pub fn update_at<T>(v: &mut Vec<(u128, T)>, i: usize, val: T)
    requires
        keys_unique(old(v)@),
        i < old(v)@.len(),
    ensures
        final(v)@ == old(v)@.update(i as int, (old(v)@[i as int].0, val)),
        keys_unique(final(v)@),
        val_of(final(v)@, old(v)@[i as int].0) == val,
        forall|x: u128| #[trigger] has_key(final(v)@, x) <==> has_key(old(v)@, x),
        forall|x: u128|
            has_key(old(v)@, x) && x != old(v)@[i as int].0 ==> #[trigger] val_of(final(v)@, x)
                == val_of(old(v)@, x),
{
    let key = v[i].0;
    v.set(i, (key, val));
    proof {
        let s = v@;
        let o = old(v)@;
        assert(keys_unique(s));
        lemma_key_at(s, key, i as int);
        assert forall|x: u128| #[trigger] has_key(s, x) implies has_key(o, x) by {
            let k = key_index(s, x);
            assert(o[k].0 == x);
        }
        assert forall|x: u128| #[trigger] has_key(o, x) implies has_key(s, x) by {
            let k = key_index(o, x);
            assert(o[k].0 == x);
            assert(s[k].0 == x);
        }
        assert forall|x: u128| has_key(o, x) && x != key implies #[trigger] val_of(s, x) == val_of(
            o,
            x,
        ) by {
            let k = key_index(o, x);
            lemma_key_at(o, x, k);
            assert(s[k] == o[k]);
            lemma_key_at(s, x, k);
        }
    }
}

/// Removes and returns the pair under the given key, if the table holds it.
pub fn remove_key<T>(v: &mut Vec<(u128, T)>, key: u128) -> (r: Option<(u128, T)>)
    requires
        keys_unique(old(v)@),
    ensures
        keys_unique(final(v)@),
        !has_key(final(v)@, key),
        match r {
            Some(pair) => has_key(old(v)@, key) && pair.0 == key && pair.1 == val_of(
                old(v)@,
                key,
            ) && final(v)@ == old(v)@.remove(key_index(old(v)@, key)),
            None => !has_key(old(v)@, key) && *final(v) == *old(v),
        },
        forall|x: u128|
            x != key ==> (#[trigger] has_key(final(v)@, x) <==> has_key(old(v)@, x)),
        forall|x: u128|
            x != key && has_key(old(v)@, x) ==> #[trigger] val_of(final(v)@, x) == val_of(
                old(v)@,
                x,
            ),
{
    let found = find(v, key);
    match found {
        None => None,
        Some(i) => {
            proof {
                lemma_key_at(old(v)@, key, i as int);
            }
            let pair = v.remove(i);
            proof {
                let s = v@;
                let o = old(v)@;
                assert forall|a: int, b: int| 0 <= a < b < s.len() implies (#[trigger] s[a]).0
                    != (#[trigger] s[b]).0 by {
                    let oa: int = if a < i as int { a } else { a + 1 };
                    let ob: int = if b < i as int { b } else { b + 1 };
                    assert(s[a] == o[oa]);
                    assert(s[b] == o[ob]);
                }
                assert forall|x: u128| #[trigger] has_key(s, x) implies (x != key && has_key(
                    o,
                    x,
                )) by {
                    let k = key_index(s, x);
                    let ok: int = if k < i as int { k } else { k + 1 };
                    assert(s[k] == o[ok]);
                    lemma_key_at(o, x, ok);
                }
                assert forall|x: u128| x != key && has_key(o, x) implies has_key(s, x) by {
                    let k = key_index(o, x);
                    assert(o[k].0 == x);
                    if k < i as int {
                        assert(s[k] == o[k]);
                    } else {
                        assert(k > i as int);
                        assert(s[k - 1] == o[k]);
                    }
                }
                assert forall|x: u128| x != key && has_key(o, x) implies #[trigger] val_of(s, x)
                    == val_of(o, x) by {
                    let k = key_index(o, x);
                    lemma_key_at(o, x, k);
                    if k < i as int {
                        assert(s[k] == o[k]);
                        lemma_key_at(s, x, k);
                    } else {
                        assert(k > i as int);
                        assert(s[k - 1] == o[k]);
                        lemma_key_at(s, x, k - 1);
                    }
                }
            }
            Some(pair)
        },
    }
}

/// Removes every pair whose key occurs in `ids`; missing ids are tolerated.
pub fn remove_keys<T>(v: &mut Vec<(u128, T)>, ids: &Vec<u128>)
    requires
        keys_unique(old(v)@),
    ensures
        keys_unique(final(v)@),
        forall|x: u128|
            #[trigger] has_key(final(v)@, x) <==> (has_key(old(v)@, x) && !ids@.contains(x)),
        forall|x: u128|
            has_key(final(v)@, x) ==> #[trigger] val_of(final(v)@, x) == val_of(old(v)@, x),
{
    let mut i: usize = 0;
    while i < ids.len()
        invariant
            i <= ids@.len(),
            keys_unique(v@),
            forall|x: u128|
                #[trigger] has_key(v@, x) <==> (has_key(old(v)@, x) && !ids@.take(i as int).contains(
                    x,
                )),
            forall|x: u128|
                has_key(v@, x) ==> #[trigger] val_of(v@, x) == val_of(old(v)@, x),
        decreases ids@.len() - i,
    {
        let ghost prev = v@;
        let id = ids[i];
        let removed = remove_key(v, id);
        proof {
            assert forall|x: u128| #[trigger] has_key(v@, x) implies (has_key(old(v)@, x)
                && !ids@.take(i as int + 1).contains(x)) by {
                lemma_contains_take(ids@, i as int, x);
                assert(x != id);
                assert(has_key(prev, x));
            }
            assert forall|x: u128| has_key(old(v)@, x) && !ids@.take(i as int + 1).contains(x)
                implies #[trigger] has_key(v@, x) by {
                lemma_contains_take(ids@, i as int, x);
                assert(has_key(prev, x));
            }
        }
        i = i + 1;
    }
    proof {
        assert(ids@.take(ids@.len() as int) =~= ids@);
    }
}

} // verus!
