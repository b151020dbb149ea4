//! A vector of entries with unique keys, tied to the map it stands for.
use vstd::prelude::*;

verus! {

/// `keys[i]` maps to `vals[i]` in `m`, keys are unique, and `m` holds nothing
/// else.
pub open spec fn keyed_ok<V>(keys: Seq<Seq<u8>>, vals: Seq<V>, m: Map<Seq<u8>, V>) -> bool {
    &&& keys.len() == vals.len()
    &&& forall|i: int, j: int| 0 <= i < j < keys.len() ==> keys[i] != keys[j]
    &&& forall|i: int|
        0 <= i < keys.len() ==> #[trigger] m.contains_key(keys[i]) && m[keys[i]] == vals[i]
    &&& forall|k: Seq<u8>|
        #[trigger] m.contains_key(k) ==> exists|i: int| 0 <= i < keys.len() && keys[i] == k
}

pub proof fn lemma_keyed_absent<V>(keys: Seq<Seq<u8>>, vals: Seq<V>, m: Map<Seq<u8>, V>, k: Seq<u8>)
    requires
        keyed_ok(keys, vals, m),
        forall|i: int| 0 <= i < keys.len() ==> keys[i] != k,
    ensures
        !m.contains_key(k),
{
}

pub proof fn lemma_keyed_at<V>(keys: Seq<Seq<u8>>, vals: Seq<V>, m: Map<Seq<u8>, V>, i: int)
    requires
        keyed_ok(keys, vals, m),
        0 <= i < keys.len(),
    ensures
        m.contains_key(keys[i]),
        m[keys[i]] == vals[i],
{
    assert(m.contains_key(keys[i]));
}

pub proof fn lemma_keyed_push<V>(
    keys: Seq<Seq<u8>>,
    vals: Seq<V>,
    m: Map<Seq<u8>, V>,
    k: Seq<u8>,
    v: V,
)
    requires
        keyed_ok(keys, vals, m),
        !m.contains_key(k),
    ensures
        keyed_ok(keys.push(k), vals.push(v), m.insert(k, v)),
{
    let keys2 = keys.push(k);
    let vals2 = vals.push(v);
    let m2 = m.insert(k, v);
    assert forall|i: int, j: int| 0 <= i < j < keys2.len() implies keys2[i] != keys2[j] by {
        if j == keys.len() {
            assert(m.contains_key(keys[i]));
        }
    }
    assert forall|i: int| 0 <= i < keys2.len() implies #[trigger] m2.contains_key(keys2[i])
        && m2[keys2[i]] == vals2[i] by {
        if i < keys.len() {
            assert(m.contains_key(keys[i]));
        }
    }
    assert forall|q: Seq<u8>| #[trigger] m2.contains_key(q) implies exists|i: int|
        0 <= i < keys2.len() && keys2[i] == q by {
        if q == k {
            assert(keys2[keys.len() as int] == q);
        } else {
            let i = choose|i: int| 0 <= i < keys.len() && keys[i] == q;
            assert(keys2[i] == q);
        }
    }
}

pub proof fn lemma_keyed_update<V>(
    keys: Seq<Seq<u8>>,
    vals: Seq<V>,
    m: Map<Seq<u8>, V>,
    i: int,
    v: V,
)
    requires
        keyed_ok(keys, vals, m),
        0 <= i < keys.len(),
    ensures
        keyed_ok(keys, vals.update(i, v), m.insert(keys[i], v)),
{
    let vals2 = vals.update(i, v);
    let m2 = m.insert(keys[i], v);
    assert forall|a: int| 0 <= a < keys.len() implies #[trigger] m2.contains_key(keys[a])
        && m2[keys[a]] == vals2[a] by {
        assert(m.contains_key(keys[a]));
    }
    assert forall|q: Seq<u8>| #[trigger] m2.contains_key(q) implies exists|a: int|
        0 <= a < keys.len() && keys[a] == q by {
        if q != keys[i] {
            let a = choose|a: int| 0 <= a < keys.len() && keys[a] == q;
            assert(keys[a] == q);
        }
    }
}

pub proof fn lemma_keyed_remove<V>(keys: Seq<Seq<u8>>, vals: Seq<V>, m: Map<Seq<u8>, V>, i: int)
    requires
        keyed_ok(keys, vals, m),
        0 <= i < keys.len(),
    ensures
        keyed_ok(keys.remove(i), vals.remove(i), m.remove(keys[i])),
{
    let keys2 = keys.remove(i);
    let vals2 = vals.remove(i);
    let m2 = m.remove(keys[i]);
    assert forall|a: int, b: int| 0 <= a < b < keys2.len() implies keys2[a] != keys2[b] by {
        let a0 = if a < i {
            a
        } else {
            a + 1
        };
        let b0 = if b < i {
            b
        } else {
            b + 1
        };
        assert(keys2[a] == keys[a0] && keys2[b] == keys[b0]);
    }
    assert forall|a: int| 0 <= a < keys2.len() implies #[trigger] m2.contains_key(keys2[a])
        && m2[keys2[a]] == vals2[a] by {
        let a0 = if a < i {
            a
        } else {
            a + 1
        };
        assert(keys2[a] == keys[a0] && vals2[a] == vals[a0]);
        assert(m.contains_key(keys[a0]));
    }
    assert forall|q: Seq<u8>| #[trigger] m2.contains_key(q) implies exists|a: int|
        0 <= a < keys2.len() && keys2[a] == q by {
        let a0 = choose|a: int| 0 <= a < keys.len() && keys[a] == q;
        if a0 < i {
            assert(keys2[a0] == q);
        } else {
            assert(keys2[a0 - 1] == q);
        }
    }
}

} // verus!
