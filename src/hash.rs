//! Transaction identifiers and their byte-wise order.
use vstd::prelude::*;

verus! {

/// A transaction identifier: a 32-byte content hash.
pub type TxHash = [u8; 32];

/// `a` sorts before `b`: at the first byte where they differ, `a`'s is smaller.
pub open spec fn hash_lt(a: Seq<u8>, b: Seq<u8>) -> bool {
    exists|i: int|
        0 <= i < a.len() && i < b.len() && (forall|j: int| 0 <= j < i ==> a[j] == b[j]) && #[trigger] a[i]
            < b[i]
}

pub open spec fn hash_le(a: Seq<u8>, b: Seq<u8>) -> bool {
    a == b || hash_lt(a, b)
}

pub proof fn lemma_hash_lt_transitive(a: Seq<u8>, b: Seq<u8>, c: Seq<u8>)
    requires
        hash_lt(a, b),
        hash_lt(b, c),
    ensures
        hash_lt(a, c),
{
    let i = choose|i: int|
        0 <= i < a.len() && i < b.len() && (forall|j: int| 0 <= j < i ==> a[j] == b[j]) && #[trigger] a[i]
            < b[i];
    let k = choose|k: int|
        0 <= k < b.len() && k < c.len() && (forall|j: int| 0 <= j < k ==> b[j] == c[j]) && #[trigger] b[k]
            < c[k];
    let m = if i < k {
        i
    } else {
        k
    };
    assert(a[m] < c[m]);
}

pub proof fn lemma_hash_lt_irreflexive(a: Seq<u8>, b: Seq<u8>)
    requires
        hash_lt(a, b),
    ensures
        !hash_lt(b, a),
        a != b,
{
    let i = choose|i: int|
        0 <= i < a.len() && i < b.len() && (forall|j: int| 0 <= j < i ==> a[j] == b[j]) && #[trigger] a[i]
            < b[i];
    if hash_lt(b, a) {
        let k = choose|k: int|
            0 <= k < b.len() && k < a.len() && (forall|j: int| 0 <= j < k ==> b[j] == a[j]) && #[trigger] b[k]
                < a[k];
        if i < k {
            assert(b[i] == a[i]);
        } else if k < i {
            assert(a[k] == b[k]);
        }
    }
}

/// Compares two identifiers: negative, zero or positive as `a` sorts before,
/// equal to or after `b`.
pub fn compare_hash(a: &TxHash, b: &TxHash) -> (r: i8)
    ensures
        r < 0 <==> hash_lt(a@, b@),
        r == 0 <==> a@ == b@,
        r > 0 <==> hash_lt(b@, a@),
{
    let mut i: usize = 0;
    while i < 32
        invariant
            i <= 32,
            a@.len() == 32,
            b@.len() == 32,
            forall|j: int| 0 <= j < i ==> a@[j] == b@[j],
        decreases 32 - i,
    {
        if a[i] < b[i] {
            assert(a@[i as int] < b@[i as int]);
            proof {
                lemma_hash_lt_irreflexive(a@, b@);
            }
            return -1;
        }
        if a[i] > b[i] {
            assert(b@[i as int] < a@[i as int]);
            proof {
                lemma_hash_lt_irreflexive(b@, a@);
            }
            return 1;
        }
        i += 1;
    }
    assert(a@ =~= b@);
    assert(!hash_lt(a@, b@));
    0
}

/// True when the two identifiers are equal.
pub fn hash_eq(a: &TxHash, b: &TxHash) -> (r: bool)
    ensures
        r == (a@ == b@),
{
    compare_hash(a, b) == 0
}

} // verus!
