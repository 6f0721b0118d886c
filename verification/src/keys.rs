//! The order in which the index keeps its records: keys ascending as byte
//! strings, and within one key the newest version first.

use vstd::prelude::*;

verus! {

/// How one key stands to another.
#[derive(Debug, Clone, Copy, PartialEq, Eq, Structural)]
pub enum KeyOrder {
    Less,
    Equal,
    Greater,
}

/// Lexicographic order on byte strings: `a` sorts strictly before `b`.
pub open spec fn key_lt(a: Seq<u8>, b: Seq<u8>) -> bool
    decreases a.len(),
{
    if b.len() == 0 {
        false
    } else if a.len() == 0 {
        true
    } else if a[0] != b[0] {
        a[0] < b[0]
    } else {
        key_lt(a.drop_first(), b.drop_first())
    }
}

/// The index's order on versions: `(k1, s1)` comes strictly before
/// `(k2, s2)` if its key is smaller, or the keys agree and it is the newer
/// version.
pub open spec fn precedes(k1: Seq<u8>, s1: u64, k2: Seq<u8>, s2: u64) -> bool {
    key_lt(k1, k2) || (k1 == k2 && s1 > s2)
}

/// No key sorts before itself, nor two keys before each other.
pub proof fn lemma_key_lt_asymmetric(a: Seq<u8>, b: Seq<u8>)
    requires
        key_lt(a, b),
    ensures
        !key_lt(b, a),
        a != b,
    decreases a.len(),
{
    if a.len() > 0 && b.len() > 0 && a[0] == b[0] {
        lemma_key_lt_asymmetric(a.drop_first(), b.drop_first());
    }
}

/// The key order is transitive.
pub proof fn lemma_key_lt_transitive(a: Seq<u8>, b: Seq<u8>, c: Seq<u8>)
    requires
        key_lt(a, b),
        key_lt(b, c),
    ensures
        key_lt(a, c),
    decreases a.len(),
{
    if a.len() > 0 && b.len() > 0 && c.len() > 0 && a[0] == b[0] && b[0] == c[0] {
        lemma_key_lt_transitive(a.drop_first(), b.drop_first(), c.drop_first());
    }
}

/// Two different keys are ordered one way or the other.
pub proof fn lemma_key_lt_total(a: Seq<u8>, b: Seq<u8>)
    ensures
        a == b || key_lt(a, b) || key_lt(b, a),
    decreases a.len(),
{
    if a.len() > 0 && b.len() > 0 && a[0] == b[0] {
        lemma_key_lt_total(a.drop_first(), b.drop_first());
        if a.drop_first() == b.drop_first() {
            assert(a =~= seq![a[0]] + a.drop_first());
            assert(b =~= seq![b[0]] + b.drop_first());
        }
    } else if a.len() == 0 && b.len() == 0 {
        assert(a =~= b);
    }
}

/// No version comes before itself, nor two versions before each other.
pub proof fn lemma_precedes_asymmetric(k1: Seq<u8>, s1: u64, k2: Seq<u8>, s2: u64)
    requires
        precedes(k1, s1, k2, s2),
    ensures
        !precedes(k2, s2, k1, s1),
        !(k1 == k2 && s1 == s2),
{
    if key_lt(k1, k2) {
        lemma_key_lt_asymmetric(k1, k2);
    }
    if key_lt(k2, k1) {
        lemma_key_lt_asymmetric(k2, k1);
    }
}

/// The order on versions is transitive.
pub proof fn lemma_precedes_transitive(
    k1: Seq<u8>,
    s1: u64,
    k2: Seq<u8>,
    s2: u64,
    k3: Seq<u8>,
    s3: u64,
)
    requires
        precedes(k1, s1, k2, s2),
        precedes(k2, s2, k3, s3),
    ensures
        precedes(k1, s1, k3, s3),
{
    if key_lt(k1, k2) && key_lt(k2, k3) {
        lemma_key_lt_transitive(k1, k2, k3);
    }
}

/// Two different versions are ordered one way or the other.
pub proof fn lemma_precedes_total(k1: Seq<u8>, s1: u64, k2: Seq<u8>, s2: u64)
    ensures
        (k1 == k2 && s1 == s2) || precedes(k1, s1, k2, s2) || precedes(k2, s2, k1, s1),
{
    lemma_key_lt_total(k1, k2);
}

/// Compares two keys as byte strings.
pub fn key_order(a: &Vec<u8>, b: &Vec<u8>) -> (out: KeyOrder)
    ensures
        out == KeyOrder::Less <==> key_lt(a@, b@),
        out == KeyOrder::Equal <==> a@ == b@,
        out == KeyOrder::Greater <==> key_lt(b@, a@),
{
    let mut i: usize = 0;
    proof {
        assert(a@.skip(0) =~= a@);
        assert(b@.skip(0) =~= b@);
    }
    while i < a.len() && i < b.len()
        invariant
            i <= a.len(),
            i <= b.len(),
            key_lt(a@, b@) == key_lt(a@.skip(i as int), b@.skip(i as int)),
            key_lt(b@, a@) == key_lt(b@.skip(i as int), a@.skip(i as int)),
            (a@ == b@) == (a@.skip(i as int) == b@.skip(i as int)),
        decreases a.len() - i,
    {
        let ghost ra = a@.skip(i as int);
        let ghost rb = b@.skip(i as int);
        proof {
            assert(ra.drop_first() =~= a@.skip(i + 1));
            assert(rb.drop_first() =~= b@.skip(i + 1));
            assert(ra[0] == a@[i as int]);
            assert(rb[0] == b@[i as int]);
        }
        if a[i] < b[i] {
            return KeyOrder::Less;
        }
        if a[i] > b[i] {
            return KeyOrder::Greater;
        }
        proof {
            if ra.drop_first() == rb.drop_first() {
                assert(ra =~= seq![ra[0]] + ra.drop_first());
                assert(rb =~= seq![rb[0]] + rb.drop_first());
            }
        }
        i += 1;
    }
    let ghost ra = a@.skip(i as int);
    let ghost rb = b@.skip(i as int);
    if i < b.len() {
        assert(ra.len() == 0 && rb.len() > 0);
        KeyOrder::Less
    } else if i < a.len() {
        assert(rb.len() == 0 && ra.len() > 0);
        KeyOrder::Greater
    } else {
        assert(ra =~= rb);
        KeyOrder::Equal
    }
}

} // verus!
