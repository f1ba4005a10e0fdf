//! Key encoding for subspaces, and the byte order every other module sorts by.
//!
//! Keys are plain byte strings compared lexicographically. A subspace key is
//! the subspace prefix followed by the user key; nothing is escaped, so the
//! encoding keeps the order of user keys and can be undone by cutting the
//! prefix off again.

use vstd::prelude::*;

verus! {

/// `a` and `b` hold the same bytes at every position below `n`.
pub open spec fn agree_below(a: Seq<u8>, b: Seq<u8>, n: int) -> bool {
    forall|j: int| #![auto] 0 <= j < n ==> a[j] == b[j]
}

/// Position `i` decides that `a` sorts before `b`: the two agree below `i`,
/// and at `i` either `a` has ended while `b` goes on, or `a` holds the
/// smaller byte.
pub open spec fn less_at(a: Seq<u8>, b: Seq<u8>, i: int) -> bool {
    &&& 0 <= i <= a.len()
    &&& i < b.len()
    &&& agree_below(a, b, i)
    &&& (i == a.len() || a[i] < b[i])
}

/// Strict lexicographic order on byte strings.
pub open spec fn key_lt(a: Seq<u8>, b: Seq<u8>) -> bool {
    exists|i: int| less_at(a, b, i)
}

/// Lexicographic order on byte strings.
pub open spec fn key_le(a: Seq<u8>, b: Seq<u8>) -> bool {
    a == b || key_lt(a, b)
}

/// No key sorts before itself.
pub proof fn lemma_key_lt_irreflexive(a: Seq<u8>)
    ensures
        !key_lt(a, a),
{
    assert forall|i: int| !less_at(a, a, i) by {}
}

/// The order is transitive.
pub proof fn lemma_key_lt_transitive(a: Seq<u8>, b: Seq<u8>, c: Seq<u8>)
    requires
        key_lt(a, b),
        key_lt(b, c),
    ensures
        key_lt(a, c),
{
    let i = choose|i: int| less_at(a, b, i);
    let j = choose|j: int| less_at(b, c, j);
    if i <= j {
        assert(less_at(a, c, i));
    } else {
        assert(less_at(a, c, j));
    }
}

/// Two keys cannot each sort before the other.
pub proof fn lemma_key_lt_asymmetric(a: Seq<u8>, b: Seq<u8>)
    requires
        key_lt(a, b),
    ensures
        !key_lt(b, a),
        a != b,
{
    lemma_key_lt_irreflexive(a);
    if key_lt(b, a) {
        lemma_key_lt_transitive(a, b, a);
    }
}

proof fn lemma_key_trichotomy_from(a: Seq<u8>, b: Seq<u8>, n: int)
    requires
        0 <= n <= a.len(),
        n <= b.len(),
        agree_below(a, b, n),
    ensures
        a == b || key_lt(a, b) || key_lt(b, a),
    decreases a.len() - n,
{
    if n == a.len() && n == b.len() {
        assert(a =~= b);
    } else if n == a.len() {
        assert(less_at(a, b, n));
    } else if n == b.len() {
        assert(less_at(b, a, n));
    } else if a[n] < b[n] {
        assert(less_at(a, b, n));
    } else if b[n] < a[n] {
        assert(less_at(b, a, n));
    } else {
        lemma_key_trichotomy_from(a, b, n + 1);
    }
}

/// The order is total: two keys are equal, or one sorts before the other.
pub proof fn lemma_key_trichotomy(a: Seq<u8>, b: Seq<u8>)
    ensures
        a == b || key_lt(a, b) || key_lt(b, a),
{
    lemma_key_trichotomy_from(a, b, 0);
}

/// `key_le` is the complement of the reversed strict order.
pub proof fn lemma_key_le_iff_not_gt(a: Seq<u8>, b: Seq<u8>)
    ensures
        key_le(a, b) <==> !key_lt(b, a),
{
    lemma_key_trichotomy(a, b);
    lemma_key_lt_irreflexive(a);
    if key_lt(a, b) {
        lemma_key_lt_asymmetric(a, b);
    }
}

/// How one key stands to another in the byte order.
#[derive(Clone, Copy, Debug, PartialEq, Eq)]
pub enum KeyOrder {
    Less,
    Equal,
    Greater,
}

/// Compares two keys byte by byte.
pub fn key_order(a: &[u8], b: &[u8]) -> (r: KeyOrder)
    ensures
        r is Less <==> key_lt(a@, b@),
        r is Equal <==> a@ == b@,
        r is Greater <==> key_lt(b@, a@),
{
    let mut i: usize = 0;
    while i < a.len() && i < b.len()
        invariant
            i <= a.len(),
            i <= b.len(),
            agree_below(a@, b@, i as int),
        decreases a.len() - i,
    {
        if a[i] < b[i] {
            proof {
                assert(less_at(a@, b@, i as int));
                lemma_key_lt_asymmetric(a@, b@);
            }
            return KeyOrder::Less;
        }
        if a[i] > b[i] {
            proof {
                assert(less_at(b@, a@, i as int));
                lemma_key_lt_asymmetric(b@, a@);
            }
            return KeyOrder::Greater;
        }
        i = i + 1;
    }
    if a.len() == b.len() {
        proof {
            assert(a@ =~= b@);
            lemma_key_lt_irreflexive(a@);
        }
        KeyOrder::Equal
    } else if i == a.len() {
        proof {
            assert(less_at(a@, b@, i as int));
            lemma_key_lt_asymmetric(a@, b@);
        }
        KeyOrder::Less
    } else {
        proof {
            assert(less_at(b@, a@, i as int));
            lemma_key_lt_asymmetric(b@, a@);
        }
        KeyOrder::Greater
    }
}

/// Copies a byte string.
pub fn copy_bytes(bytes: &[u8]) -> (r: Vec<u8>)
    ensures
        r@ == bytes@,
{
    vstd::slice::slice_to_vec(bytes)
}

/// The key a subspace stores for a user key: the prefix, then the user key.
pub open spec fn spec_encode(prefix: Seq<u8>, user_key: Seq<u8>) -> Seq<u8> {
    prefix + user_key
}

/// The user key behind an encoded key, where the encoded key starts with the
/// prefix.
pub open spec fn spec_decode(prefix: Seq<u8>, encoded: Seq<u8>) -> Option<Seq<u8>> {
    if prefix.is_prefix_of(encoded) {
        Some(encoded.skip(prefix.len() as int))
    } else {
        None
    }
}

/// Why an encoded key could not be decoded.
#[derive(Clone, Copy, Debug, PartialEq, Eq)]
pub enum DecodeError {
    /// The encoded key does not start with the subspace prefix.
    PrefixMismatch,
}

/// Encodes and decodes subspace keys. It holds no state.
pub struct KeyCodec;

impl KeyCodec {
    /// Returns `prefix` followed by `user_key`.
    pub fn encode(prefix: &[u8], user_key: &[u8]) -> (encoded: Vec<u8>)
        ensures
            encoded@ == spec_encode(prefix@, user_key@),
    {
        let mut encoded = copy_bytes(prefix);
        encoded.extend_from_slice(user_key);
        assert(encoded@ =~= prefix@ + user_key@);
        encoded
    }

    /// Tells whether `encoded` starts with `prefix`.
    pub fn has_prefix(prefix: &[u8], encoded: &[u8]) -> (r: bool)
        ensures
            r <==> prefix@.is_prefix_of(encoded@),
    {
        if prefix.len() > encoded.len() {
            return false;
        }
        let mut i: usize = 0;
        while i < prefix.len()
            invariant
                i <= prefix.len(),
                prefix.len() <= encoded.len(),
                agree_below(prefix@, encoded@, i as int),
            decreases prefix.len() - i,
        {
            if prefix[i] != encoded[i] {
                proof {
                    let head = encoded@.subrange(0, prefix@.len() as int);
                    assert(head[i as int] == encoded@[i as int]);
                }
                return false;
            }
            i = i + 1;
        }
        assert(prefix@ =~= encoded@.subrange(0, prefix@.len() as int));
        true
    }

    /// Cuts `prefix` off the front of `encoded`. Fails with
    /// `PrefixMismatch` exactly when `encoded` does not start with `prefix`.
    pub fn decode(prefix: &[u8], encoded: &[u8]) -> (r: Result<Vec<u8>, DecodeError>)
        ensures
            match r {
                Ok(user_key) => spec_decode(prefix@, encoded@) == Some(user_key@),
                Err(e) => e == DecodeError::PrefixMismatch && spec_decode(prefix@, encoded@)
                    is None,
            },
    {
        if !Self::has_prefix(prefix, encoded) {
            return Err(DecodeError::PrefixMismatch);
        }
        let tail = vstd::slice::slice_subrange(encoded, prefix.len(), encoded.len());
        let user_key = copy_bytes(tail);
        assert(user_key@ =~= encoded@.skip(prefix@.len() as int));
        Ok(user_key)
    }
}

/// Decoding undoes encoding: the user key comes back unchanged.
pub proof fn lemma_decode_encode(prefix: Seq<u8>, user_key: Seq<u8>)
    ensures
        spec_decode(prefix, spec_encode(prefix, user_key)) == Some(user_key),
{
    let encoded = prefix + user_key;
    assert(prefix =~= encoded.subrange(0, prefix.len() as int));
    assert(encoded.skip(prefix.len() as int) =~= user_key);
}

/// Encoding undoes decoding: a key that decodes is the encoding of what it
/// decodes to, so the codec is a bijection between user keys and the keys
/// that start with the prefix.
pub proof fn lemma_encode_decode(prefix: Seq<u8>, encoded: Seq<u8>)
    requires
        spec_decode(prefix, encoded) is Some,
    ensures
        spec_encode(prefix, spec_decode(prefix, encoded)->0) == encoded,
{
    assert(prefix + encoded.skip(prefix.len() as int) =~= encoded);
}

/// Under one prefix, encoded keys are ordered as their user keys are.
pub proof fn lemma_encode_preserves_order(prefix: Seq<u8>, a: Seq<u8>, b: Seq<u8>)
    ensures
        key_lt(spec_encode(prefix, a), spec_encode(prefix, b)) <==> key_lt(a, b),
{
    let ea = prefix + a;
    let eb = prefix + b;
    let n = prefix.len() as int;
    if key_lt(a, b) {
        let i = choose|i: int| less_at(a, b, i);
        assert(less_at(ea, eb, n + i)) by {
            assert forall|j: int| 0 <= j < n + i implies ea[j] == eb[j] by {
                if j >= n {
                    assert(a[j - n] == b[j - n]);
                }
            }
        }
    }
    if key_lt(ea, eb) {
        let w = choose|w: int| less_at(ea, eb, w);
        if w < n {
            assert(ea[w] == prefix[w] && eb[w] == prefix[w]);
        }
        assert(less_at(a, b, w - n)) by {
            assert forall|j: int| 0 <= j < w - n implies a[j] == b[j] by {
                assert(ea[j + n] == eb[j + n]);
            }
            if w - n < a.len() {
                assert(ea[w] == a[w - n] && eb[w] == b[w - n]);
            }
        }
    }
}

/// Under one prefix, distinct user keys have distinct encodings.
pub proof fn lemma_encode_injective(prefix: Seq<u8>, a: Seq<u8>, b: Seq<u8>)
    requires
        spec_encode(prefix, a) == spec_encode(prefix, b),
    ensures
        a == b,
{
    lemma_decode_encode(prefix, a);
    lemma_decode_encode(prefix, b);
}

/// One user key under two different prefixes gives two different stored keys.
pub proof fn lemma_distinct_prefixes_distinct_keys(
    first: Seq<u8>,
    second: Seq<u8>,
    user_key: Seq<u8>,
)
    requires
        first != second,
    ensures
        spec_encode(first, user_key) != spec_encode(second, user_key),
{
    let stored_first = first + user_key;
    let stored_second = second + user_key;
    if stored_first == stored_second {
        assert(first.len() == second.len()) by {
            assert(stored_first.len() == first.len() + user_key.len());
            assert(stored_second.len() == second.len() + user_key.len());
        }
        assert(first =~= second) by {
            assert forall|j: int| 0 <= j < first.len() implies first[j] == second[j] by {
                assert(stored_first[j] == first[j] && stored_second[j] == second[j]);
            }
        }
    }
}

/// Where neither of two prefixes is a prefix of the other, no key of one
/// subspace is a key of the other, whatever the user keys are.
pub proof fn lemma_prefix_free_subspaces_disjoint(
    first: Seq<u8>,
    second: Seq<u8>,
    k1: Seq<u8>,
    k2: Seq<u8>,
)
    requires
        !first.is_prefix_of(second),
        !second.is_prefix_of(first),
    ensures
        spec_encode(first, k1) != spec_encode(second, k2),
{
    let stored_first = first + k1;
    let stored_second = second + k2;
    if stored_first == stored_second {
        if first.len() <= second.len() {
            assert(first =~= second.subrange(0, first.len() as int)) by {
                assert forall|j: int| 0 <= j < first.len() implies first[j] == second[j] by {
                    assert(stored_first[j] == first[j] && stored_second[j] == second[j]);
                }
            }
        } else {
            assert(second =~= first.subrange(0, second.len() as int)) by {
                assert forall|j: int| 0 <= j < second.len() implies second[j] == first[j] by {
                    assert(stored_first[j] == first[j] && stored_second[j] == second[j]);
                }
            }
        }
    }
}

} // verus!
