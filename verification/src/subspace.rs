//! Subspaces: views of the store that keep their keys under a prefix.
//!
//! A subspace owns no data. It borrows the store, puts its prefix in front of
//! every key it is given, and hands the store's answers on untouched. Two
//! subspaces are apart as far as their prefixes are: with prefixes of which
//! neither starts with the other, they share no key.

use vstd::prelude::*;
use crate::codec::{
    copy_bytes, lemma_distinct_prefixes_distinct_keys, lemma_prefix_free_subspaces_disjoint,
    spec_decode, spec_encode, DecodeError, KeyCodec,
};
use crate::db::{lemma_write_leaves_other_keys, DBOps, DBView, EngineError, ReadStep, DB};
use crate::sst::file::writer::StoreError;

verus! {

/// A view of a store under a prefix. The empty prefix gives the store itself.
pub struct Subspace<'a> {
    pub db: &'a mut DB,
    pub prefix: Vec<u8>,
}

impl<'a> Subspace<'a> {
    /// The subspace of `db` under `prefix`.
    pub fn new(db: &'a mut DB, prefix: &[u8]) -> (sub: Subspace<'a>)
        ensures
            sub.prefix@ == prefix@,
            *sub.db == *old(db),
            *final(db) == *final(sub.db),
    {
        Subspace { db, prefix: copy_bytes(prefix) }
    }

    /// The key under which the store holds `user_key` for this subspace.
    pub fn encode_key(&self, user_key: &[u8]) -> (stored: Vec<u8>)
        ensures
            stored@ == spec_encode(self.prefix@, user_key@),
    {
        KeyCodec::encode(self.prefix.as_slice(), user_key)
    }

    /// The user key behind a key of the store. Fails with `PrefixMismatch`
    /// exactly when the key is not one of this subspace.
    pub fn decode_key(&self, stored: &[u8]) -> (r: Result<Vec<u8>, DecodeError>)
        ensures
            match r {
                Ok(user_key) => spec_decode(self.prefix@, stored@) == Some(user_key@),
                Err(e) => e == DecodeError::PrefixMismatch && spec_decode(self.prefix@, stored@)
                    is None,
            },
    {
        KeyCodec::decode(self.prefix.as_slice(), stored)
    }
}

impl<'a> DBOps for Subspace<'a> {
    open spec fn store(&self) -> DBView {
        (*self.db)@
    }

    open spec fn stored_key(&self, key: Seq<u8>) -> Seq<u8> {
        spec_encode(self.prefix@, key)
    }

    open spec fn ready(&self) -> bool {
        self.db.wf()
    }

    fn get(&self, key: &[u8]) -> (step: ReadStep) {
        let stored = self.encode_key(key);
        self.db.get(stored.as_slice())
    }

    fn resume_get(
        &self,
        key: &[u8],
        generation: u64,
        fetched: Result<Vec<u8>, StoreError>,
    ) -> (step: ReadStep) {
        let stored = self.encode_key(key);
        self.db.resume_get(stored.as_slice(), generation, fetched)
    }

    fn write(&mut self, key: &[u8], value: &[u8]) -> (r: Result<(), EngineError>)
        ensures
            final(self).prefix == old(self).prefix,
            *final(final(self).db) == *final(old(self).db),
    {
        let stored = self.encode_key(key);
        self.db.write(stored.as_slice(), value)
    }
}

/// Subspaces under different prefixes do not see each other's writes to
/// one user key: a write through one leaves what a read of the same user key
/// through the other comes to as it was.
pub proof fn lemma_subspaces_isolated(
    store: DBView,
    first: Seq<u8>,
    second: Seq<u8>,
    user_key: Seq<u8>,
    value: Option<Seq<u8>>,
)
    requires
        first != second,
    ensures
        store.after_put(spec_encode(first, user_key), value).read_start(
            spec_encode(second, user_key),
        ) == store.read_start(spec_encode(second, user_key)),
{
    lemma_distinct_prefixes_distinct_keys(first, second, user_key);
    lemma_write_leaves_other_keys(
        store,
        spec_encode(first, user_key),
        value,
        spec_encode(second, user_key),
    );
}

/// Subspaces whose prefixes do not start with one another share no key: a
/// write through one, to any user key, leaves every read through the other
/// as it was.
pub proof fn lemma_prefix_free_subspaces_isolated(
    store: DBView,
    first: Seq<u8>,
    second: Seq<u8>,
    written: Seq<u8>,
    read: Seq<u8>,
    value: Option<Seq<u8>>,
)
    requires
        !first.is_prefix_of(second),
        !second.is_prefix_of(first),
    ensures
        store.after_put(spec_encode(first, written), value).read_start(spec_encode(second, read))
            == store.read_start(spec_encode(second, read)),
{
    lemma_prefix_free_subspaces_disjoint(first, second, written, read);
    lemma_write_leaves_other_keys(
        store,
        spec_encode(first, written),
        value,
        spec_encode(second, read),
    );
}

} // verus!
