use vstd::prelude::*;
use crate::digest::{sha1_digest, sha1_of};
use crate::error::VcsError;
use crate::hex::{bytes_to_hex, hex_of};
use crate::object::{encode_object, format_object, ObjectType};
use crate::table::{stored_after, ByteTable, TableEntry};

verus! {

/// A content-addressed store of encoded objects, keyed by their raw hash.
/// Objects are only ever added: writing a hash that is present changes
/// nothing.
pub struct ObjectStore {
    table: ByteTable,
}

impl ObjectStore {
    /// The store's internal table is well formed.
    pub closed spec fn wf(&self) -> bool {
        self.table.wf()
    }

    /// The stored objects, by raw hash.
    pub closed spec fn view(&self) -> Map<Seq<u8>, Seq<u8>> {
        self.table@
    }

    /// The number of stored objects.
    pub closed spec fn size(&self) -> nat {
        self.table.size()
    }

    /// An empty store.
    pub fn new() -> (r: ObjectStore)
        ensures
            r.wf(),
            r@ == Map::<Seq<u8>, Seq<u8>>::empty(),
    {
        ObjectStore { table: ByteTable::new() }
    }

    /// Whether an object is stored under `hash`.
    pub fn contains(&self, hash: &[u8]) -> (r: bool)
        requires
            self.wf(),
        ensures
            r == self@.contains_key(hash@),
    {
        self.table.contains(hash)
    }

    /// The encoded bytes stored under `hash`.
    pub fn get(&self, hash: &[u8]) -> (r: Result<Vec<u8>, VcsError>)
        requires
            self.wf(),
        ensures
            match r {
                Ok(d) => self@.contains_key(hash@) && d@ == self@[hash@],
                Err(e) => !self@.contains_key(hash@) && e == VcsError::ObjectNotFound,
            },
    {
        match self.table.get(hash) {
            Some(d) => Ok(d),
            None => Err(VcsError::ObjectNotFound),
        }
    }

    /// Stores `data` under `hash`, unless something is stored there already.
    pub fn put(&mut self, hash: &[u8], data: &[u8])
        requires
            old(self).wf(),
        ensures
            final(self).wf(),
            final(self)@ == stored_after(old(self)@, hash@, data@),
    {
        self.table.put_new(hash, data);
    }

    /// Stores already-encoded bytes under their SHA-1 hash and returns that
    /// hash.
    pub fn write_object(&mut self, data: &[u8]) -> (r: Vec<u8>)
        requires
            old(self).wf(),
        ensures
            final(self).wf(),
            r@ == sha1_of(data@),
            r@.len() == 20,
            final(self)@ == stored_after(old(self)@, sha1_of(data@), data@),
    {
        let h = sha1_digest(data);
        self.put(h.as_slice(), data);
        h
    }

    /// A store holds at least as many objects as any list of distinct
    /// hashes it holds.
    pub proof fn lemma_size_bound(&self, ks: Seq<Seq<u8>>)
        requires
            self.wf(),
            ks.no_duplicates(),
            forall|q: int| 0 <= q < ks.len() ==> self@.contains_key(#[trigger] ks[q]),
        ensures
            ks.len() <= self.size(),
    {
        self.table.lemma_size_bound(ks);
    }

    /// The number of stored objects.
    pub fn len(&self) -> (r: usize)
        ensures
            r == self.size(),
    {
        self.table.len()
    }

    /// The stored object at position `i`: its hash and its bytes.
    pub fn object_at(&self, i: usize) -> (r: &TableEntry)
        requires
            self.wf(),
            i < self.size(),
        ensures
            self@.contains_key(r.key@),
            self@[r.key@] == r.value@,
    {
        self.table.at(i)
    }
}

/// Writing the same bytes twice stores one object, and both writes name it
/// by the same hash.
pub proof fn lemma_write_idempotent(m: Map<Seq<u8>, Seq<u8>>, data: Seq<u8>)
    ensures
        stored_after(stored_after(m, sha1_of(data), data), sha1_of(data), data) == stored_after(
            m,
            sha1_of(data),
            data,
        ),
        stored_after(m, sha1_of(data), data).contains_key(sha1_of(data)),
{
}

/// Stores a file's contents as a blob and returns the hex text of its hash.
pub fn write_blob(store: &mut ObjectStore, content: &[u8]) -> (r: Vec<u8>)
    requires
        old(store).wf(),
    ensures
        final(store).wf(),
        r@ == hex_of(sha1_of(encode_object(ObjectType::Blob, content@))),
        r@.len() == 40,
        final(store)@ == stored_after(
            old(store)@,
            sha1_of(encode_object(ObjectType::Blob, content@)),
            encode_object(ObjectType::Blob, content@),
        ),
{
    let blob = format_object(ObjectType::Blob, content);
    let h = store.write_object(blob.as_slice());
    bytes_to_hex(h.as_slice())
}

/// The hex text of the SHA-1 hash of `data`.
pub fn hash_bytes(data: &[u8]) -> (r: Vec<u8>)
    ensures
        r@ == hex_of(sha1_of(data@)),
        r@.len() == 40,
{
    let h = sha1_digest(data);
    bytes_to_hex(h.as_slice())
}

} // verus!
