use vstd::prelude::*;
use crate::bytes::{same_bytes, to_bytes};

verus! {

/// One entry of a table: a key and its value.
#[derive(Debug, Clone)]
pub struct TableEntry {
    pub key: Vec<u8>,
    pub value: Vec<u8>,
}

/// A finite map from byte strings to byte strings.
pub struct ByteTable {
    entries: Vec<TableEntry>,
}

/// What a table holds after putting `data` under `h` unless `h` is present:
/// the same where `h` is present, else `data` added under `h`.
pub open spec fn stored_after(m: Map<Seq<u8>, Seq<u8>>, h: Seq<u8>, data: Seq<u8>) -> Map<
    Seq<u8>,
    Seq<u8>,
> {
    if m.contains_key(h) {
        m
    } else {
        m.insert(h, data)
    }
}

impl ByteTable {
    /// No two entries share a key.
    pub closed spec fn wf(&self) -> bool {
        forall|i: int, j: int|
            0 <= i < self.entries@.len() && 0 <= j < self.entries@.len() && i != j
                ==> #[trigger] self.entries@[i].key@ != #[trigger] self.entries@[j].key@
    }

    pub closed spec fn has_at(&self, k: Seq<u8>, i: int) -> bool {
        0 <= i < self.entries@.len() && self.entries@[i].key@ == k
    }

    /// The table's contents.
    pub closed spec fn view(&self) -> Map<Seq<u8>, Seq<u8>> {
        Map::new(
            |k: Seq<u8>| exists|i: int| self.has_at(k, i),
            |k: Seq<u8>| self.entries@[choose|i: int| self.has_at(k, i)].value@,
        )
    }

    proof fn lemma_at(&self, k: Seq<u8>, i: int)
        requires
            self.wf(),
            self.has_at(k, i),
        ensures
            self@.contains_key(k),
            self@[k] == self.entries@[i].value@,
    {
        assert(exists|j: int| self.has_at(k, j));
        let c = choose|j: int| self.has_at(k, j);
        if c != i {
            assert(self.entries@[c].key@ != self.entries@[i].key@);
        }
    }

    /// An empty table.
    pub fn new() -> (r: ByteTable)
        ensures
            r.wf(),
            r@ == Map::<Seq<u8>, Seq<u8>>::empty(),
    {
        let r = ByteTable { entries: Vec::new() };
        assert(r@ =~= Map::<Seq<u8>, Seq<u8>>::empty());
        r
    }

    fn position(&self, key: &[u8]) -> (r: Option<usize>)
        ensures
            match r {
                Some(i) => self.has_at(key@, i as int),
                None => forall|i: int| !self.has_at(key@, i),
            },
    {
        let mut i: usize = 0;
        while i < self.entries.len()
            invariant
                i <= self.entries@.len(),
                forall|j: int| 0 <= j < i ==> !self.has_at(key@, j),
            decreases self.entries@.len() - i,
        {
            if same_bytes(self.entries[i].key.as_slice(), key) {
                return Some(i);
            }
            i = i + 1;
        }
        None
    }

    /// Whether `key` is present.
    pub fn contains(&self, key: &[u8]) -> (r: bool)
        requires
            self.wf(),
        ensures
            r == self@.contains_key(key@),
    {
        match self.position(key) {
            Some(i) => {
                proof {
                    self.lemma_at(key@, i as int);
                }
                true
            },
            None => false,
        }
    }

    /// The value under `key`.
    pub fn get(&self, key: &[u8]) -> (r: Option<Vec<u8>>)
        requires
            self.wf(),
        ensures
            match r {
                Some(d) => self@.contains_key(key@) && d@ == self@[key@],
                None => !self@.contains_key(key@),
            },
    {
        match self.position(key) {
            Some(i) => {
                proof {
                    self.lemma_at(key@, i as int);
                }
                Some(self.entries[i].value.clone())
            },
            None => None,
        }
    }

    /// Puts `data` under `key`, unless `key` is present.
    pub fn put_new(&mut self, key: &[u8], data: &[u8])
        requires
            old(self).wf(),
        ensures
            final(self).wf(),
            final(self)@ == stored_after(old(self)@, key@, data@),
    {
        match self.position(key) {
            Some(i) => {
                proof {
                    self.lemma_at(key@, i as int);
                }
            },
            None => {
                let ghost pre = *self;
                let obj = TableEntry { key: to_bytes(key), value: to_bytes(data) };
                self.entries.push(obj);
                proof {
                    let n = pre.entries@.len() as int;
                    assert(self.entries@[n].key@ == key@);
                    assert forall|i: int, j: int|
                        0 <= i < self.entries@.len() && 0 <= j < self.entries@.len() && i != j
                            implies #[trigger] self.entries@[i].key@
                        != #[trigger] self.entries@[j].key@ by {
                        if i == n {
                            assert(!pre.has_at(key@, j));
                        } else if j == n {
                            assert(!pre.has_at(key@, i));
                        } else {
                            assert(pre.entries@[i] == self.entries@[i]);
                            assert(pre.entries@[j] == self.entries@[j]);
                        }
                    }
                    let target = pre@.insert(key@, data@);
                    assert forall|k: Seq<u8>| #[trigger] self@.contains_key(k) <==> target.contains_key(k) by {
                        if self@.contains_key(k) {
                            let i = choose|i: int| self.has_at(k, i);
                            if i < n {
                                assert(pre.has_at(k, i));
                            }
                        }
                        if pre@.contains_key(k) {
                            let i = choose|i: int| pre.has_at(k, i);
                            assert(self.has_at(k, i));
                        }
                        if k == key@ {
                            assert(self.has_at(k, n));
                        }
                    }
                    assert forall|k: Seq<u8>| #[trigger] self@.contains_key(k) implies self@[k] == target[k] by {
                        if k == key@ {
                            self.lemma_at(k, n);
                        } else {
                            let i = choose|i: int| pre.has_at(k, i);
                            pre.lemma_at(k, i);
                            assert(self.has_at(k, i));
                            self.lemma_at(k, i);
                        }
                    }
                    assert(self@ =~= target);
                }
            },
        }
    }

    /// Puts `data` under `key`, replacing what was there.
    pub fn set(&mut self, key: &[u8], data: &[u8])
        requires
            old(self).wf(),
        ensures
            final(self).wf(),
            final(self)@ == old(self)@.insert(key@, data@),
    {
        match self.position(key) {
            Some(i) => {
                let ghost pre = *self;
                let e = TableEntry { key: to_bytes(key), value: to_bytes(data) };
                self.entries.set(i, e);
                proof {
                    assert forall|a: int, b: int|
                        0 <= a < self.entries@.len() && 0 <= b < self.entries@.len() && a != b
                            implies #[trigger] self.entries@[a].key@
                        != #[trigger] self.entries@[b].key@ by {
                        assert(pre.entries@[a].key@ == self.entries@[a].key@);
                        assert(pre.entries@[b].key@ == self.entries@[b].key@);
                    }
                    let target = pre@.insert(key@, data@);
                    assert forall|k: Seq<u8>| #[trigger] self@.contains_key(k) <==> target.contains_key(k) by {
                        if self@.contains_key(k) {
                            let j = choose|j: int| self.has_at(k, j);
                            assert(pre.has_at(k, j));
                        }
                        if pre@.contains_key(k) {
                            let j = choose|j: int| pre.has_at(k, j);
                            assert(self.has_at(k, j));
                        }
                        if k == key@ {
                            assert(self.has_at(k, i as int));
                        }
                    }
                    assert forall|k: Seq<u8>| #[trigger] self@.contains_key(k) implies self@[k] == target[k] by {
                        let j = choose|j: int| self.has_at(k, j);
                        self.lemma_at(k, j);
                        if k != key@ {
                            assert(pre.has_at(k, j));
                            pre.lemma_at(k, j);
                        } else {
                            if j != i as int {
                                assert(self.entries@[j].key@ != self.entries@[i as int].key@);
                            }
                        }
                    }
                    assert(self@ =~= target);
                }
            },
            None => {
                self.put_new(key, data);
            },
        }
    }

    /// The number of entries.
    pub closed spec fn size(&self) -> nat {
        self.entries@.len()
    }

    /// The number of entries.
    pub fn len(&self) -> (r: usize)
        ensures
            r == self.size(),
    {
        self.entries.len()
    }

    /// The entry at position `i`, for listing the table.
    pub fn at(&self, i: usize) -> (r: &TableEntry)
        requires
            self.wf(),
            i < self.size(),
        ensures
            self@.contains_key(r.key@),
            self@[r.key@] == r.value@,
            r.key@ == self.key_at(i as int),
    {
        proof {
            self.lemma_at(self.entries@[i as int].key@, i as int);
        }
        &self.entries[i]
    }

    /// A table holds at least as many entries as any list of distinct keys
    /// it contains.
    pub proof fn lemma_size_bound(&self, ks: Seq<Seq<u8>>)
        requires
            self.wf(),
            ks.no_duplicates(),
            forall|q: int| 0 <= q < ks.len() ==> self@.contains_key(#[trigger] ks[q]),
        ensures
            ks.len() <= self.size(),
    {
        let keys = self.entries@.map_values(|e: TableEntry| e.key@);
        keys.lemma_cardinality_of_set();
        ks.unique_seq_to_set();
        assert forall|x: Seq<u8>| ks.to_set().contains(x) implies keys.to_set().contains(x) by {
            let q = choose|q: int| 0 <= q < ks.len() && ks[q] == x;
            assert(self@.contains_key(ks[q]));
            let i = choose|i: int| self.has_at(x, i);
            assert(keys[i] == x);
        }
        vstd::seq_lib::seq_to_set_is_finite(keys);
        vstd::set_lib::lemma_len_subset(ks.to_set(), keys.to_set());
    }

    /// The key at position `i`.
    pub closed spec fn key_at(&self, i: int) -> Seq<u8> {
        self.entries@[i].key@
    }

    /// Every key stands at some position.
    pub proof fn lemma_key_position(&self, k: Seq<u8>)
        requires
            self@.contains_key(k),
        ensures
            exists|i: int| 0 <= i < self.size() && #[trigger] self.key_at(i) == k,
    {
        let i = choose|i: int| self.has_at(k, i);
        assert(self.key_at(i) == k);
    }
}

} // verus!
