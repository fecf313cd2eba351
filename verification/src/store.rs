//! The data store: a string table and a table of hashes, both keyed by
//! byte strings.
//!
//! Keys are compared byte for byte. Each table keeps its entries in a vector
//! in which no key occurs twice; what a table holds is a finite map from keys
//! to values.

use vstd::prelude::*;
use vstd::slice::slice_to_vec;

verus! {

/// Whether two byte strings hold the same bytes.
pub fn same_bytes(a: &[u8], b: &[u8]) -> (r: bool)
    ensures
        r == (a@ == b@),
{
    if a.len() != b.len() {
        return false;
    }
    let mut i: usize = 0;
    while i < a.len()
        invariant
            i <= a.len(),
            a.len() == b.len(),
            forall|j: int| 0 <= j < i ==> a@[j] == b@[j],
        decreases a.len() - i,
    {
        if a[i] != b[i] {
            return false;
        }
        i += 1;
    }
    assert(a@ =~= b@);
    true
}

/// A finite map from byte-string keys to values of type `V`.
pub struct ByteMap<V> {
    keys: Vec<Vec<u8>>,
    vals: Vec<V>,
}

impl<V> ByteMap<V> {
    #[verifier::type_invariant]
    spec fn well_formed(self) -> bool {
        &&& self.keys.len() == self.vals.len()
        &&& forall|i: int, j: int|
            0 <= i < j < self.keys.len() ==> (#[trigger] self.keys[i])@ != (#[trigger] self.keys[j])@
    }

    /// The keys in the order in which the entries are kept.
    pub closed spec fn order(self) -> Seq<Seq<u8>> {
        Seq::new(self.keys.len() as nat, |i: int| self.keys[i]@)
    }

    /// The map that the entries make up.
    pub closed spec fn view(self) -> Map<Seq<u8>, V> {
        Map::new(
            |key: Seq<u8>| self.order().contains(key),
            |key: Seq<u8>| self.vals[self.order().index_of(key)],
        )
    }

    /// An empty map.
    pub fn new() -> (r: Self)
        ensures
            r@ == Map::<Seq<u8>, V>::empty(),
            r.order() == Seq::<Seq<u8>>::empty(),
    {
        let r = ByteMap { keys: Vec::new(), vals: Vec::new() };
        assert(r.order() =~= Seq::<Seq<u8>>::empty());
        assert(r@ =~= Map::<Seq<u8>, V>::empty());
        r
    }

    fn find(&self, key: &[u8]) -> (r: Option<usize>)
        ensures
            match r {
                Some(i) => i < self.keys.len() && self.keys[i as int]@ == key@,
                None => forall|i: int| 0 <= i < self.keys.len() ==> self.keys[i]@ != key@,
            },
    {
        let mut i: usize = 0;
        while i < self.keys.len()
            invariant
                i <= self.keys.len(),
                forall|j: int| 0 <= j < i ==> self.keys[j]@ != key@,
            decreases self.keys.len() - i,
        {
            if same_bytes(self.keys[i].as_slice(), key) {
                return Some(i);
            }
            i += 1;
        }
        None
    }

    /// The number of entries. The keys in their order are all different,
    /// and they are the keys of the map.
    pub fn len(&self) -> (n: usize)
        ensures
            n == self.order().len(),
            self.order().no_duplicates(),
            forall|key: Seq<u8>| self.order().contains(key) <==> self@.contains_key(key),
    {
        proof {
            use_type_invariant(self);
        }
        self.keys.len()
    }

    /// The entry at position `i` of the order.
    pub fn entry(&self, i: usize) -> (r: (&Vec<u8>, &V))
        requires
            i < self.order().len(),
        ensures
            r.0@ == self.order()[i as int],
            self@.contains_key(r.0@),
            self@[r.0@] == *r.1,
    {
        proof {
            use_type_invariant(self);
            assert(self.order()[i as int] == self.keys[i as int]@);
            let k = self.order().index_of(self.keys[i as int]@);
            assert(self.order()[k] == self.keys[k]@);
        }
        (&self.keys[i], &self.vals[i])
    }

    /// The value under `key`, if there is one.
    pub fn get(&self, key: &[u8]) -> (r: Option<&V>)
        ensures
            match r {
                Some(v) => self@.contains_key(key@) && self@[key@] == *v,
                None => !self@.contains_key(key@),
            },
    {
        proof {
            use_type_invariant(self);
        }
        match self.find(key) {
            Some(i) => {
                proof {
                    assert(self.order()[i as int] == key@);
                    let k = self.order().index_of(key@);
                    assert(self.order()[k] == self.keys[k]@);
                }
                Some(&self.vals[i])
            },
            None => {
                proof {
                    if self.order().contains(key@) {
                        let k = self.order().index_of(key@);
                        assert(self.order()[k] == self.keys[k]@);
                    }
                }
                None
            },
        }
    }

    /// Puts `value` under `key`, in place of what was there. A new key goes
    /// to the end of the order; a key that was there keeps its position.
    pub fn insert(&mut self, key: Vec<u8>, value: V)
        ensures
            final(self)@ == old(self)@.insert(key@, value),
            final(self).order() == if old(self)@.contains_key(key@) {
                old(self).order()
            } else {
                old(self).order().push(key@)
            },
    {
        proof {
            use_type_invariant(&*self);
        }
        let found = self.find(key.as_slice());
        let mut taken = ByteMap::new();
        core::mem::swap(self, &mut taken);
        let ghost before = taken;
        let ByteMap { mut keys, mut vals } = taken;
        match found {
            Some(i) => {
                vals.set(i, value);
                let after = ByteMap { keys, vals };
                proof {
                    assert(after.order() =~= before.order());
                    assert(before.order()[i as int] == key@);
                    assert forall|k: Seq<u8>| #[trigger] after@.contains_key(k) implies after@[k]
                        == before@.insert(key@, value)[k] by {
                        let j = after.order().index_of(k);
                        assert(after.order()[j] == after.keys[j]@);
                    }
                    assert(after@ =~= before@.insert(key@, value));
                }
                *self = after;
            },
            None => {
                keys.push(key);
                vals.push(value);
                let after = ByteMap { keys, vals };
                proof {
                    assert(after.order() =~= before.order().push(key@));
                    assert(!before.order().contains(key@)) by {
                        if before.order().contains(key@) {
                            let j = before.order().index_of(key@);
                            assert(before.order()[j] == before.keys[j]@);
                        }
                    }
                    assert(after.order()[before.keys.len() as int] == key@);
                    assert forall|k: Seq<u8>| after@.contains_key(k) <==> before@.insert(
                        key@,
                        value,
                    ).contains_key(k) by {
                        if before.order().contains(k) {
                            let j = before.order().index_of(k);
                            assert(after.order()[j] == k);
                        }
                        if after.order().contains(k) && k != key@ {
                            let j = after.order().index_of(k);
                            assert(before.order()[j] == k);
                        }
                    }
                    assert forall|k: Seq<u8>| #[trigger] after@.contains_key(k) implies after@[k]
                        == before@.insert(key@, value)[k] by {
                        let j = after.order().index_of(k);
                        assert(after.order()[j] == after.keys[j]@);
                        if k != key@ {
                            let j0 = before.order().index_of(k);
                            assert(before.order()[j] == k);
                            assert(before.order()[j0] == before.keys[j0]@);
                            assert(after.keys[j0]@ == after.keys[j]@);
                        } else {
                            assert(after.keys[before.keys.len() as int]@ == after.keys[j]@);
                        }
                    }
                    assert(after@ =~= before@.insert(key@, value));
                }
                *self = after;
            },
        }
    }

    /// Takes out the value under `key`, if there is one. The other keys
    /// keep their order.
    pub fn remove(&mut self, key: &[u8]) -> (r: Option<V>)
        ensures
            final(self)@ == old(self)@.remove(key@),
            final(self).order() == if old(self)@.contains_key(key@) {
                old(self).order().remove(old(self).order().index_of(key@))
            } else {
                old(self).order()
            },
            match r {
                Some(v) => old(self)@.contains_key(key@) && old(self)@[key@] == v,
                None => !old(self)@.contains_key(key@),
            },
    {
        proof {
            use_type_invariant(&*self);
        }
        let found = self.find(key);
        match found {
            Some(i) => {
                let mut taken = ByteMap::new();
                core::mem::swap(self, &mut taken);
                let ghost before = taken;
                let ByteMap { mut keys, mut vals } = taken;
                let _gone = keys.remove(i);
                let value = vals.remove(i);
                let after = ByteMap { keys, vals };
                proof {
                    assert(before.order()[i as int] == key@);
                    let bi = before.order().index_of(key@);
                    assert(before.order()[bi] == before.keys[bi]@);
                    assert(bi == i);
                    assert(after.order() =~= before.order().remove(i as int));
                    assert forall|a: int, b: int| 0 <= a < b < after.keys.len() implies (
                    #[trigger] after.keys[a])@ != (#[trigger] after.keys[b])@ by {
                        let a0 = if a < i { a } else { a + 1 };
                        let b0 = if b < i { b } else { b + 1 };
                        assert(after.keys[a] == before.keys[a0]);
                        assert(after.keys[b] == before.keys[b0]);
                    }
                    assert forall|k: Seq<u8>| after@.contains_key(k) <==> before@.remove(
                        key@,
                    ).contains_key(k) by {
                        if after.order().contains(k) {
                            let j = after.order().index_of(k);
                            let j0 = if j < i { j } else { j + 1 };
                            assert(before.order()[j0] == k);
                            assert(before.keys[j0]@ == k);
                        }
                        if before.order().contains(k) && k != key@ {
                            let j0 = before.order().index_of(k);
                            assert(before.order()[j0] == before.keys[j0]@);
                            let j = if j0 < i { j0 } else { j0 - 1 };
                            assert(after.order()[j] == k);
                        }
                    }
                    assert forall|k: Seq<u8>| #[trigger] after@.contains_key(k) implies after@[k]
                        == before@.remove(key@)[k] by {
                        let j = after.order().index_of(k);
                        assert(after.order()[j] == after.keys[j]@);
                        let j0 = if j < i { j } else { j + 1 };
                        assert(before.keys[j0]@ == k);
                        let j1 = before.order().index_of(k);
                        assert(before.order()[j0] == k);
                        assert(before.order()[j1] == before.keys[j1]@);
                    }
                    assert(after@ =~= before@.remove(key@));
                }
                *self = after;
                Some(value)
            },
            None => {
                proof {
                    if self.order().contains(key@) {
                        let k = self.order().index_of(key@);
                        assert(self.order()[k] == self.keys[k]@);
                    }
                    assert(self@ =~= self@.remove(key@));
                }
                None
            },
        }
    }
}

/// What a table of byte strings holds, with the values as byte sequences.
pub open spec fn table_view(table: ByteMap<Vec<u8>>) -> Map<Seq<u8>, Seq<u8>> {
    table@.map_values(|v: Vec<u8>| v@)
}

/// What the store holds: the string table, and for each hash key the
/// table of its fields. The two tables are separate name spaces.
pub struct StoreView {
    pub strings: Map<Seq<u8>, Seq<u8>>,
    pub hashes: Map<Seq<u8>, Map<Seq<u8>, Seq<u8>>>,
}

impl StoreView {
    /// The store that holds nothing.
    pub open spec fn empty() -> StoreView {
        StoreView { strings: Map::empty(), hashes: Map::empty() }
    }

    /// The store after `value` is written under `key` in the string table.
    pub open spec fn set(self, key: Seq<u8>, value: Seq<u8>) -> StoreView {
        StoreView { strings: self.strings.insert(key, value), hashes: self.hashes }
    }

    /// The fields of the hash under `key`; none where there is no such hash.
    pub open spec fn fields(self, key: Seq<u8>) -> Map<Seq<u8>, Seq<u8>> {
        if self.hashes.contains_key(key) {
            self.hashes[key]
        } else {
            Map::empty()
        }
    }

    /// The store after `value` is written under `field` of the hash under
    /// `key`; a hash that was not there comes into being.
    pub open spec fn hset(self, key: Seq<u8>, field: Seq<u8>, value: Seq<u8>) -> StoreView {
        StoreView {
            strings: self.strings,
            hashes: self.hashes.insert(key, self.fields(key).insert(field, value)),
        }
    }

    /// What is under `field` of the hash under `key`, if both exist.
    pub open spec fn hget(self, key: Seq<u8>, field: Seq<u8>) -> Option<Seq<u8>> {
        if self.hashes.contains_key(key) && self.hashes[key].contains_key(field) {
            Some(self.hashes[key][field])
        } else {
            None
        }
    }
}

/// The in-memory state that commands read and change.
pub struct Store {
    strings: ByteMap<Vec<u8>>,
    hashes: ByteMap<ByteMap<Vec<u8>>>,
}

impl View for Store {
    type V = StoreView;

    closed spec fn view(&self) -> StoreView {
        StoreView {
            strings: table_view(self.strings),
            hashes: self.hashes@.map_values(|t: ByteMap<Vec<u8>>| table_view(t)),
        }
    }
}

impl Store {
    /// A store that holds nothing.
    pub fn new() -> (r: Self)
        ensures
            r@ == StoreView::empty(),
    {
        let r = Store { strings: ByteMap::new(), hashes: ByteMap::new() };
        assert(r@.strings =~= Map::<Seq<u8>, Seq<u8>>::empty());
        assert(r@.hashes =~= Map::<Seq<u8>, Map<Seq<u8>, Seq<u8>>>::empty());
        r
    }

    /// Writes `value` under `key` in the string table; the last write wins.
    pub fn set(&mut self, key: &[u8], value: &[u8])
        ensures
            final(self)@ == old(self)@.set(key@, value@),
    {
        self.strings.insert(slice_to_vec(key), slice_to_vec(value));
        assert(self@.strings =~= old(self)@.strings.insert(key@, value@));
    }

    /// A copy of what is under `key` in the string table, if anything is.
    pub fn get(&self, key: &[u8]) -> (r: Option<Vec<u8>>)
        ensures
            match r {
                Some(v) => self@.strings.contains_key(key@) && self@.strings[key@] == v@,
                None => !self@.strings.contains_key(key@),
            },
    {
        match self.strings.get(key) {
            Some(v) => Some(slice_to_vec(v.as_slice())),
            None => None,
        }
    }

    /// Writes `value` under `field` of the hash under `key`, making the hash
    /// if it is not there.
    pub fn hset(&mut self, key: &[u8], field: &[u8], value: &[u8])
        ensures
            final(self)@ == old(self)@.hset(key@, field@, value@),
    {
        let ghost before = self.hashes@;
        let mut fields = match self.hashes.remove(key) {
            Some(t) => t,
            None => ByteMap::new(),
        };
        let ghost fields_before = table_view(fields);
        assert(fields_before =~= old(self)@.fields(key@));
        fields.insert(slice_to_vec(field), slice_to_vec(value));
        assert(table_view(fields) =~= fields_before.insert(field@, value@));
        self.hashes.insert(slice_to_vec(key), fields);
        assert(self@.hashes =~= old(self)@.hset(key@, field@, value@).hashes);
    }

    /// A copy of what is under `field` of the hash under `key`, if both
    /// exist.
    pub fn hget(&self, key: &[u8], field: &[u8]) -> (r: Option<Vec<u8>>)
        ensures
            match r {
                Some(v) => self@.hget(key@, field@) == Some(v@),
                None => self@.hget(key@, field@) is None,
            },
    {
        match self.hashes.get(key) {
            Some(fields) => match fields.get(field) {
                Some(v) => Some(slice_to_vec(v.as_slice())),
                None => None,
            },
            None => None,
        }
    }

    /// The table of the fields of the hash under `key`, if there is such a
    /// hash.
    pub fn fields(&self, key: &[u8]) -> (r: Option<&ByteMap<Vec<u8>>>)
        ensures
            match r {
                Some(t) => self@.hashes.contains_key(key@) && self@.hashes[key@] == table_view(*t),
                None => !self@.hashes.contains_key(key@),
            },
    {
        self.hashes.get(key)
    }
}

} // verus!
