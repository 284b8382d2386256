//! Object stores: the contract every backend meets, and a verified
//! in-memory store.

use std::collections::HashMap;
use vstd::prelude::*;

use crate::hash::address_of;
use crate::opfs_cache::{listed, map_keys};

verus! {

broadcast use vstd::std_specs::hash::group_hash_axioms;

/// Why a store operation fails.
#[derive(Debug, Clone, PartialEq, Eq)]
pub enum StoreError {
    /// No object has this address.
    NotFound(crate::hash::Hash),
    /// The bytes stored under this address do not have it.
    Corrupt(crate::hash::Hash),
    /// The backend failed; the text says how.
    Backend(String),
}

/// The objects after writing `data`: stored under its address unless an
/// object is already stored there.
pub open spec fn stored_after_write(objs: Map<u64, Seq<u8>>, data: Seq<u8>) -> Map<u64, Seq<u8>> {
    if objs.contains_key(address_of(data)) {
        objs
    } else {
        objs.insert(address_of(data), data)
    }
}

/// The objects after writing each of `datas` in order.
pub open spec fn stored_after_writes(objs: Map<u64, Seq<u8>>, datas: Seq<Seq<u8>>) -> Map<
    u64,
    Seq<u8>,
>
    decreases datas.len(),
{
    if datas.len() == 0 {
        objs
    } else {
        stored_after_write(stored_after_writes(objs, datas.drop_last()), datas.last())
    }
}

/// Reading after a write gives the written bytes, unless other bytes were
/// stored under the same address before (an address collision).
pub proof fn lemma_read_after_write(objs: Map<u64, Seq<u8>>, data: Seq<u8>)
    requires
        objs.contains_key(address_of(data)) ==> objs[address_of(data)] == data,
    ensures
        stored_after_write(objs, data).contains_key(address_of(data)),
        stored_after_write(objs, data)[address_of(data)] == data,
{
}

/// Writing the same bytes twice stores them once: the second write
/// changes nothing.
pub proof fn lemma_write_idempotent(objs: Map<u64, Seq<u8>>, data: Seq<u8>)
    ensures
        stored_after_write(stored_after_write(objs, data), data) == stored_after_write(objs, data),
{
}

/// A content-addressed key-value store mapping hashes to object bytes.
///
/// Repository objects, including blobs, are stored as the canonical bytes
/// of [`crate::object::Object::to_bytes`]. `write` derives the hash from
/// the complete bytes, so identical objects are stored only once.
/// Implementations support enumerating and deleting objects so that
/// garbage collection can reclaim unreachable data.
pub trait ObjectStore: Sized {
    /// The objects that reads see, by address value. A store verified in
    /// this crate defines it; a store implemented elsewhere keeps this
    /// unspecified default, and the contracts below are then trusted of it.
    closed spec fn objects(&self) -> Map<u64, Seq<u8>> {
        vstd::pervasive::arbitrary()
    }

    /// Whether the store never fails: a read finds every stored object and
    /// writes, lists and deletes succeed. A store verified in this crate
    /// may define it; a store implemented elsewhere keeps this default,
    /// which promises nothing.
    closed spec fn infallible(&self) -> bool {
        false
    }

    /// Reads the bytes stored under `hash`; bytes whose address is not
    /// `hash` are rejected.
    fn read(&self, hash: crate::hash::Hash) -> (r: Result<Vec<u8>, StoreError>)
        ensures
            r matches Ok(v) ==> self.objects().contains_key(hash@) && v@ == self.objects()[hash@]
                && address_of(v@) == hash@,
            self.infallible() && self.objects().contains_key(hash@) ==> r is Ok,
    ;

    /// Stores `data` under its content hash and returns that hash. An
    /// object already stored under that address is kept.
    fn write(&mut self, data: &[u8]) -> (r: Result<crate::hash::Hash, StoreError>)
        ensures
            r matches Ok(h) ==> h@ == address_of(data@) && final(self).objects()
                == stored_after_write(old(self).objects(), data@),
            old(self).infallible() ==> r is Ok && final(self).infallible(),
    ;

    /// Lists all hashes currently stored, each once.
    fn list(&self) -> (r: Result<Vec<crate::hash::Hash>, StoreError>)
        ensures
            r matches Ok(v) ==> {
                &&& forall|i: int|
                    0 <= i < v@.len() ==> self.objects().contains_key(#[trigger] v@[i]@)
                &&& forall|k: u64| #[trigger] self.objects().contains_key(k) ==> listed(v@, k)
            },
            self.infallible() ==> r is Ok,
    ;

    /// Deletes the object stored under `hash`. Deleting a missing object
    /// is a no-op.
    fn delete(&mut self, hash: crate::hash::Hash) -> (r: Result<(), StoreError>)
        ensures
            r is Ok ==> final(self).objects() == old(self).objects().remove(hash@),
            old(self).infallible() ==> r is Ok && final(self).infallible(),
    ;

    /// Starts an object-write batch; reads see its writes at once. Stores
    /// without transactional batching keep this no-op.
    fn begin_batch(&mut self) -> (r: Result<(), StoreError>)
        ensures
            r is Ok ==> final(self).objects() == old(self).objects(),
        default_ensures
            r is Ok,
            *final(self) == *old(self),
    {
        Ok(())
    }

    /// Makes the current object-write batch durable.
    fn commit_batch(&mut self) -> (r: Result<(), StoreError>)
        ensures
            r is Ok ==> final(self).objects() == old(self).objects(),
        default_ensures
            r is Ok,
            *final(self) == *old(self),
    {
        Ok(())
    }

    /// Discards the current object-write batch. This is safe to call after
    /// an operation fails, including when no batch is active.
    fn rollback_batch(&mut self) -> (r: Result<(), StoreError>)
        default_ensures
            r is Ok,
            *final(self) == *old(self),
    {
        Ok(())
    }
}

/// A verified in-memory object store for tests, simulations and
/// backend-independent algorithm benchmarks.
pub struct MemoryStore {
    objects: HashMap<u64, Vec<u8>>,
}

impl MemoryStore {
    /// Every stored object has the address it is stored under.
    #[verifier::type_invariant]
    spec fn addressed(&self) -> bool {
        forall|k: u64| #[trigger]
            self.objects@.contains_key(k) ==> address_of(self.objects@[k]@) == k
    }

    /// The stored objects by address value.
    pub closed spec fn contents(&self) -> Map<u64, Seq<u8>> {
        self.objects@.map_values(|v: Vec<u8>| v@)
    }

    /// Creates an empty in-memory store.
    pub fn new() -> (s: Self)
        ensures
            s.contents() == Map::<u64, Seq<u8>>::empty(),
    {
        let s = MemoryStore { objects: HashMap::new() };
        assert(s.contents() =~= Map::<u64, Seq<u8>>::empty());
        s
    }
}

impl ObjectStore for MemoryStore {
    open spec fn objects(&self) -> Map<u64, Seq<u8>> {
        self.contents()
    }

    open spec fn infallible(&self) -> bool {
        true
    }

    fn read(&self, hash: crate::hash::Hash) -> (r: Result<Vec<u8>, StoreError>)
        ensures
            r is Ok <==> self.objects().contains_key(hash@),
            r is Err ==> r == Err::<Vec<u8>, StoreError>(StoreError::NotFound(hash)),
    {
        proof {
            use_type_invariant(self);
        }
        match self.objects.get(&hash.to_u64()) {
            Some(bytes) => {
                match hash.verify(bytes.as_slice()) {
                    Ok(()) => Ok(crate::codec::to_vec(bytes.as_slice())),
                    Err(_) => Err(StoreError::Corrupt(hash)),
                }
            },
            None => Err(StoreError::NotFound(hash)),
        }
    }

    fn write(&mut self, data: &[u8]) -> (r: Result<crate::hash::Hash, StoreError>)
        ensures
            r is Ok,
    {
        proof {
            use_type_invariant(&*self);
        }
        let hash = crate::hash::Hash::digest(data);
        let k = hash.to_u64();
        let ghost before = self.contents();
        let existing: Option<bool> = match self.objects.get(&k) {
            Some(bytes) => Some(hash.verify(bytes.as_slice()).is_ok()),
            None => None,
        };
        match existing {
            Some(true) => Ok(hash),
            Some(false) => Err(StoreError::Corrupt(hash)),
            None => {
                let mut objects: HashMap<u64, Vec<u8>> = HashMap::new();
                std::mem::swap(&mut objects, &mut self.objects);
                objects.insert(k, crate::codec::to_vec(data));
                self.objects = objects;
                proof {
                    assert(self.contents() =~= before.insert(k, data@));
                }
                Ok(hash)
            },
        }
    }

    fn list(&self) -> (r: Result<Vec<crate::hash::Hash>, StoreError>)
        ensures
            r is Ok,
            r matches Ok(v) ==> forall|i: int, j: int|
                0 <= i < j < v@.len() ==> #[trigger] v@[i]@ != #[trigger] v@[j]@,
    {
        let keys = map_keys(&self.objects);
        let mut out: Vec<crate::hash::Hash> = Vec::new();
        let mut i: usize = 0;
        while i < keys.len()
            invariant
                i <= keys@.len(),
                keys@.no_duplicates(),
                keys@.to_set() == self.objects@.dom(),
                out@.len() == i,
                forall|j: int| 0 <= j < i ==> (#[trigger] out@[j])@ == keys@[j],
            decreases keys@.len() - i,
        {
            out.push(crate::hash::Hash::from_u64(keys[i]));
            i = i + 1;
        }
        proof {
            assert forall|j: int| 0 <= j < out@.len() implies self.objects().contains_key(
                #[trigger] out@[j]@,
            ) by {
                assert(keys@.to_set().contains(keys@[j]));
            }
            assert forall|k: u64| #[trigger] self.objects().contains_key(k) implies listed(
                out@,
                k,
            ) by {
                assert(keys@.to_set().contains(k));
                let j = choose|j: int| 0 <= j < keys@.len() && keys@[j] == k;
                assert(out@[j]@ == k);
            }
        }
        Ok(out)
    }

    fn delete(&mut self, hash: crate::hash::Hash) -> (r: Result<(), StoreError>)
        ensures
            r is Ok,
    {
        proof {
            use_type_invariant(&*self);
        }
        let ghost before = self.contents();
        let mut objects: HashMap<u64, Vec<u8>> = HashMap::new();
        std::mem::swap(&mut objects, &mut self.objects);
        objects.remove(&hash.to_u64());
        self.objects = objects;
        proof {
            assert(self.contents() =~= before.remove(hash@));
        }
        Ok(())
    }
}

} // verus!
