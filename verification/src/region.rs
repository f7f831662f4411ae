//! Ordered byte maps in numbered sub-regions of stable memory.
//!
//! A [`Region`] is one `StableBTreeMap` from byte keys to byte values. The
//! map lives in the stable-structures crate; what it holds is known here
//! only through [`region_contents`], and the functions of this module say
//! how each operation of the map changes that.

use ic_stable_structures::memory_manager::{MemoryId, MemoryManager, VirtualMemory};
use ic_stable_structures::{DefaultMemoryImpl, StableBTreeMap};
use vstd::prelude::*;

verus! {

/// The sub-regions.
pub const REGION_MEMORIES: u8 = 0;

pub const REGION_USER_MEMORIES: u8 = 1;

pub const REGION_CONVERSATIONS: u8 = 2;

pub const REGION_USER_CONVERSATIONS: u8 = 3;

pub const REGION_USER_CONFIG: u8 = 4;

pub const REGION_ACCESS_TOKENS: u8 = 5;

pub const REGION_VECTORS: u8 = 6;

pub const REGION_VECTOR_INDEX: u8 = 7;

/// The manager of the stable-structures crate over the default memory of
/// the host: a `MemoryManager`. Nothing of its inside is known here.
#[verifier::external_body]
pub struct ManagerHandle {
    inner: MemoryManager<DefaultMemoryImpl>,
}

/// The durable byte region, cut into numbered sub-regions. Every
/// sub-region is handed out once, so that no two maps share one. A process
/// has one manager.
pub struct RegionManager {
    handle: ManagerHandle,
    claimed: Vec<u8>,
}

/// One sub-region, holding an ordered map from byte keys to byte values: a
/// `StableBTreeMap` of the stable-structures crate. What it holds is known
/// only through [`region_contents`] and the functions below.
#[verifier::external_body]
pub struct Region {
    map: StableBTreeMap<Vec<u8>, Vec<u8>, VirtualMemory<DefaultMemoryImpl>>,
}

/// What the map of a sub-region holds.
pub uninterp spec fn region_contents(r: Region) -> Map<Seq<u8>, Seq<u8>>;

/// The bytes of one sub-region, with no map over them: a `VirtualMemory` of
/// the stable-structures crate.
#[verifier::external_body]
pub struct RegionMemory {
    inner: VirtualMemory<DefaultMemoryImpl>,
}

/// The map that is read from the bytes of a sub-region: the one that was
/// last written there, or the empty map where none was.
pub uninterp spec fn memory_contents(m: RegionMemory) -> Map<Seq<u8>, Seq<u8>>;

impl View for Region {
    type V = Map<Seq<u8>, Seq<u8>>;

    open spec fn view(&self) -> Map<Seq<u8>, Seq<u8>> {
        region_contents(*self)
    }
}

/// The most bytes of a key or of a value: the map writes their lengths in
/// 32 bits.
pub const MAX_ENTRY_BYTES: usize = 4_294_967_295;

/// A key and a value are short enough for the map.
pub open spec fn storable(key: Seq<u8>, value: Seq<u8>) -> bool {
    key.len() <= MAX_ENTRY_BYTES && value.len() <= MAX_ENTRY_BYTES
}

/// What a map holds after an attempt to store: the entry, if it is short
/// enough, and else what it held.
pub open spec fn put(m: Map<Seq<u8>, Seq<u8>>, key: Seq<u8>, value: Seq<u8>) -> Map<
    Seq<u8>,
    Seq<u8>,
> {
    if storable(key, value) {
        m.insert(key, value)
    } else {
        m
    }
}

/// The contents of a map without entries.
pub open spec fn no_entries() -> Map<Seq<u8>, Seq<u8>> {
    Map::empty()
}

/// `a` comes before `b` in byte order, or is `b`.
pub open spec fn bytes_le(a: Seq<u8>, b: Seq<u8>) -> bool
    decreases a.len(),
{
    if a.len() == 0 {
        true
    } else if b.len() == 0 {
        false
    } else if a[0] != b[0] {
        a[0] < b[0]
    } else {
        bytes_le(a.drop_first(), b.drop_first())
    }
}

/// The views of a list of entries.
pub open spec fn entries_view(v: Seq<(Vec<u8>, Vec<u8>)>) -> Seq<(Seq<u8>, Seq<u8>)> {
    v.map_values(|e: (Vec<u8>, Vec<u8>)| (e.0@, e.1@))
}

/// `entries` lists `m`: every entry is in `m`, every key of `m` has its
/// entry, and the keys strictly ascend in byte order.
pub open spec fn lists(entries: Seq<(Seq<u8>, Seq<u8>)>, m: Map<Seq<u8>, Seq<u8>>) -> bool {
    &&& forall|i: int|
        0 <= i < entries.len() ==> m.contains_key((#[trigger] entries[i]).0) && m[entries[i].0]
            == entries[i].1
    &&& forall|k: Seq<u8>|
        m.contains_key(k) ==> exists|i: int| 0 <= i < entries.len() && (#[trigger] entries[i]).0 == k
    &&& forall|i: int, j: int|
        0 <= i < j < entries.len() ==> bytes_le((#[trigger] entries[i]).0, (#[trigger] entries[j]).0)
            && entries[i].0 != entries[j].0
}

/// What reads of a listing: the values that `decode` accepts, in the order
/// of the listing.
pub open spec fn readable<T>(
    entries: Seq<(Seq<u8>, Seq<u8>)>,
    decode: spec_fn(Seq<u8>) -> Option<T>,
) -> Seq<T>
    decreases entries.len(),
{
    if entries.len() == 0 {
        Seq::empty()
    } else {
        let rest = readable(entries.drop_last(), decode);
        match decode(entries.last().1) {
            Some(x) => rest.push(x),
            None => rest,
        }
    }
}

/// Reading one entry more of a listing.
pub proof fn lemma_readable_step<T>(
    entries: Seq<(Seq<u8>, Seq<u8>)>,
    i: int,
    decode: spec_fn(Seq<u8>) -> Option<T>,
)
    requires
        0 <= i < entries.len(),
    ensures
        readable(entries.take(i + 1), decode) == match decode(entries[i].1) {
            Some(x) => readable(entries.take(i), decode).push(x),
            None => readable(entries.take(i), decode),
        },
{
    assert(entries.take(i + 1).drop_last() == entries.take(i));
    assert(entries.take(i + 1).last() == entries[i]);
}

/// A manager over the default memory of the host. Wraps
/// `MemoryManager::init` on `DefaultMemoryImpl::default()`.
#[verifier::external_body]
fn manager_create() -> (m: ManagerHandle) {
    ManagerHandle { inner: MemoryManager::init(DefaultMemoryImpl::default()) }
}

/// The bytes of sub-region `id`. Wraps `MemoryManager::get`. A sub-region
/// belongs to one map: [`RegionManager`] hands each id out once.
#[verifier::external_body]
fn manager_get(manager: &ManagerHandle, id: u8) -> (m: RegionMemory)
    requires
        id < 255,
{
    RegionMemory { inner: manager.inner.get(MemoryId::new(id)) }
}

/// A new, empty map over the bytes. Wraps `StableBTreeMap::new`, which
/// writes an empty map over whatever the bytes held.
#[verifier::external_body]
fn region_new(memory: RegionMemory) -> (r: Region)
    ensures
        region_contents(r) == no_entries(),
{
    Region { map: StableBTreeMap::new(memory.inner) }
}

/// The map that the bytes hold, or a new one if they hold none. Wraps
/// `StableBTreeMap::init`, which loads the map that was written to the
/// bytes.
#[verifier::external_body]
fn region_init(memory: RegionMemory) -> (r: Region)
    ensures
        region_contents(r) == memory_contents(memory),
{
    Region { map: StableBTreeMap::init(memory.inner) }
}

/// The bytes under a map, which the map gives up. Wraps
/// `StableBTreeMap::into_memory`. A map writes every change through to its
/// bytes, so they hold what the map held.
#[verifier::external_body]
fn region_into_memory(r: Region) -> (m: RegionMemory)
    ensures
        memory_contents(m) == region_contents(r),
{
    RegionMemory { inner: r.map.into_memory() }
}

/// The value stored under `key`. Wraps `BTreeMap::get`. The map reads the
/// lengths of its keys and values from 32 bits, so what it holds is short
/// enough to be stored again.
#[verifier::external_body]
pub(crate) fn region_get(r: &Region, key: &Vec<u8>) -> (v: Option<Vec<u8>>)
    ensures
        match v {
            Some(x) => region_contents(*r).contains_key(key@) && region_contents(*r)[key@] == x@,
            None => !region_contents(*r).contains_key(key@),
        },
        v is Some ==> storable(key@, v->0@),
{
    r.map.get(key)
}

/// Stores `value` under `key` and returns what was there. Wraps
/// `BTreeMap::insert`, which writes the lengths of the key and of the value
/// in 32 bits: longer ones are left out.
#[verifier::external_body]
fn region_insert(r: &mut Region, key: Vec<u8>, value: Vec<u8>) -> (prev: Option<Vec<u8>>)
    requires
        storable(key@, value@),
    ensures
        region_contents(*final(r)) == region_contents(*old(r)).insert(key@, value@),
        match prev {
            Some(x) => region_contents(*old(r)).contains_key(key@) && region_contents(
                *old(r),
            )[key@] == x@,
            None => !region_contents(*old(r)).contains_key(key@),
        },
{
    r.map.insert(key, value)
}

/// Removes `key` and returns what was there. Wraps `BTreeMap::remove`.
#[verifier::external_body]
pub(crate) fn region_remove(r: &mut Region, key: &Vec<u8>) -> (prev: Option<Vec<u8>>)
    ensures
        region_contents(*final(r)) == region_contents(*old(r)).remove(key@),
        match prev {
            Some(x) => region_contents(*old(r)).contains_key(key@) && region_contents(
                *old(r),
            )[key@] == x@,
            None => !region_contents(*old(r)).contains_key(key@),
        },
{
    r.map.remove(key)
}

/// The number of entries, which is none exactly for the map without
/// entries. Wraps `BTreeMap::len`.
#[verifier::external_body]
pub(crate) fn region_len(r: &Region) -> (n: u64)
    ensures
        n == region_contents(*r).dom().len(),
        (n == 0) == (region_contents(*r) == no_entries()),
{
    r.map.len()
}

/// The entries in ascending key order. Wraps `BTreeMap::iter`, which walks
/// the map in the order of its keys; byte strings are ordered
/// lexicographically. The map reads the lengths of its keys and values
/// from 32 bits, so what it holds is short enough to be stored again.
#[verifier::external_body]
pub(crate) fn region_entries(r: &Region) -> (entries: Vec<(Vec<u8>, Vec<u8>)>)
    ensures
        lists(entries_view(entries@), region_contents(*r)),
        forall|i: int|
            0 <= i < entries@.len() ==> storable((#[trigger] entries@[i]).0@, entries@[i].1@),
{
    r.map.iter().collect()
}

/// Stores `value` under `key` if both are short enough for the map, and
/// says whether it did.
pub(crate) fn region_put(r: &mut Region, key: Vec<u8>, value: Vec<u8>) -> (stored: bool)
    ensures
        stored == storable(key@, value@),
        final(r)@ == put(old(r)@, key@, value@),
{
    if key.len() <= MAX_ENTRY_BYTES && value.len() <= MAX_ENTRY_BYTES {
        region_insert(r, key, value);
        true
    } else {
        false
    }
}

impl RegionManager {
    /// The ids of the sub-regions that were handed out.
    pub closed spec fn claimed(&self) -> Seq<u8> {
        self.claimed@
    }

    /// Whether the sub-region is still to be had.
    pub open spec fn free(&self, id: u8) -> bool {
        id < 255 && !self.claimed().contains(id)
    }

    /// The manager of the durable region of the host, with every
    /// sub-region still to be had.
    pub fn new() -> (m: Self)
        ensures
            m.claimed().len() == 0,
    {
        RegionManager { handle: manager_create(), claimed: Vec::new() }
    }

    /// Whether the sub-region is still to be had.
    pub fn is_free(&self, id: u8) -> (r: bool)
        ensures
            r == self.free(id),
    {
        if id == 255 {
            return false;
        }
        let mut i: usize = 0;
        while i < self.claimed.len()
            invariant
                i <= self.claimed@.len(),
                forall|k: int| 0 <= k < i ==> self.claimed@[k] != id,
            decreases self.claimed@.len() - i,
        {
            if self.claimed[i] == id {
                return false;
            }
            i += 1;
        }
        true
    }

    /// Hands out sub-region `id` with a new, empty map.
    pub(crate) fn create(&mut self, id: u8) -> (r: Region)
        requires
            old(self).free(id),
        ensures
            r@ == no_entries(),
            final(self).claimed() == old(self).claimed().push(id),
    {
        self.claimed.push(id);
        region_new(manager_get(&self.handle, id))
    }

    /// Hands out sub-region `id` with the map that it holds, or a new one
    /// if it holds none.
    pub(crate) fn load(&mut self, id: u8) -> (r: Region)
        requires
            old(self).free(id),
        ensures
            final(self).claimed() == old(self).claimed().push(id),
    {
        self.claimed.push(id);
        region_init(manager_get(&self.handle, id))
    }
}

impl Region {
    /// The map read again from its bytes, as after a restart: it holds what
    /// it held.
    pub fn reopen(self) -> (r: Region)
        ensures
            r@ == self@,
    {
        region_init(region_into_memory(self))
    }
}

/// A sub-region that is free stays free when another is handed out.
pub proof fn lemma_free_after_claim(before: RegionManager, after: RegionManager, taken: u8, id: u8)
    requires
        after.claimed() == before.claimed().push(taken),
        before.free(id),
        id != taken,
    ensures
        after.free(id),
{
    let s = before.claimed();
    if s.push(taken).contains(id) {
        let j = choose|j: int| 0 <= j < s.push(taken).len() && s.push(taken)[j] == id;
        if j < s.len() {
            assert(s[j] == id);
        }
    }
}

} // verus!
