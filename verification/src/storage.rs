//! The entity store: memories, conversations, provider settings and access
//! tokens in their sub-regions, each with the index of what every user
//! owns.
//!
//! A row that does not read as its entity fails the read that asks for it
//! and is passed over by every walk.

use crate::codec::{texts_field, texts_of_field, write_text_field};
use crate::errors::{ErrorView, OpenMemoryError, Result};
use crate::ranking::{bytes_before, ranked, sort_ranked, Ranked};
use crate::records::{
    decode_ids, decode_memory, encode_ids, encode_memory, memory_of_record, memory_record,
};
use crate::region::{
    entries_view, lemma_free_after_claim, lemma_readable_step, lists, put, readable,
    region_entries, region_get, region_len, region_put, region_remove, storable, Region,
    RegionManager,
    REGION_ACCESS_TOKENS, REGION_CONVERSATIONS, REGION_MEMORIES, REGION_USER_CONFIG,
    REGION_USER_CONVERSATIONS, REGION_USER_MEMORIES,
};
use crate::seqs::{lemma_page_push, page};
use crate::suggestions::SuggestionsEngine;
use crate::text::str_to_string;
use crate::types::{strs, Memory, MemoryView, Principal};
use crate::vector_store::{
    corrupt, entry_fits, ids_contain, ids_without, index_with, key_of, too_large, vectors_with,
    without, AdvancedVectorStore,
};
use vstd::prelude::*;
use vstd::utf8::encode_utf8;

verus! {

/// The most items one listing returns.
pub const MAX_LISTING: usize = 100;

/// The entity store.
pub struct Store {
    pub memories: Region,
    pub user_memories: Region,
    pub conversations: Region,
    pub user_conversations: Region,
    pub user_config: Region,
    pub access_tokens: Region,
}

impl Ranked for Memory {
    open spec fn weight(&self) -> int {
        self.created_at as int
    }

    open spec fn tie(&self) -> Seq<u8> {
        encode_utf8(self.id@)
    }

    fn outranks(&self, other: &Self) -> (b: bool) {
        if self.created_at != other.created_at {
            self.created_at > other.created_at
        } else {
            bytes_before(self.id.as_str().as_bytes(), other.id.as_str().as_bytes())
        }
    }
}

/// The ids that `owner` owns according to an index: those of the record of
/// the owner, none where there is no record, and nothing where the record
/// does not read.
pub open spec fn owned(index: Map<Seq<u8>, Seq<u8>>, owner: Seq<u8>) -> Option<Seq<Seq<char>>> {
    if index.contains_key(owner) {
        texts_of_field(index[owner])
    } else {
        Some(Seq::empty())
    }
}

/// Every row that reads as an entity has an index that holds it: the row is
/// stored under the key of its id, and the ids of its owner hold the id.
pub open spec fn indexed(rows: Map<Seq<u8>, Seq<u8>>, index: Map<Seq<u8>, Seq<u8>>) -> bool {
    forall|k: Seq<u8>| #[trigger]
        rows.contains_key(k) ==> match memory_of_record(rows[k]) {
            Some(m) => key_of(m.id) == k && owned(index, m.user_id) is Some && owned(
                index,
                m.user_id,
            )->0.contains(m.id),
            None => true,
        }
}

/// An id, as the key by which it is told from other ids.
pub open spec fn the_id() -> spec_fn(Seq<char>) -> Seq<char> {
    |x: Seq<char>| x
}

/// Every list of ids that reads holds each of its ids once.
pub open spec fn ids_once(index: Map<Seq<u8>, Seq<u8>>) -> bool {
    forall|o: Seq<u8>| #[trigger]
        index.contains_key(o) ==> match texts_of_field(index[o]) {
            Some(ids) => crate::seqs::distinct_by(ids, the_id()),
            None => true,
        }
}

/// The index after `id` joins the ids of `owner`: their record is
/// rewritten with the id at its end, unless the id is there already, the
/// record does not read, or the new record is too long for the map.
pub open spec fn index_added(index: Map<Seq<u8>, Seq<u8>>, owner: Seq<u8>, id: Seq<char>) -> Map<
    Seq<u8>,
    Seq<u8>,
> {
    match owned(index, owner) {
        Some(ids) => if ids.contains(id) {
            index
        } else {
            put(index, owner, texts_field(ids.push(id)))
        },
        None => index,
    }
}

/// Why `id` cannot join the ids of `owner`, if it cannot.
pub open spec fn index_add_error(
    index: Map<Seq<u8>, Seq<u8>>,
    owner: Seq<u8>,
    id: Seq<char>,
    operation: Seq<char>,
) -> Option<ErrorView> {
    match owned(index, owner) {
        Some(ids) => if ids.contains(id) || storable(owner, texts_field(ids.push(id))) {
            None
        } else {
            Some(too_large(operation))
        },
        None => Some(corrupt(operation)),
    }
}

/// The index after `id` left the ids of `owner`: their record is rewritten
/// without the id, unless there is none or it does not read.
pub open spec fn index_without(index: Map<Seq<u8>, Seq<u8>>, owner: Seq<u8>, id: Seq<char>) -> Map<
    Seq<u8>,
    Seq<u8>,
> {
    match owned(index, owner) {
        Some(ids) => if index.contains_key(owner) {
            index.insert(owner, texts_field(without(ids, id)))
        } else {
            index
        },
        None => index,
    }
}

/// Enters `id` in the ids of `owner`, at their end, unless it is there
/// already.
pub fn index_add(index: &mut Region, owner: &Principal, id: &str, operation: &str) -> (r: Result<
    (),
>)
    ensures
        final(index)@ == index_added(old(index)@, owner@, id@),
        match r {
            Ok(_) => index_add_error(old(index)@, owner@, id@, operation@) is None,
            Err(e) => index_add_error(old(index)@, owner@, id@, operation@) == Some(e@),
        },
        r is Ok ==> owned(final(index)@, owner@) == Some(
            if owned(old(index)@, owner@)->0.contains(id@) {
                owned(old(index)@, owner@)->0
            } else {
                owned(old(index)@, owner@)->0.push(id@)
            },
        ) && final(index)@.remove(owner@) == old(index)@.remove(owner@),
        r is Err ==> final(index)@ == old(index)@,
        ids_once(old(index)@) ==> ids_once(final(index)@),
{
    let okey: Vec<u8> = owner.bytes.clone();
    let mut ids: Vec<String> = match region_get(index, &okey) {
        Some(bytes) => match decode_ids(bytes.as_slice()) {
            Some(ids) => ids,
            None => {
                return Err(OpenMemoryError::storage("Stored value is corrupt", operation));
            },
        },
        None => Vec::new(),
    };
    assert(strs(ids@) == owned(old(index)@, owner@)->0) by {
        if !old(index)@.contains_key(owner@) {
            assert(strs(ids@) =~= Seq::<Seq<char>>::empty());
        }
    }
    if !ids_contain(&ids, id) {
        let ghost before = ids@;
        ids.push(str_to_string(id));
        assert(strs(ids@) == strs(before).push(id@));
        let record: Vec<u8> = encode_ids(&ids);
        if !region_put(index, okey, record) {
            return Err(OpenMemoryError::storage("Entry too large", operation));
        }
        assert(index@.remove(owner@) =~= old(index)@.remove(owner@));
        proof {
            if ids_once(old(index)@) {
                let was = strs(before);
                let now_ids = strs(ids@);
                assert(crate::seqs::distinct_by(was, the_id())) by {
                    if old(index)@.contains_key(owner@) {
                        assert(texts_of_field(old(index)@[owner@]) == Some(was));
                    }
                }
                assert(crate::seqs::distinct_by(now_ids, the_id())) by {
                    assert forall|x: int, y: int| 0 <= x < y < now_ids.len() implies (the_id())(
                        #[trigger] now_ids[x],
                    ) != (the_id())(#[trigger] now_ids[y]) by {
                        assert(now_ids[x] == was[x]);
                        if y < was.len() {
                            assert(now_ids[y] == was[y]);
                            assert((the_id())(was[x]) != (the_id())(was[y]));
                        } else {
                            assert(was.contains(was[x]));
                        }
                    }
                }
                assert forall|o: Seq<u8>| #[trigger] index@.contains_key(o) implies match texts_of_field(
                    index@[o],
                ) {
                    Some(l) => crate::seqs::distinct_by(l, the_id()),
                    None => true,
                } by {
                    if o != owner@ {
                        assert(old(index)@.contains_key(o));
                    }
                }
            }
        }
    }
    Ok(())
}

/// Takes `id` out of the ids of `owner`.
pub fn index_remove(index: &mut Region, owner: &Principal, id: &str)
    ensures
        final(index)@ == index_without(old(index)@, owner@, id@),
        final(index)@.remove(owner@) == old(index)@.remove(owner@),
        final(index)@.contains_key(owner@) == old(index)@.contains_key(owner@),
        owned(final(index)@, owner@) == match owned(old(index)@, owner@) {
            Some(ids) => Some(without(ids, id@)),
            None => None,
        },
        ids_once(old(index)@) ==> ids_once(final(index)@),
{
    let okey: Vec<u8> = owner.bytes.clone();
    match region_get(index, &okey) {
        Some(bytes) => match decode_ids(bytes.as_slice()) {
            Some(ids) => {
                let kept: Vec<String> = ids_without(&ids, id);
                let record: Vec<u8> = encode_ids(&kept);
                proof {
                    crate::codec::lemma_texts_shrink(bytes@, |x: Seq<char>| x != id@);
                }
                region_put(index, okey, record);
                assert(index@.remove(owner@) =~= old(index)@.remove(owner@));
                proof {
                    if ids_once(old(index)@) {
                        assert(old(index)@.contains_key(owner@));
                        crate::seqs::lemma_distinct_filter(
                            strs(ids@),
                            the_id(),
                            |x: Seq<char>| x != id@,
                        );
                        assert forall|o: Seq<u8>| #[trigger]
                            index@.contains_key(o) implies match texts_of_field(index@[o]) {
                            Some(l) => crate::seqs::distinct_by(l, the_id()),
                            None => true,
                        } by {
                            if o != owner@ {
                                assert(old(index)@.contains_key(o));
                            }
                        }
                    }
                }
            },
            None => {},
        },
        None => {
            assert(without(Seq::<Seq<char>>::empty(), id@) =~= Seq::<Seq<char>>::empty()) by {
                reveal(Seq::filter);
            }
        },
    }
}

/// The ids of `owner`.
pub fn index_list(index: &Region, owner: &Principal, operation: &str) -> (r: Result<Vec<String>>)
    ensures
        match r {
            Ok(ids) => owned(index@, owner@) == Some(strs(ids@)),
            Err(e) => owned(index@, owner@) is None && e@ == corrupt(operation@),
        },
{
    let okey: Vec<u8> = owner.bytes.clone();
    match region_get(index, &okey) {
        Some(bytes) => match decode_ids(bytes.as_slice()) {
            Some(ids) => Ok(ids),
            None => Err(OpenMemoryError::storage("Stored value is corrupt", operation)),
        },
        None => {
            let ids: Vec<String> = Vec::new();
            assert(strs(ids@) =~= Seq::<Seq<char>>::empty());
            Ok(ids)
        },
    }
}

/// The views of a list of memories.
pub open spec fn memory_views(v: Seq<Memory>) -> Seq<MemoryView> {
    v.map_values(|m: Memory| m@)
}

/// Reads a record as a memory.
pub open spec fn memory_reader() -> spec_fn(Seq<u8>) -> Option<MemoryView> {
    |bytes: Seq<u8>| memory_of_record(bytes)
}

/// The memories that pass an owner filter: all without a filter, else those
/// of the owner.
pub open spec fn passes_owner(filter: Option<Seq<u8>>) -> spec_fn(MemoryView) -> bool {
    |m: MemoryView|
        match filter {
            Some(o) => m.user_id == o,
            None => true,
        }
}

/// The view of an optional principal.
pub open spec fn opt_principal(p: Option<&Principal>) -> Option<Seq<u8>> {
    match p {
        Some(x) => Some(x@),
        None => None,
    }
}

/// What `store_memory` writes for `memory`: the memory with the creation
/// time of the row it replaces, if that row reads, with `now` as the time
/// of its last change, and with the entries of its metadata in the byte
/// order of their keys.
pub open spec fn stored_form(rows: Map<Seq<u8>, Seq<u8>>, memory: MemoryView, now: u64) -> MemoryView {
    let k = key_of(memory.id);
    let created = if rows.contains_key(k) && memory_of_record(rows[k]) is Some {
        memory_of_record(rows[k])->0.created_at
    } else {
        memory.created_at
    };
    MemoryView {
        created_at: created,
        updated_at: now,
        metadata: crate::metadata::in_key_order(memory.metadata),
        ..memory
    }
}

impl Store {
    /// The memory stored under `id`, if there is one that reads.
    pub open spec fn memory(&self, id: Seq<char>) -> Option<MemoryView> {
        if self.memories@.contains_key(key_of(id)) {
            memory_of_record(self.memories@[key_of(id)])
        } else {
            None
        }
    }

    /// Every memory that reads is in the ids of its owner.
    pub open spec fn memories_indexed(&self) -> bool {
        indexed(self.memories@, self.user_memories@)
    }

    /// A new, empty store in the sub-regions of the manager, if they are
    /// all still to be had.
    pub fn new(manager: &mut RegionManager) -> (s: Option<Self>)
        ensures
            s is Some == store_regions_free(*old(manager)),
            s is None ==> *final(manager) == *old(manager),
            s matches Some(st) ==> st.memories@ == Map::<Seq<u8>, Seq<u8>>::empty()
                && st.user_memories@ == Map::<Seq<u8>, Seq<u8>>::empty() && st.conversations@
                == Map::<Seq<u8>, Seq<u8>>::empty() && st.user_conversations@ == Map::<
                Seq<u8>,
                Seq<u8>,
            >::empty() && st.user_config@ == Map::<Seq<u8>, Seq<u8>>::empty() && st.access_tokens@
                == Map::<Seq<u8>, Seq<u8>>::empty() && st.memories_indexed() && final(manager).claimed() == store_regions_claimed(old(manager).claimed()),
    {
        if !regions_free(manager) {
            return None;
        }
        let ghost m0 = *manager;
        let memories: Region = manager.create(REGION_MEMORIES);
        let ghost m1 = *manager;
        proof {
            lemma_free_after_claim(m0, m1, REGION_MEMORIES, REGION_USER_MEMORIES);
            lemma_free_after_claim(m0, m1, REGION_MEMORIES, REGION_CONVERSATIONS);
            lemma_free_after_claim(m0, m1, REGION_MEMORIES, REGION_USER_CONVERSATIONS);
            lemma_free_after_claim(m0, m1, REGION_MEMORIES, REGION_USER_CONFIG);
            lemma_free_after_claim(m0, m1, REGION_MEMORIES, REGION_ACCESS_TOKENS);
        }
        let user_memories: Region = manager.create(REGION_USER_MEMORIES);
        let ghost m2 = *manager;
        proof {
            lemma_free_after_claim(m1, m2, REGION_USER_MEMORIES, REGION_CONVERSATIONS);
            lemma_free_after_claim(m1, m2, REGION_USER_MEMORIES, REGION_USER_CONVERSATIONS);
            lemma_free_after_claim(m1, m2, REGION_USER_MEMORIES, REGION_USER_CONFIG);
            lemma_free_after_claim(m1, m2, REGION_USER_MEMORIES, REGION_ACCESS_TOKENS);
        }
        let conversations: Region = manager.create(REGION_CONVERSATIONS);
        let ghost m3 = *manager;
        proof {
            lemma_free_after_claim(m2, m3, REGION_CONVERSATIONS, REGION_USER_CONVERSATIONS);
            lemma_free_after_claim(m2, m3, REGION_CONVERSATIONS, REGION_USER_CONFIG);
            lemma_free_after_claim(m2, m3, REGION_CONVERSATIONS, REGION_ACCESS_TOKENS);
        }
        let user_conversations: Region = manager.create(REGION_USER_CONVERSATIONS);
        let ghost m4 = *manager;
        proof {
            lemma_free_after_claim(m3, m4, REGION_USER_CONVERSATIONS, REGION_USER_CONFIG);
            lemma_free_after_claim(m3, m4, REGION_USER_CONVERSATIONS, REGION_ACCESS_TOKENS);
        }
        let user_config: Region = manager.create(REGION_USER_CONFIG);
        proof {
            lemma_free_after_claim(m4, *manager, REGION_USER_CONFIG, REGION_ACCESS_TOKENS);
        }
        let access_tokens: Region = manager.create(REGION_ACCESS_TOKENS);
        Some(
            Store {
                memories,
                user_memories,
                conversations,
                user_conversations,
                user_config,
                access_tokens,
            },
        )
    }
}

impl Store {
    /// The store read again from its sub-regions, as after a restart: every
    /// map holds what it held.
    pub fn reopen(self) -> (s: Store)
        ensures
            s.memories@ == self.memories@,
            s.user_memories@ == self.user_memories@,
            s.conversations@ == self.conversations@,
            s.user_conversations@ == self.user_conversations@,
            s.user_config@ == self.user_config@,
            s.access_tokens@ == self.access_tokens@,
            self.memories_indexed() ==> s.memories_indexed(),
    {
        Store {
            memories: self.memories.reopen(),
            user_memories: self.user_memories.reopen(),
            conversations: self.conversations.reopen(),
            user_conversations: self.user_conversations.reopen(),
            user_config: self.user_config.reopen(),
            access_tokens: self.access_tokens.reopen(),
        }
    }
}

/// The sub-regions of the entity store are all still to be had.
pub open spec fn store_regions_free(manager: RegionManager) -> bool {
    &&& manager.free(REGION_MEMORIES)
    &&& manager.free(REGION_USER_MEMORIES)
    &&& manager.free(REGION_CONVERSATIONS)
    &&& manager.free(REGION_USER_CONVERSATIONS)
    &&& manager.free(REGION_USER_CONFIG)
    &&& manager.free(REGION_ACCESS_TOKENS)
}

/// What was handed out once the entity store has its sub-regions.
pub open spec fn store_regions_claimed(before: Seq<u8>) -> Seq<u8> {
    before.push(REGION_MEMORIES).push(REGION_USER_MEMORIES).push(REGION_CONVERSATIONS).push(
        REGION_USER_CONVERSATIONS,
    ).push(REGION_USER_CONFIG).push(REGION_ACCESS_TOKENS)
}

pub(crate) fn regions_free(manager: &RegionManager) -> (r: bool)
    ensures
        r == store_regions_free(*manager),
{
    manager.is_free(REGION_MEMORIES) && manager.is_free(REGION_USER_MEMORIES) && manager.is_free(
        REGION_CONVERSATIONS,
    ) && manager.is_free(REGION_USER_CONVERSATIONS) && manager.is_free(REGION_USER_CONFIG)
        && manager.is_free(REGION_ACCESS_TOKENS)
}

/// The store that the sub-regions of the manager hold, as after a restart,
/// if they are all still to be had. Sub-regions that hold nothing yet start
/// empty.
pub fn init_storage(manager: &mut RegionManager) -> (s: Option<Store>)
    ensures
        s is Some == store_regions_free(*old(manager)),
        s is None ==> *final(manager) == *old(manager),
        s is Some ==> final(manager).claimed() == store_regions_claimed(old(manager).claimed()),
{
    if !regions_free(manager) {
        return None;
    }
    let ghost m0 = *manager;
    let memories: Region = manager.load(REGION_MEMORIES);
    let ghost m1 = *manager;
    proof {
        lemma_free_after_claim(m0, m1, REGION_MEMORIES, REGION_USER_MEMORIES);
        lemma_free_after_claim(m0, m1, REGION_MEMORIES, REGION_CONVERSATIONS);
        lemma_free_after_claim(m0, m1, REGION_MEMORIES, REGION_USER_CONVERSATIONS);
        lemma_free_after_claim(m0, m1, REGION_MEMORIES, REGION_USER_CONFIG);
        lemma_free_after_claim(m0, m1, REGION_MEMORIES, REGION_ACCESS_TOKENS);
    }
    let user_memories: Region = manager.load(REGION_USER_MEMORIES);
    let ghost m2 = *manager;
    proof {
        lemma_free_after_claim(m1, m2, REGION_USER_MEMORIES, REGION_CONVERSATIONS);
        lemma_free_after_claim(m1, m2, REGION_USER_MEMORIES, REGION_USER_CONVERSATIONS);
        lemma_free_after_claim(m1, m2, REGION_USER_MEMORIES, REGION_USER_CONFIG);
        lemma_free_after_claim(m1, m2, REGION_USER_MEMORIES, REGION_ACCESS_TOKENS);
    }
    let conversations: Region = manager.load(REGION_CONVERSATIONS);
    let ghost m3 = *manager;
    proof {
        lemma_free_after_claim(m2, m3, REGION_CONVERSATIONS, REGION_USER_CONVERSATIONS);
        lemma_free_after_claim(m2, m3, REGION_CONVERSATIONS, REGION_USER_CONFIG);
        lemma_free_after_claim(m2, m3, REGION_CONVERSATIONS, REGION_ACCESS_TOKENS);
    }
    let user_conversations: Region = manager.load(REGION_USER_CONVERSATIONS);
    let ghost m4 = *manager;
    proof {
        lemma_free_after_claim(m3, m4, REGION_USER_CONVERSATIONS, REGION_USER_CONFIG);
        lemma_free_after_claim(m3, m4, REGION_USER_CONVERSATIONS, REGION_ACCESS_TOKENS);
    }
    let user_config: Region = manager.load(REGION_USER_CONFIG);
    proof {
        lemma_free_after_claim(m4, *manager, REGION_USER_CONFIG, REGION_ACCESS_TOKENS);
    }
    let access_tokens: Region = manager.load(REGION_ACCESS_TOKENS);
    Some(
        Store {
            memories,
            user_memories,
            conversations,
            user_conversations,
            user_config,
            access_tokens,
        },
    )
}

/// The memory stored under `id`.
pub fn get_memory(store: &Store, id: &str) -> (r: Result<Option<Memory>>)
    ensures
        match r {
            Ok(Some(m)) => store.memory(id@) == Some(m@),
            Ok(None) => !store.memories@.contains_key(key_of(id@)),
            Err(e) => store.memories@.contains_key(key_of(id@)) && store.memory(id@) is None && e@
                == corrupt("get_memory"@),
        },
{
    let key: Vec<u8> = write_text_field(id);
    match region_get(&store.memories, &key) {
        Some(bytes) => match decode_memory(bytes.as_slice()) {
            Some(m) => Ok(Some(m)),
            None => Err(OpenMemoryError::storage("Stored value is corrupt", "get_memory")),
        },
        None => Ok(None),
    }
}

/// The row of a memory is short enough for the map.
pub open spec fn row_fits(rows: Map<Seq<u8>, Seq<u8>>, memory: MemoryView, now: u64) -> bool {
    storable(key_of(memory.id), memory_record(stored_form(rows, memory, now)))
}

/// The rows after a memory was written.
pub open spec fn rows_with(rows: Map<Seq<u8>, Seq<u8>>, memory: MemoryView, now: u64) -> Map<
    Seq<u8>,
    Seq<u8>,
> {
    put(rows, key_of(memory.id), memory_record(stored_form(rows, memory, now)))
}

/// The ids of the owners after a memory was written: the memory joins the
/// ids of its owner if its row was written.
pub open spec fn index_with_row(
    rows: Map<Seq<u8>, Seq<u8>>,
    index: Map<Seq<u8>, Seq<u8>>,
    memory: MemoryView,
    now: u64,
) -> Map<Seq<u8>, Seq<u8>> {
    if row_fits(rows, memory, now) {
        index_added(index, memory.user_id, memory.id)
    } else {
        index
    }
}

/// Why a memory cannot be written and entered in the ids of its owner, if
/// it cannot: its row is too long for the map, or the ids of its owner do
/// not read or would grow too long.
pub open spec fn put_error(
    rows: Map<Seq<u8>, Seq<u8>>,
    index: Map<Seq<u8>, Seq<u8>>,
    memory: MemoryView,
    now: u64,
) -> Option<ErrorView> {
    if !row_fits(rows, memory, now) {
        Some(too_large("store_memory"@))
    } else {
        index_add_error(index, memory.user_id, memory.id, "store_memory"@)
    }
}

/// Writes the row of a memory. Says whether the row was short enough for
/// the map, and gives the memory in the form in which it is stored.
fn write_row(store: &mut Store, memory: Memory, now: u64) -> (out: (Memory, bool))
    ensures
        out.0@ == stored_form(old(store).memories@, memory@, now),
        out.1 == row_fits(old(store).memories@, memory@, now),
        final(store).memories@ == rows_with(old(store).memories@, memory@, now),
        out.1 ==> final(store).memory(memory.id@) == Some(out.0@),
        final(store).user_memories@ == old(store).user_memories@,
        final(store).conversations@ == old(store).conversations@,
        final(store).user_conversations@ == old(store).user_conversations@,
        final(store).user_config@ == old(store).user_config@,
        final(store).access_tokens@ == old(store).access_tokens@,
{
    let key: Vec<u8> = write_text_field(memory.id.as_str());
    let created: u64 = match region_get(&store.memories, &key) {
        Some(bytes) => match decode_memory(bytes.as_slice()) {
            Some(prev) => prev.created_at,
            None => memory.created_at,
        },
        None => memory.created_at,
    };
    let mut row: Memory = memory;
    row.created_at = created;
    row.updated_at = now;
    row.metadata = crate::metadata::order_pairs(&row.metadata);
    assert(row@ == stored_form(old(store).memories@, memory@, now));
    let record: Vec<u8> = encode_memory(&row);
    let stored: bool = region_put(&mut store.memories, key, record);
    (row, stored)
}

/// The ids after one joined them: it stands at their end unless it was
/// among them, and the earlier ids keep their places.
pub open spec fn joined_ids(ids: Seq<Seq<char>>, id: Seq<char>) -> Seq<Seq<char>> {
    if ids.contains(id) {
        ids
    } else {
        ids.push(id)
    }
}

/// An id is among the ids that it joined.
pub proof fn lemma_joined(ids: Seq<Seq<char>>, id: Seq<char>)
    ensures
        joined_ids(ids, id).contains(id),
{
    if !ids.contains(id) {
        assert(ids.push(id)[ids.len() as int] == id);
    }
}

/// A row was written and its memory entered in the ids of its owner: where
/// every memory was in the ids of its owner, every memory still is.
proof fn lemma_put_keeps_indexed(
    rows: Map<Seq<u8>, Seq<u8>>,
    old_index: Map<Seq<u8>, Seq<u8>>,
    index: Map<Seq<u8>, Seq<u8>>,
    row: MemoryView,
)
    requires
        indexed(rows, old_index),
        memory_of_record(memory_record(row)) == Some(row),
        owned(old_index, row.user_id) matches Some(ids) && owned(index, row.user_id) == Some(
            if ids.contains(row.id) {
                ids
            } else {
                ids.push(row.id)
            },
        ),
        index.remove(row.user_id) == old_index.remove(row.user_id),
    ensures
        indexed(rows.insert(key_of(row.id), memory_record(row)), index),
{
    let after = rows.insert(key_of(row.id), memory_record(row));
    assert forall|k: Seq<u8>| #[trigger] after.contains_key(k) implies match memory_of_record(
        after[k],
    ) {
        Some(m) => key_of(m.id) == k && owned(index, m.user_id) is Some && owned(
            index,
            m.user_id,
        )->0.contains(m.id),
        None => true,
    } by {
        if k == key_of(row.id) {
            let ids = owned(old_index, row.user_id)->0;
            assert(after[k] == memory_record(row));
            if !ids.contains(row.id) {
                assert(ids.push(row.id)[ids.len() as int] == row.id);
                assert(ids.push(row.id).contains(row.id));
            }
        } else {
            assert(rows.contains_key(k));
            assert(after[k] == rows[k]);
            match memory_of_record(after[k]) {
                Some(m) => {
                    if m.user_id == row.user_id {
                        let ids = owned(old_index, row.user_id)->0;
                        assert(ids.contains(m.id));
                        let j = choose|j: int| 0 <= j < ids.len() && ids[j] == m.id;
                        assert(ids.push(row.id)[j] == m.id);
                        assert(ids.push(row.id).contains(m.id));
                    } else {
                        assert(index.remove(row.user_id).contains_key(m.user_id)
                            == old_index.remove(row.user_id).contains_key(m.user_id));
                        assert(index.remove(row.user_id)[m.user_id] == old_index.remove(
                            row.user_id,
                        )[m.user_id]);
                        assert(index.remove(row.user_id).contains_key(m.user_id)
                            == index.contains_key(m.user_id));
                        assert(old_index.remove(row.user_id).contains_key(m.user_id)
                            == old_index.contains_key(m.user_id));
                        if index.contains_key(m.user_id) {
                            assert(index.remove(row.user_id)[m.user_id] == index[m.user_id]);
                            assert(old_index.remove(row.user_id)[m.user_id] == old_index[m.user_id]);
                        }
                    }
                },
                None => {},
            }
        }
    }
}

/// Writes the row of a memory and enters the memory in the ids of its
/// owner.
///
/// The row replaces any row of the same id, keeps the creation time of a
/// row that it replaces, and carries `now` as the time of its last change.
/// A row that is too long for the map is refused and nothing changes. If
/// the ids of the owner do not read, or would grow too long, the row stays
/// and the failure is reported.
pub fn put_memory(store: &mut Store, memory: Memory, now: u64) -> (out: (Memory, Result<()>))
    ensures
        out.0@ == stored_form(old(store).memories@, memory@, now),
        final(store).memories@ == rows_with(old(store).memories@, memory@, now),
        final(store).user_memories@ == index_with_row(
            old(store).memories@,
            old(store).user_memories@,
            memory@,
            now,
        ),
        match out.1 {
            Ok(_) => put_error(old(store).memories@, old(store).user_memories@, memory@, now)
                is None,
            Err(e) => put_error(old(store).memories@, old(store).user_memories@, memory@, now)
                == Some(e@),
        },
        out.1 is Ok ==> final(store).memory(memory.id@) == Some(out.0@),
        out.1 is Ok ==> owned(final(store).user_memories@, memory.user_id@) == Some(
            joined_ids(owned(old(store).user_memories@, memory.user_id@)->0, memory.id@),
        ) && joined_ids(
            owned(old(store).user_memories@, memory.user_id@)->0,
            memory.id@,
        ).contains(memory.id@),
        final(store).conversations@ == old(store).conversations@,
        final(store).user_conversations@ == old(store).user_conversations@,
        final(store).user_config@ == old(store).user_config@,
        final(store).access_tokens@ == old(store).access_tokens@,
        out.1 is Ok && old(store).memories_indexed() ==> final(store).memories_indexed(),
        ids_once(old(store).user_memories@) ==> ids_once(final(store).user_memories@),
{
    let (row, stored) = write_row(store, memory, now);
    if !stored {
        return (row, Err(OpenMemoryError::storage("Entry too large", "store_memory")));
    }
    let r = index_add(&mut store.user_memories, &row.user_id, row.id.as_str(), "store_memory");
    proof {
        if r is Ok {
            lemma_joined(owned(old(store).user_memories@, row.user_id@)->0, row.id@);
            if old(store).memories_indexed() {
                lemma_put_keeps_indexed(
                    old(store).memories@,
                    old(store).user_memories@,
                    store.user_memories@,
                    row@,
                );
            }
        }
    }
    (row, r)
}

/// The vector of a memory is to be stored: its row was written and it has
/// an embedding.
pub open spec fn vector_due(rows: Map<Seq<u8>, Seq<u8>>, memory: MemoryView, now: u64) -> bool {
    row_fits(rows, memory, now) && memory.embedding.len() > 0
}

/// Stores a memory: writes its row, adds its vector if it has an embedding,
/// enters it in the ids of its owner, and takes its tags and words into the
/// suggestions.
///
/// `norm` and `bucket` belong to the embedding and are computed by the
/// caller. A row that is too long for the map is refused and nothing
/// changes. A vector that the vector store does not take leaves the memory
/// stored and listed, only not found by vector search. Ids of the owner
/// that do not read, or would grow too long, are reported when all the rest
/// is done.
pub fn store_memory(
    store: &mut Store,
    vectors: &mut AdvancedVectorStore,
    suggestions: &mut SuggestionsEngine,
    memory: Memory,
    norm: u32,
    bucket: u64,
    now: u64,
) -> (r: Result<()>)
    ensures
        final(store).memories@ == rows_with(old(store).memories@, memory@, now),
        final(store).user_memories@ == index_with_row(
            old(store).memories@,
            old(store).user_memories@,
            memory@,
            now,
        ),
        match r {
            Ok(_) => put_error(old(store).memories@, old(store).user_memories@, memory@, now)
                is None,
            Err(e) => put_error(old(store).memories@, old(store).user_memories@, memory@, now)
                == Some(e@),
        },
        r is Ok ==> final(store).memory(memory.id@) == Some(
            stored_form(old(store).memories@, memory@, now),
        ),
        r is Ok ==> owned(final(store).user_memories@, memory.user_id@) == Some(
            joined_ids(owned(old(store).user_memories@, memory.user_id@)->0, memory.id@),
        ) && joined_ids(
            owned(old(store).user_memories@, memory.user_id@)->0,
            memory.id@,
        ).contains(memory.id@),
        final(store).conversations@ == old(store).conversations@,
        final(store).user_conversations@ == old(store).user_conversations@,
        final(store).user_config@ == old(store).user_config@,
        final(store).access_tokens@ == old(store).access_tokens@,
        r is Ok && old(store).memories_indexed() ==> final(store).memories_indexed(),
        ids_once(old(store).user_memories@) ==> ids_once(final(store).user_memories@),
        final(vectors).config == old(vectors).config,
        final(vectors).vectors@ == if vector_due(old(store).memories@, memory@, now) {
            vectors_with(
                old(vectors).vectors@,
                old(vectors).config.dimension,
                memory.id@,
                memory.embedding@,
                norm,
                now,
            )
        } else {
            old(vectors).vectors@
        },
        final(vectors).index@ == if vector_due(old(store).memories@, memory@, now)
            && memory.embedding@.len() == old(vectors).config.dimension && entry_fits(
            memory.id@,
            memory.embedding@,
            norm,
            now,
        ) {
            index_with(old(vectors).index@, bucket, memory.id@)
        } else {
            old(vectors).index@
        },
        old(vectors).dimensions_hold() ==> final(vectors).dimensions_hold(),
        backed(old(vectors).vectors@, old(store).memories@) ==> backed(
            final(vectors).vectors@,
            final(store).memories@,
        ),
        if row_fits(old(store).memories@, memory@, now) {
            final(suggestions).took_in(*old(suggestions), memory@.tags, memory.content@)
        } else {
            *final(suggestions) == *old(suggestions)
        },
        old(suggestions).wf() ==> final(suggestions).wf(),
{
    let ghost mv = memory@;
    let (row, stored) = write_row(store, memory, now);
    if !stored {
        return Err(OpenMemoryError::storage("Entry too large", "store_memory"));
    }
    if row.embedding.len() > 0 {
        match vectors.add_vector(row.id.clone(), row.embedding.clone(), norm, bucket, now) {
            Ok(_) => {},
            Err(_) => {},
        }
    }
    let indexed = index_add(&mut store.user_memories, &row.user_id, row.id.as_str(), "store_memory");
    suggestions.index_memory_content(&row);
    proof {
        if indexed is Ok {
            lemma_joined(owned(old(store).user_memories@, row.user_id@)->0, row.id@);
            if old(store).memories_indexed() {
                lemma_put_keeps_indexed(
                    old(store).memories@,
                    old(store).user_memories@,
                    store.user_memories@,
                    row@,
                );
            }
        }
        assert forall|k: Seq<u8>| #[trigger]
            vectors.vectors@.contains_key(k) && backed(
                old(vectors).vectors@,
                old(store).memories@,
            ) implies store.memories@.contains_key(k) by {
            if k != key_of(mv.id) {
                assert(old(vectors).vectors@.contains_key(k));
            }
        }
    }
    indexed
}

/// Every stored vector belongs to a stored memory.
pub open spec fn backed(vectors: Map<Seq<u8>, Seq<u8>>, rows: Map<Seq<u8>, Seq<u8>>) -> bool {
    forall|k: Seq<u8>| #[trigger] vectors.contains_key(k) ==> rows.contains_key(k)
}

/// What the vector store keeps of a memory beside its embedding.
pub struct DerivedVector {
    pub id: String,
    pub norm: u32,
    pub bucket: u64,
}

/// The memory under `id` reads and has an embedding of `dimension`
/// numbers, not none.
pub open spec fn embeddable(store: Store, dimension: usize, id: Seq<char>) -> bool {
    store.memory(id) matches Some(m) && m.embedding.len() > 0 && m.embedding.len() == dimension
}

/// Brings the vector store up to the entity store: every listed memory
/// that reads and has an embedding of the store's dimension gets its
/// vector entry, with the norm and the bucket listed for it, unless the
/// entry is too long for the map. Other ids are passed over, and no entry
/// leaves. Returns the number of memories whose vector was due.
pub fn rebuild_vectors(
    store: &Store,
    vectors: &mut AdvancedVectorStore,
    derived: &Vec<DerivedVector>,
    now: u64,
) -> (n: usize)
    ensures
        final(vectors).config == old(vectors).config,
        old(vectors).dimensions_hold() ==> final(vectors).dimensions_hold(),
        backed(old(vectors).vectors@, store.memories@) ==> backed(
            final(vectors).vectors@,
            store.memories@,
        ),
        forall|k: Seq<u8>| #[trigger]
            old(vectors).vectors@.contains_key(k) ==> final(vectors).vectors@.contains_key(k),
        forall|i: int|
            0 <= i < derived@.len() && embeddable(
                *store,
                old(vectors).config.dimension,
                (#[trigger] derived@[i]).id@,
            ) && vector_fits(*store, derived@[i], now) ==> rebuilt(
                *store,
                *final(vectors),
                derived@[i].id@,
            ),
        forall|k: Seq<u8>| #[trigger]
            final(vectors).vectors@.contains_key(k) && !old(vectors).vectors@.contains_key(k)
                ==> exists|i: int|
                0 <= i < derived@.len() && k == key_of((#[trigger] derived@[i]).id@) && embeddable(
                    *store,
                    old(vectors).config.dimension,
                    derived@[i].id@,
                ),
        n <= derived@.len(),
{
    let mut n: usize = 0;
    let mut i: usize = 0;
    let dimension: usize = vectors.get_config().dimension;
    while i < derived.len()
        invariant
            i <= derived@.len(),
            n <= i,
            dimension == old(vectors).config.dimension,
            vectors.config == old(vectors).config,
            old(vectors).dimensions_hold() ==> vectors.dimensions_hold(),
            backed(old(vectors).vectors@, store.memories@) ==> backed(
                vectors.vectors@,
                store.memories@,
            ),
            forall|k: Seq<u8>| #[trigger]
                old(vectors).vectors@.contains_key(k) ==> vectors.vectors@.contains_key(k),
            forall|j: int|
                0 <= j < i && embeddable(*store, dimension, (#[trigger] derived@[j]).id@)
                    && vector_fits(*store, derived@[j], now) ==> rebuilt(
                    *store,
                    *vectors,
                    derived@[j].id@,
                ),
            forall|k: Seq<u8>| #[trigger]
                vectors.vectors@.contains_key(k) && !old(vectors).vectors@.contains_key(k)
                    ==> exists|j: int|
                    0 <= j < i && k == key_of((#[trigger] derived@[j]).id@) && embeddable(
                        *store,
                        dimension,
                        derived@[j].id@,
                    ),
        decreases derived@.len() - i,
    {
        let item = &derived[i];
        let ghost before = *vectors;
        let ghost idv = item.id@;
        match get_memory(store, item.id.as_str()) {
            Ok(Some(m)) => {
                if m.embedding.len() > 0 && m.embedding.len() == dimension {
                    let ghost embedding = m.embedding@;
                    let _ = vectors.add_vector(
                        str_to_string(item.id.as_str()),
                        m.embedding,
                        item.norm,
                        item.bucket,
                        now,
                    );
                    n += 1;
                    proof {
                        assert(vector_fits(*store, derived@[i as int], now) ==> rebuilt(
                            *store,
                            *vectors,
                            idv,
                        ));
                        assert forall|j: int|
                            0 <= j < i && embeddable(
                                *store,
                                dimension,
                                (#[trigger] derived@[j]).id@,
                            ) && vector_fits(*store, derived@[j], now) implies rebuilt(
                            *store,
                            *vectors,
                            derived@[j].id@,
                        ) by {
                            assert(rebuilt(*store, before, derived@[j].id@));
                            if key_of(derived@[j].id@) != key_of(idv) {
                                assert(vectors.vectors@[key_of(derived@[j].id@)]
                                    == before.vectors@[key_of(derived@[j].id@)]);
                            }
                        }
                        assert forall|k: Seq<u8>| #[trigger]
                            vectors.vectors@.contains_key(k) && !old(vectors).vectors@.contains_key(
                                k,
                            ) implies exists|j: int|
                            0 <= j < i + 1 && k == key_of((#[trigger] derived@[j]).id@)
                                && embeddable(*store, dimension, derived@[j].id@) by {
                            if k == key_of(idv) {
                                assert(derived@[i as int].id@ == idv);
                            } else {
                                assert(before.vectors@.contains_key(k));
                            }
                        }
                    }
                }
            },
            _ => {},
        }
        i += 1;
    }
    n
}

/// The entry of the vector of a listed memory is short enough for the map.
pub open spec fn vector_fits(store: Store, item: DerivedVector, now: u64) -> bool {
    store.memory(item.id@) matches Some(m) && entry_fits(item.id@, m.embedding, item.norm, now)
}

/// The vector store holds, for the memory under `id`, its embedding.
pub open spec fn rebuilt(store: Store, vectors: AdvancedVectorStore, id: Seq<char>) -> bool {
    store.memory(id) matches Some(m) && vectors.entry(id) matches Some(e) && e.vector
        == m.embedding
}

/// Stores a memory without a vector: writes its row, enters it in the ids
/// of its owner, and takes its tags and words into the suggestions. A row
/// that is too long for the map is refused and nothing changes.
pub fn store_memory_sync(
    store: &mut Store,
    suggestions: &mut SuggestionsEngine,
    memory: Memory,
    now: u64,
) -> (r: Result<()>)
    ensures
        final(store).memories@ == rows_with(old(store).memories@, memory@, now),
        final(store).user_memories@ == index_with_row(
            old(store).memories@,
            old(store).user_memories@,
            memory@,
            now,
        ),
        match r {
            Ok(_) => put_error(old(store).memories@, old(store).user_memories@, memory@, now)
                is None,
            Err(e) => put_error(old(store).memories@, old(store).user_memories@, memory@, now)
                == Some(e@),
        },
        r is Ok ==> final(store).memory(memory.id@) == Some(
            stored_form(old(store).memories@, memory@, now),
        ),
        r is Ok ==> owned(final(store).user_memories@, memory.user_id@) == Some(
            joined_ids(owned(old(store).user_memories@, memory.user_id@)->0, memory.id@),
        ) && joined_ids(
            owned(old(store).user_memories@, memory.user_id@)->0,
            memory.id@,
        ).contains(memory.id@),
        final(store).conversations@ == old(store).conversations@,
        final(store).user_conversations@ == old(store).user_conversations@,
        final(store).user_config@ == old(store).user_config@,
        final(store).access_tokens@ == old(store).access_tokens@,
        r is Ok && old(store).memories_indexed() ==> final(store).memories_indexed(),
        ids_once(old(store).user_memories@) ==> ids_once(final(store).user_memories@),
        if row_fits(old(store).memories@, memory@, now) {
            final(suggestions).took_in(*old(suggestions), memory@.tags, memory.content@)
        } else {
            *final(suggestions) == *old(suggestions)
        },
        old(suggestions).wf() ==> final(suggestions).wf(),
{
    let (row, stored) = write_row(store, memory, now);
    if !stored {
        return Err(OpenMemoryError::storage("Entry too large", "store_memory"));
    }
    let indexed = index_add(&mut store.user_memories, &row.user_id, row.id.as_str(), "store_memory");
    suggestions.index_memory_content(&row);
    proof {
        if indexed is Ok {
            lemma_joined(owned(old(store).user_memories@, row.user_id@)->0, row.id@);
            if old(store).memories_indexed() {
                lemma_put_keeps_indexed(
                    old(store).memories@,
                    old(store).user_memories@,
                    store.user_memories@,
                    row@,
                );
            }
        }
    }
    indexed
}

/// The refusal of a caller who does not own what they ask to change.
pub open spec fn not_owner() -> ErrorView {
    ErrorView::Authentication { message: "Permission denied"@, auth_type: "not_owner"@ }
}

/// Deletes the memory stored under `id` for its owner.
///
/// Without a row nothing changes and the answer is `false`. A row of
/// another owner is refused. The row of the caller is removed together
/// with its vector and its entry in the ids of the caller.
pub fn delete_memory(
    store: &mut Store,
    vectors: &mut AdvancedVectorStore,
    id: &str,
    user_id: &Principal,
) -> (r: Result<bool>)
    ensures
        final(store).conversations@ == old(store).conversations@,
        final(store).user_conversations@ == old(store).user_conversations@,
        final(store).user_config@ == old(store).user_config@,
        final(store).access_tokens@ == old(store).access_tokens@,
        final(vectors).config == old(vectors).config,
        !old(store).memories@.contains_key(key_of(id@)) ==> r is Ok && r->Ok_0 == false
            && final(store).memories@ == old(store).memories@ && final(store).user_memories@ == old(store).user_memories@ && final(vectors).vectors@ == old(vectors).vectors@,
        old(store).memories@.contains_key(key_of(id@)) ==> match old(store).memory(id@) {
            None => r is Err && r->Err_0@ == corrupt("delete_memory"@) && final(store).memories@
                == old(store).memories@ && final(store).user_memories@ == old(store).user_memories@ && final(vectors).vectors@ == old(vectors).vectors@,
            Some(m) => if m.user_id != user_id@ {
                r is Err && r->Err_0@ == not_owner() && final(store).memories@ == old(store).memories@ && final(store).user_memories@ == old(store).user_memories@ && final(vectors).vectors@ == old(vectors).vectors@
            } else {
                r is Ok && r->Ok_0 == true && final(store).memories@ == old(store).memories@.remove(key_of(id@)) && final(vectors).vectors@ == old(vectors).vectors@.remove(key_of(id@)) && final(store).user_memories@ == index_without(
                    old(store).user_memories@,
                    user_id@,
                    id@,
                )
            },
        },
        old(store).memories_indexed() ==> final(store).memories_indexed(),
        ids_once(old(store).user_memories@) ==> ids_once(final(store).user_memories@),
        old(vectors).dimensions_hold() ==> final(vectors).dimensions_hold(),
        backed(old(vectors).vectors@, old(store).memories@) ==> backed(
            final(vectors).vectors@,
            final(store).memories@,
        ),
        if r == Ok::<bool, OpenMemoryError>(true) && old(vectors).vectors@.contains_key(key_of(id@)) {
            crate::vector_store::index_excised(old(vectors).index@, final(vectors).index@, id@)
        } else {
            final(vectors).index@ == old(vectors).index@
        },
{
    let memory: Memory = match get_memory(store, id) {
        Ok(Some(m)) => m,
        Ok(None) => {
            return Ok(false);
        },
        Err(_) => {
            return Err(OpenMemoryError::storage("Stored value is corrupt", "delete_memory"));
        },
    };
    if !memory.user_id.same(user_id) {
        return Err(OpenMemoryError::authentication("Permission denied", "not_owner"));
    }
    let key: Vec<u8> = write_text_field(id);
    region_remove(&mut store.memories, &key);
    match vectors.remove_vector(id) {
        Ok(_) => {},
        Err(_) => {},
    }
    index_remove(&mut store.user_memories, user_id, id);
    proof {
        let rows = store.memories@;
        let index = store.user_memories@;
        let old_index = old(store).user_memories@;
        if old(store).memories_indexed() {
            assert forall|k: Seq<u8>| #[trigger] rows.contains_key(k) implies match memory_of_record(
                rows[k],
            ) {
                Some(m) => key_of(m.id) == k && owned(index, m.user_id) is Some && owned(
                    index,
                    m.user_id,
                )->0.contains(m.id),
                None => true,
            } by {
                assert(old(store).memories@.contains_key(k));
                match memory_of_record(rows[k]) {
                    Some(m) => {
                        if m.user_id == user_id@ {
                            let ids = owned(old_index, user_id@)->0;
                            assert(ids.contains(m.id));
                            if m.id == id@ {
                                assert(k == key_of(id@));
                            }
                            let j = choose|j: int| 0 <= j < ids.len() && ids[j] == m.id;
                            let pred = |x: Seq<char>| x != id@;
                            ids.lemma_filter_contains(pred, j);
                            assert(old_index.contains_key(user_id@)) by {
                                if !old_index.contains_key(user_id@) {
                                    assert(ids.len() == 0);
                                }
                            }
                            assert(without(ids, id@).contains(m.id));
                        } else {
                            assert(index.remove(user_id@).contains_key(m.user_id)
                                == old_index.remove(user_id@).contains_key(m.user_id));
                            assert(index.remove(user_id@)[m.user_id] == old_index.remove(
                                user_id@,
                            )[m.user_id]);
                        }
                    },
                    None => {},
                }
            }
        }
        assert forall|k: Seq<u8>| #[trigger]
            vectors.vectors@.contains_key(k) && backed(
                old(vectors).vectors@,
                old(store).memories@,
            ) implies store.memories@.contains_key(k) by {
            assert(old(vectors).vectors@.contains_key(k));
        }
    }
    Ok(true)
}

/// The memories of a listing: the rows that read, in the order of their
/// ids; of these the page behind `offset` of at most `limit` (and at most a
/// hundred); of the page those that pass the owner filter.
pub open spec fn listed(
    listing: Seq<(Seq<u8>, Seq<u8>)>,
    offset: nat,
    limit: nat,
    filter: Option<Seq<u8>>,
) -> Seq<MemoryView> {
    page(
        readable(listing, memory_reader()),
        offset,
        if limit < MAX_LISTING {
            limit
        } else {
            MAX_LISTING as nat
        },
    ).filter(passes_owner(filter))
}

/// Lists memories, newest first.
///
/// The rows are walked in the order of their ids; `offset` rows are passed
/// over and at most `limit` rows (never more than a hundred) are taken; of
/// these the rows of `user_filter` are kept, or all without a filter; and
/// the result is ordered by falling creation time, and by rising id among
/// equal times.
pub fn list_memories(
    store: &Store,
    offset: usize,
    limit: usize,
    user_filter: Option<&Principal>,
) -> (r: Result<Vec<Memory>>)
    ensures
        r is Ok,
        ranked(r->Ok_0@),
        exists|listing: Seq<(Seq<u8>, Seq<u8>)>, picked: Seq<Memory>|
            #![trigger lists(listing, store.memories@), memory_views(picked)]
            lists(listing, store.memories@) && memory_views(picked) == listed(
                listing,
                offset as nat,
                limit as nat,
                opt_principal(user_filter),
            ) && r->Ok_0@.to_multiset() == picked.to_multiset(),
{
    let cap: usize = if limit < MAX_LISTING {
        limit
    } else {
        MAX_LISTING
    };
    let entries: Vec<(Vec<u8>, Vec<u8>)> = region_entries(&store.memories);
    let ghost ev = entries_view(entries@);
    let ghost filter = opt_principal(user_filter);
    let mut out: Vec<Memory> = Vec::new();
    let mut seen: usize = 0;
    let mut taken: usize = 0;
    let mut i: usize = 0;
    proof {
        reveal(Seq::filter);
        assert(readable(ev.take(0), memory_reader()) =~= Seq::<MemoryView>::empty());
        assert(page(Seq::<MemoryView>::empty(), offset as nat, cap as nat) =~= Seq::<
            MemoryView,
        >::empty());
        assert(memory_views(out@) =~= Seq::<MemoryView>::empty());
    }
    while i < entries.len()
        invariant
            i <= entries@.len(),
            ev == entries_view(entries@),
            filter == opt_principal(user_filter),
            cap <= MAX_LISTING,
            seen <= i,
            seen == readable(ev.take(i as int), memory_reader()).len() || (seen == offset && seen
                <= readable(ev.take(i as int), memory_reader()).len()),
            seen <= offset,
            taken == page(
                readable(ev.take(i as int), memory_reader()),
                offset as nat,
                cap as nat,
            ).len(),
            memory_views(out@) == page(
                readable(ev.take(i as int), memory_reader()),
                offset as nat,
                cap as nat,
            ).filter(passes_owner(filter)),
        decreases entries@.len() - i,
    {
        assert(ev[i as int] == (entries@[i as int].0@, entries@[i as int].1@));
        let ghost a = readable(ev.take(i as int), memory_reader());
        proof {
            lemma_readable_step(ev, i as int, memory_reader());
        }
        match decode_memory(entries[i].1.as_slice()) {
            Some(m) => {
                proof {
                    lemma_page_push(a, m@, offset as nat, cap as nat);
                    page(a, offset as nat, cap as nat).lemma_filter_push(
                        m@,
                        passes_owner(filter),
                    );
                }
                if seen < offset {
                    seen += 1;
                } else if taken < cap {
                    taken += 1;
                    let keep: bool = match user_filter {
                        Some(u) => m.user_id.same(u),
                        None => true,
                    };
                    if keep {
                        let ghost before = out@;
                        out.push(m);
                        assert(memory_views(out@) =~= memory_views(before).push(m@));
                    }
                }
            },
            None => {
                proof {
                    lemma_page_push(a, arbitrary(), offset as nat, cap as nat);
                }
            },
        }
        i += 1;
    }
    assert(ev.take(entries@.len() as int) == ev);
    let ghost picked = out@;
    let sorted: Vec<Memory> = sort_ranked(out);
    assert(lists(ev, store.memories@) && memory_views(picked) == listed(
        ev,
        offset as nat,
        limit as nat,
        filter,
    ));
    Ok(sorted)
}

/// The ids of a page of the ids of a user.
pub open spec fn id_page(ids: Seq<Seq<char>>, offset: nat, limit: nat) -> Seq<Seq<char>> {
    page(ids, offset, limit)
}

/// Lists the memories of a user, newest first: of the ids of the user, in
/// the order in which they were added, `offset` are passed over and at most
/// `limit` taken; the rows of these that read are returned by falling
/// creation time, and by rising id among equal times.
pub fn list_user_memories(store: &Store, user_id: &Principal, offset: usize, limit: usize) -> (r:
    Result<Vec<Memory>>)
    ensures
        match r {
            Ok(found) => owned(store.user_memories@, user_id@) is Some && ranked(found@)
                && exists|picked: Seq<Memory>|
                #![trigger memory_views(picked)]
                memory_views(picked) == rows_of(
                    store.memories@,
                    id_page(owned(store.user_memories@, user_id@)->0, offset as nat, limit as nat),
                ) && found@.to_multiset() == picked.to_multiset(),
            Err(e) => owned(store.user_memories@, user_id@) is None && e@ == corrupt(
                "list_user_memories"@,
            ),
        },
{
    let ids: Vec<String> = match index_list(&store.user_memories, user_id, "list_user_memories") {
        Ok(ids) => ids,
        Err(e) => {
            return Err(e);
        },
    };
    let ghost all = strs(ids@);
    let ghost want = id_page(all, offset as nat, limit as nat);
    let mut out: Vec<Memory> = Vec::new();
    if offset >= ids.len() {
        assert(want.len() == 0);
        assert(memory_views(out@) =~= rows_of(store.memories@, want));
        let ghost picked = out@;
        let sorted = sort_ranked(out);
        assert(memory_views(picked) == rows_of(store.memories@, want));
        return Ok(sorted);
    }
    let room: usize = ids.len() - offset;
    let n: usize = if limit < room {
        limit
    } else {
        room
    };
    assert(want =~= all.subrange(offset as int, offset + n));
    let mut i: usize = 0;
    assert(memory_views(out@) =~= rows_of(store.memories@, want.take(0)));
    while i < n
        invariant
            i <= n,
            offset + n <= ids@.len() <= usize::MAX,
            all == strs(ids@),
            want == all.subrange(offset as int, offset + n),
            memory_views(out@) == rows_of(store.memories@, want.take(i as int)),
        decreases n - i,
    {
        assert(want[i as int] == ids@[offset + i]@);
        assert(want.take(i + 1).drop_last() == want.take(i as int));
        assert(want.take(i + 1).last() == want[i as int]);
        match get_memory(store, ids[offset + i].as_str()) {
            Ok(Some(m)) => {
                let ghost before = out@;
                out.push(m);
                assert(memory_views(out@) =~= memory_views(before).push(m@));
            },
            Ok(None) => {},
            Err(_) => {},
        }
        i += 1;
    }
    assert(want.take(n as int) == want);
    let ghost picked = out@;
    let sorted = sort_ranked(out);
    assert(memory_views(picked) == rows_of(store.memories@, want));
    Ok(sorted)
}

/// The memories of the given ids whose rows read, in the order of the ids.
pub open spec fn rows_of(rows: Map<Seq<u8>, Seq<u8>>, ids: Seq<Seq<char>>) -> Seq<MemoryView>
    decreases ids.len(),
{
    if ids.len() == 0 {
        Seq::empty()
    } else {
        let rest = rows_of(rows, ids.drop_last());
        let k = key_of(ids.last());
        if rows.contains_key(k) && memory_of_record(rows[k]) is Some {
            rest.push(memory_of_record(rows[k])->0)
        } else {
            rest
        }
    }
}

/// The number of stored memories.
pub fn get_memory_count(store: &Store) -> (n: usize)
    ensures
        n == store.memories@.dom().len() || (n == usize::MAX && store.memories@.dom().len()
            > usize::MAX),
{
    let n: u64 = region_len(&store.memories);
    if n > usize::MAX as u64 {
        usize::MAX
    } else {
        n as usize
    }
}

/// The number of users that own or owned a memory.
pub fn get_user_count(store: &Store) -> (n: usize)
    ensures
        n == store.user_memories@.dom().len() || (n == usize::MAX
            && store.user_memories@.dom().len() > usize::MAX),
{
    let n: u64 = region_len(&store.user_memories);
    if n > usize::MAX as u64 {
        usize::MAX
    } else {
        n as usize
    }
}

/// The memories that carry the tag.
pub open spec fn tagged(tag: Seq<char>) -> spec_fn(MemoryView) -> bool {
    |m: MemoryView| m.tags.contains(tag)
}

/// The number of memories that carry exactly this tag.
pub fn count_memories_with_tag(store: &Store, tag: &str) -> (r: Result<usize>)
    ensures
        r is Ok,
        exists|listing: Seq<(Seq<u8>, Seq<u8>)>|
            lists(listing, store.memories@) && #[trigger] readable(listing, memory_reader()).filter(
                tagged(tag@),
            ).len() == r->Ok_0,
{
    let entries: Vec<(Vec<u8>, Vec<u8>)> = region_entries(&store.memories);
    let ghost ev = entries_view(entries@);
    let mut count: usize = 0;
    let mut i: usize = 0;
    proof {
        reveal(Seq::filter);
        assert(readable(ev.take(0), memory_reader()) =~= Seq::<MemoryView>::empty());
    }
    while i < entries.len()
        invariant
            i <= entries@.len(),
            ev == entries_view(entries@),
            count <= i,
            count == readable(ev.take(i as int), memory_reader()).filter(tagged(tag@)).len(),
        decreases entries@.len() - i,
    {
        assert(ev[i as int] == (entries@[i as int].0@, entries@[i as int].1@));
        let ghost a = readable(ev.take(i as int), memory_reader());
        proof {
            lemma_readable_step(ev, i as int, memory_reader());
        }
        match decode_memory(entries[i].1.as_slice()) {
            Some(m) => {
                proof {
                    a.lemma_filter_push(m@, tagged(tag@));
                }
                if ids_contain(&m.tags, tag) {
                    count += 1;
                }
            },
            None => {},
        }
        i += 1;
    }
    assert(ev.take(entries@.len() as int) == ev);
    Ok(count)
}

/// The bytes of all contents and the number of memories; their quotient is
/// the mean size of a memory.
pub struct MemorySizes {
    pub total_bytes: u64,
    pub count: u64,
}

/// The sum of the content sizes of the memories.
pub open spec fn content_bytes(ms: Seq<MemoryView>) -> nat
    decreases ms.len(),
{
    if ms.len() == 0 {
        0
    } else {
        content_bytes(ms.drop_last()) + crate::validation::byte_len(ms.last().content)
    }
}

/// The sizes from which the mean size of a memory is taken: the bytes of
/// the contents of all rows that read, and the number of those rows. Sums
/// that do not fit stop at the largest number.
pub fn get_avg_memory_size(store: &Store) -> (s: MemorySizes)
    ensures
        exists|listing: Seq<(Seq<u8>, Seq<u8>)>|
            lists(listing, store.memories@) && #[trigger] readable(listing, memory_reader()).len()
                == s.count && (s.total_bytes == content_bytes(readable(listing, memory_reader()))
                || s.total_bytes == u64::MAX),
{
    let entries: Vec<(Vec<u8>, Vec<u8>)> = region_entries(&store.memories);
    let ghost ev = entries_view(entries@);
    let mut total: u64 = 0;
    let mut exact: bool = true;
    let mut count: u64 = 0;
    let mut i: usize = 0;
    assert(readable(ev.take(0), memory_reader()) =~= Seq::<MemoryView>::empty());
    while i < entries.len()
        invariant
            i <= entries@.len(),
            ev == entries_view(entries@),
            count <= i,
            count == readable(ev.take(i as int), memory_reader()).len(),
            exact ==> total == content_bytes(readable(ev.take(i as int), memory_reader())),
            !exact ==> total == u64::MAX,
        decreases entries@.len() - i,
    {
        assert(ev[i as int] == (entries@[i as int].0@, entries@[i as int].1@));
        let ghost a = readable(ev.take(i as int), memory_reader());
        proof {
            lemma_readable_step(ev, i as int, memory_reader());
        }
        match decode_memory(entries[i].1.as_slice()) {
            Some(m) => {
                let size: u64 = crate::validation::str_byte_len(m.content.as_str()) as u64;
                proof {
                    assert(a.push(m@).drop_last() == a);
                    assert(a.push(m@).last() == m@);
                }
                if exact && total <= u64::MAX - size {
                    total = total + size;
                } else {
                    total = u64::MAX;
                    exact = false;
                }
                count += 1;
            },
            None => {},
        }
        i += 1;
    }
    assert(ev.take(entries@.len() as int) == ev);
    MemorySizes { total_bytes: total, count }
}

} // verus!
