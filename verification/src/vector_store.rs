//! The vector store: one entry per embedded memory, a coarse bucket index
//! beside it, and the ranking of scored candidates.
//!
//! Similarities are computed by the caller, in floating point; the store
//! checks dimensions, keeps the entries, and orders scored ids.

use crate::codec::{
    byte_fields, frame, frame_fields, lemma_text_roundtrip, lemma_u32s_roundtrip,
    lemma_unframe_frame, read_text_field, read_u32s_field, read_u64_field, text_of_field,
    texts_field, texts_of_field, u32s_field, u32s_of_field, u64_of_field, unframe, unframe_bytes,
    write_text_field, write_u32s_field,
};
use crate::errors::{ErrorView, OpenMemoryError, Result};
use crate::ranking::{
    bytes_before, distinct_ranks, lemma_distinct_ranks_filtered, lemma_distinct_ranks_permuted,
    lemma_heavier_first, lemma_ranked_unique, ranked, sort_ranked, Ranked,
};
use crate::records::{decode_ids, encode_ids};
use crate::region::{
    entries_view, lemma_free_after_claim, lemma_readable_step, lists, readable, region_entries,
    put, region_get, region_len, region_put, region_remove, storable, Region, RegionManager,
    REGION_VECTORS,
    REGION_VECTOR_INDEX,
};
use crate::seqs::{keep_marked, lemma_filter_step, masked, prefix};
use crate::text::{str_eq, str_to_string};
use crate::types::{strs, Score};
use vstd::bytes::{
    lemma_auto_spec_u64_to_from_le_bytes, spec_u64_to_le_bytes, u64_to_le_bytes,
};
use vstd::prelude::*;
use vstd::utf8::encode_utf8;

verus! {

/// How two vectors are compared.
#[derive(Debug, Clone, Copy, PartialEq, Eq, Structural)]
pub enum SimilarityFunction {
    Cosine,
    Euclidean,
    DotProduct,
}

/// The settings of the vector store.
#[derive(Debug, Clone, Copy)]
pub struct VectorStoreConfig {
    pub dimension: usize,
    pub similarity_function: SimilarityFunction,
    pub max_vectors: usize,
    /// The least score that a search keeps when the caller names none.
    pub index_threshold: Score,
}

/// The settings of a new store: 1536 coordinates, cosine similarity, a
/// threshold of 0.7.
pub open spec fn default_config() -> VectorStoreConfig {
    VectorStoreConfig {
        dimension: 1536,
        similarity_function: SimilarityFunction::Cosine,
        max_vectors: 1_000_000,
        index_threshold: 700_000,
    }
}

impl Default for VectorStoreConfig {
    fn default() -> (c: Self)
        ensures
            c == default_config(),
    {
        VectorStoreConfig {
            dimension: 1536,
            similarity_function: SimilarityFunction::Cosine,
            max_vectors: 1_000_000,
            index_threshold: 700_000,
        }
    }
}

/// One stored vector with its norm, both as float bit patterns.
#[derive(Debug)]
pub struct VectorEntry {
    pub id: String,
    pub vector: Vec<u32>,
    pub created_at: u64,
    pub norm: u32,
}

pub struct VectorEntryView {
    pub id: Seq<char>,
    pub vector: Seq<u32>,
    pub created_at: u64,
    pub norm: u32,
}

impl View for VectorEntry {
    type V = VectorEntryView;

    open spec fn view(&self) -> VectorEntryView {
        VectorEntryView {
            id: self.id@,
            vector: self.vector@,
            created_at: self.created_at,
            norm: self.norm,
        }
    }
}

/// The ids of one bucket of the coarse index.
pub struct VectorIndexList(pub Vec<String>);

/// Counts and norms of the stored vectors.
pub struct VectorStoreStats {
    pub total_vectors: usize,
    pub dimension: usize,
    pub similarity_function: SimilarityFunction,
    /// The stored norms in id order, as float bit patterns.
    pub norms: Vec<u32>,
}

/// An id with the score that the caller computed for it.
#[derive(Debug)]
pub struct ScoredId {
    pub id: String,
    pub score: Score,
}

impl Ranked for ScoredId {
    open spec fn weight(&self) -> int {
        self.score as int
    }

    open spec fn tie(&self) -> Seq<u8> {
        encode_utf8(self.id@)
    }

    fn outranks(&self, other: &Self) -> (b: bool) {
        if self.score != other.score {
            self.score > other.score
        } else {
            bytes_before(self.id.as_str().as_bytes(), other.id.as_str().as_bytes())
        }
    }
}

/// The key under which an id is stored.
pub open spec fn key_of(id: Seq<char>) -> Seq<u8> {
    encode_utf8(id)
}

/// The key under which a bucket is stored.
pub open spec fn bucket_key(bucket: u64) -> Seq<u8> {
    spec_u64_to_le_bytes(bucket)
}

/// The fields of a vector entry.
pub open spec fn entry_fields(e: VectorEntryView) -> Seq<Seq<u8>> {
    seq![
        encode_utf8(e.id),
        u32s_field(e.vector),
        spec_u64_to_le_bytes(e.created_at),
        spec_u64_to_le_bytes(e.norm as u64),
    ]
}

/// The vector entry that the fields spell, if they spell one.
pub open spec fn entry_of_fields(f: Seq<Seq<u8>>) -> Option<VectorEntryView> {
    if f.len() == 4 && text_of_field(f[0]) is Some && u32s_of_field(f[1]) is Some && u64_of_field(
        f[2],
    ) is Some && u64_of_field(f[3]) is Some && u64_of_field(f[3])->0 <= u32::MAX {
        Some(
            VectorEntryView {
                id: text_of_field(f[0])->0,
                vector: u32s_of_field(f[1])->0,
                created_at: u64_of_field(f[2])->0,
                norm: u64_of_field(f[3])->0 as u32,
            },
        )
    } else {
        None
    }
}

/// The record of a vector entry.
pub open spec fn entry_record(e: VectorEntryView) -> Seq<u8> {
    frame(entry_fields(e))
}

/// The vector entry that a record spells, if it spells one.
pub open spec fn entry_of_record(bytes: Seq<u8>) -> Option<VectorEntryView> {
    match unframe(bytes) {
        Some(f) => entry_of_fields(f),
        None => None,
    }
}

/// The record of a vector entry, which reads back as the same entry.
pub fn encode_entry(e: &VectorEntry) -> (r: Vec<u8>)
    ensures
        r@ == entry_record(e@),
        entry_of_record(r@) == Some(e@),
{
    let mut fields: Vec<Vec<u8>> = Vec::new();
    fields.push(write_text_field(e.id.as_str()));
    fields.push(write_u32s_field(&e.vector));
    fields.push(u64_to_le_bytes(e.created_at));
    fields.push(u64_to_le_bytes(e.norm as u64));
    assert(byte_fields(fields@) =~= entry_fields(e@));
    let r = frame_fields(&fields);
    proof {
        lemma_unframe_frame(entry_fields(e@));
        lemma_text_roundtrip(e@.id);
        lemma_u32s_roundtrip(e@.vector);
        lemma_auto_spec_u64_to_from_le_bytes();
        assert(entry_of_fields(entry_fields(e@)) == Some(e@));
    }
    r
}

/// The vector entry of a record, or nothing if the bytes are not one.
pub fn decode_entry(bytes: &[u8]) -> (r: Option<VectorEntry>)
    ensures
        match r {
            Some(e) => entry_of_record(bytes@) == Some(e@),
            None => entry_of_record(bytes@) is None,
        },
{
    let fields: Vec<Vec<u8>> = match unframe_bytes(bytes) {
        Some(x) => x,
        None => {
            return None;
        },
    };
    if fields.len() != 4 {
        return None;
    }
    let ghost f = byte_fields(fields@);
    assert(forall|k: int| 0 <= k < 4 ==> f[k] == (#[trigger] fields@[k])@);
    let id: String = match read_text_field(fields[0].as_slice()) {
        Some(x) => x,
        None => {
            return None;
        },
    };
    let vector: Vec<u32> = match read_u32s_field(fields[1].as_slice()) {
        Some(x) => x,
        None => {
            return None;
        },
    };
    let created_at: u64 = match read_u64_field(fields[2].as_slice()) {
        Some(x) => x,
        None => {
            return None;
        },
    };
    let norm: u64 = match read_u64_field(fields[3].as_slice()) {
        Some(x) => x,
        None => {
            return None;
        },
    };
    if norm > 0xFFFF_FFFF {
        return None;
    }
    Some(VectorEntry { id, vector, created_at, norm: norm as u32 })
}

/// The list of ids without `id`.
pub open spec fn without(ids: Seq<Seq<char>>, id: Seq<char>) -> Seq<Seq<char>> {
    ids.filter(|x: Seq<char>| x != id)
}

/// A copy of a list of ids without `id`.
pub fn ids_without(ids: &Vec<String>, id: &str) -> (r: Vec<String>)
    ensures
        strs(r@) == without(strs(ids@), id@),
{
    let ghost pred = |x: Seq<char>| x != id@;
    let ghost all = strs(ids@);
    let mut r: Vec<String> = Vec::new();
    let mut i: usize = 0;
    proof {
        reveal(Seq::filter);
        assert(all.take(0).filter(pred) == Seq::<Seq<char>>::empty());
        assert(strs(r@) == Seq::<Seq<char>>::empty());
    }
    while i < ids.len()
        invariant
            i <= ids.len(),
            all == strs(ids@),
            pred == (|x: Seq<char>| x != id@),
            strs(r@) == all.take(i as int).filter(pred),
        decreases ids.len() - i,
    {
        proof {
            lemma_filter_step(all, i as int, pred);
            assert(all[i as int] == ids@[i as int]@);
        }
        if !str_eq(ids[i].as_str(), id) {
            let ghost before = r@;
            let s: String = ids[i].clone();
            r.push(s);
            assert(strs(r@) == strs(before).push(s@));
        }
        i += 1;
    }
    assert(all.take(ids.len() as int) == all);
    r
}

/// Whether the list holds `id`.
pub fn ids_contain(ids: &Vec<String>, id: &str) -> (r: bool)
    ensures
        r == strs(ids@).contains(id@),
{
    let mut i: usize = 0;
    while i < ids.len()
        invariant
            i <= ids.len(),
            forall|k: int| 0 <= k < i ==> strs(ids@)[k] != id@,
        decreases ids.len() - i,
    {
        assert(strs(ids@)[i as int] == ids@[i as int]@);
        if str_eq(ids[i].as_str(), id) {
            return true;
        }
        i += 1;
    }
    false
}

/// The views of a list of entries.
pub open spec fn entry_views(v: Seq<VectorEntry>) -> Seq<VectorEntryView> {
    v.map_values(|e: VectorEntry| e@)
}

/// Reads a record as a vector entry.
pub open spec fn entry_reader() -> spec_fn(Seq<u8>) -> Option<VectorEntryView> {
    |bytes: Seq<u8>| entry_of_record(bytes)
}

/// The vector store.
pub struct AdvancedVectorStore {
    pub vectors: Region,
    pub index: Region,
    pub config: VectorStoreConfig,
}

/// The storage error of a record that does not read.
pub open spec fn corrupt(operation: Seq<char>) -> ErrorView {
    ErrorView::Storage { message: "Stored value is corrupt"@, operation }
}

/// The storage error of an entry that is too long for the map.
pub open spec fn too_large(operation: Seq<char>) -> ErrorView {
    ErrorView::Storage { message: "Entry too large"@, operation }
}

/// The refusal of another dimension while vectors are stored.
pub open spec fn dimension_fixed() -> ErrorView {
    ErrorView::Validation {
        message: "Dimension cannot change while vectors are stored"@,
        field: Some("dimension"@),
    }
}

/// The rejection of a vector of the wrong dimension.
pub open spec fn wrong_dimension() -> ErrorView {
    ErrorView::Validation {
        message: "Vector dimension does not match expected dimension"@,
        field: Some("vector"@),
    }
}

/// The ids of a bucket: those of its record, or none where there is no
/// record.
pub open spec fn bucket_ids(index: Map<Seq<u8>, Seq<u8>>, bucket: u64) -> Option<Seq<Seq<char>>> {
    if index.contains_key(bucket_key(bucket)) {
        texts_of_field(index[bucket_key(bucket)])
    } else {
        Some(Seq::empty())
    }
}

/// The buckets after `id` joins `bucket`: the record of the bucket is
/// rewritten with the id at its end, unless the id is there already, the
/// record does not read, or the new record is too long for the map.
pub open spec fn index_with(index: Map<Seq<u8>, Seq<u8>>, bucket: u64, id: Seq<char>) -> Map<
    Seq<u8>,
    Seq<u8>,
> {
    match bucket_ids(index, bucket) {
        Some(ids) => if ids.contains(id) {
            index
        } else {
            put(index, bucket_key(bucket), texts_field(ids.push(id)))
        },
        None => index,
    }
}

/// The entries after a vector was stored under `id`: its entry is written
/// where the vector has `dimension` numbers and the entry is short enough
/// for the map.
pub open spec fn vectors_with(
    entries: Map<Seq<u8>, Seq<u8>>,
    dimension: usize,
    id: Seq<char>,
    vector: Seq<u32>,
    norm: u32,
    now: u64,
) -> Map<Seq<u8>, Seq<u8>> {
    if vector.len() == dimension {
        put(
            entries,
            key_of(id),
            entry_record(VectorEntryView { id, vector, created_at: now, norm }),
        )
    } else {
        entries
    }
}

/// The record of `bucket` with `id` at its end is short enough for the map,
/// where one is to be written.
pub open spec fn bucket_fits(index: Map<Seq<u8>, Seq<u8>>, bucket: u64, id: Seq<char>) -> bool {
    match bucket_ids(index, bucket) {
        Some(ids) => ids.contains(id) || storable(bucket_key(bucket), texts_field(ids.push(id))),
        None => true,
    }
}

/// The entry of a vector is short enough for the map.
pub open spec fn entry_fits(id: Seq<char>, vector: Seq<u32>, norm: u32, now: u64) -> bool {
    storable(key_of(id), entry_record(VectorEntryView { id, vector, created_at: now, norm }))
}

/// What removing `id` from the buckets makes of the bucket stored under
/// `k`: a record that reads is rewritten without `id`, or dropped when
/// nothing is left; a record that does not read stays.
pub open spec fn excised(index: Map<Seq<u8>, Seq<u8>>, k: Seq<u8>, id: Seq<char>) -> Option<
    Seq<u8>,
> {
    if !index.contains_key(k) {
        None
    } else {
        match texts_of_field(index[k]) {
            Some(ids) => if without(ids, id).len() == 0 {
                None
            } else {
                Some(texts_field(without(ids, id)))
            },
            None => Some(index[k]),
        }
    }
}

/// `after` is `before` with `id` excised from every bucket.
pub open spec fn index_excised(
    before: Map<Seq<u8>, Seq<u8>>,
    after: Map<Seq<u8>, Seq<u8>>,
    id: Seq<char>,
) -> bool {
    forall|k: Seq<u8>|
        (#[trigger] after.contains_key(k)) == (excised(before, k, id) is Some) && (
        after.contains_key(k) ==> after[k] == excised(before, k, id)->0)
}

/// A vector to store, with its norm and the bucket that it falls into.
pub struct VectorInput {
    pub id: String,
    pub vector: Vec<u32>,
    pub norm: u32,
    pub bucket: u64,
}

/// The entries after the vectors were stored one after the other, each as
/// [`vectors_with`] says.
pub open spec fn after_batch(
    entries: Map<Seq<u8>, Seq<u8>>,
    items: Seq<VectorInput>,
    dimension: usize,
    now: u64,
) -> Map<Seq<u8>, Seq<u8>>
    decreases items.len(),
{
    if items.len() == 0 {
        entries
    } else {
        let earlier = after_batch(entries, items.drop_last(), dimension, now);
        let item = items.last();
        vectors_with(earlier, dimension, item.id@, item.vector@, item.norm, now)
    }
}

/// The buckets after the vectors were stored one after the other: the id
/// of each vector whose entry was written joins its bucket.
pub open spec fn buckets_after_batch(
    index: Map<Seq<u8>, Seq<u8>>,
    items: Seq<VectorInput>,
    dimension: usize,
    now: u64,
) -> Map<Seq<u8>, Seq<u8>>
    decreases items.len(),
{
    if items.len() == 0 {
        index
    } else {
        let earlier = buckets_after_batch(index, items.drop_last(), dimension, now);
        let item = items.last();
        if item.vector@.len() == dimension && entry_fits(item.id@, item.vector@, item.norm, now) {
            index_with(earlier, item.bucket, item.id@)
        } else {
            earlier
        }
    }
}

impl AdvancedVectorStore {
    /// Every entry that reads has as many coordinates as the store asks for.
    pub open spec fn dimensions_hold(&self) -> bool {
        forall|k: Seq<u8>| #[trigger]
            self.vectors@.contains_key(k) ==> match entry_of_record(self.vectors@[k]) {
                Some(e) => e.vector.len() == self.config.dimension,
                None => true,
            }
    }

    /// The entry stored for `id`, if there is one that reads.
    pub open spec fn entry(&self, id: Seq<char>) -> Option<VectorEntryView> {
        if self.vectors@.contains_key(key_of(id)) {
            entry_of_record(self.vectors@[key_of(id)])
        } else {
            None
        }
    }

    /// A new, empty vector store in the sub-regions of vectors and buckets,
    /// if both are still to be had.
    pub fn init(manager: &mut RegionManager) -> (s: Option<Self>)
        ensures
            s is Some == (old(manager).free(REGION_VECTORS) && old(manager).free(
                REGION_VECTOR_INDEX,
            )),
            s is None ==> *final(manager) == *old(manager),
            s matches Some(v) ==> v.vectors@ == Map::<Seq<u8>, Seq<u8>>::empty() && v.index@
                == Map::<Seq<u8>, Seq<u8>>::empty() && v.config == default_config()
                && v.dimensions_hold() && final(manager).claimed() == old(manager).claimed().push(
                REGION_VECTORS,
            ).push(REGION_VECTOR_INDEX),
    {
        if !manager.is_free(REGION_VECTORS) || !manager.is_free(REGION_VECTOR_INDEX) {
            return None;
        }
        let ghost before = *manager;
        let vectors: Region = manager.create(REGION_VECTORS);
        proof {
            lemma_free_after_claim(before, *manager, REGION_VECTORS, REGION_VECTOR_INDEX);
        }
        let index: Region = manager.create(REGION_VECTOR_INDEX);
        Some(AdvancedVectorStore { vectors, index, config: VectorStoreConfig::default() })
    }

    /// The vector store that the sub-regions hold, as after a restart, if
    /// both are still to be had.
    pub fn open(manager: &mut RegionManager, config: VectorStoreConfig) -> (s: Option<Self>)
        ensures
            s is Some == (old(manager).free(REGION_VECTORS) && old(manager).free(
                REGION_VECTOR_INDEX,
            )),
            s is None ==> *final(manager) == *old(manager),
            s matches Some(v) ==> v.config == config && final(manager).claimed() == old(manager).claimed().push(REGION_VECTORS).push(REGION_VECTOR_INDEX),
    {
        if !manager.is_free(REGION_VECTORS) || !manager.is_free(REGION_VECTOR_INDEX) {
            return None;
        }
        let ghost before = *manager;
        let vectors: Region = manager.load(REGION_VECTORS);
        proof {
            lemma_free_after_claim(before, *manager, REGION_VECTORS, REGION_VECTOR_INDEX);
        }
        let index: Region = manager.load(REGION_VECTOR_INDEX);
        Some(AdvancedVectorStore { vectors, index, config })
    }

    /// The vector store read again from its sub-regions, as after a
    /// restart: it holds the vectors and buckets that it held.
    pub fn reopen(self) -> (s: Self)
        ensures
            s.vectors@ == self.vectors@,
            s.index@ == self.index@,
            s.config == self.config,
            self.dimensions_hold() ==> s.dimensions_hold(),
    {
        AdvancedVectorStore {
            vectors: self.vectors.reopen(),
            index: self.index.reopen(),
            config: self.config,
        }
    }

    /// Stores a vector under `id` and enters the id in `bucket`.
    ///
    /// A vector of another dimension than the store's is rejected, and so
    /// is one whose entry is too long for the map; nothing changes then.
    /// Otherwise the entry is written; then the id joins the bucket unless
    /// it is there already. A bucket whose record does not read, or would
    /// grow too long, is left alone and reported, with the entry in place.
    pub fn add_vector(
        &mut self,
        id: String,
        vector: Vec<u32>,
        norm: u32,
        bucket: u64,
        now: u64,
    ) -> (r: Result<()>)
        ensures
            final(self).config == old(self).config,
            old(self).dimensions_hold() ==> final(self).dimensions_hold(),
            final(self).vectors@ == vectors_with(
                old(self).vectors@,
                old(self).config.dimension,
                id@,
                vector@,
                norm,
                now,
            ),
            vector@.len() != old(self).config.dimension ==> r is Err && r->Err_0@
                == wrong_dimension() && final(self).index@ == old(self).index@,
            vector@.len() == old(self).config.dimension && !entry_fits(id@, vector@, norm, now)
                ==> r is Err && r->Err_0@ == too_large("add_vector"@) && final(self).index@ == old(self).index@,
            vector@.len() == old(self).config.dimension && entry_fits(id@, vector@, norm, now) ==> {
                &&& final(self).entry(id@) == Some(
                    VectorEntryView { id: id@, vector: vector@, created_at: now, norm },
                )
                &&& final(self).index@ == index_with(old(self).index@, bucket, id@)
                &&& match bucket_ids(old(self).index@, bucket) {
                    Some(ids) => if bucket_fits(old(self).index@, bucket, id@) {
                        r is Ok && bucket_ids(final(self).index@, bucket) == Some(
                            if ids.contains(id@) {
                                ids
                            } else {
                                ids.push(id@)
                            },
                        ) && final(self).index@.remove(bucket_key(bucket)) == old(self).index@.remove(bucket_key(bucket))
                    } else {
                        r is Err && r->Err_0@ == too_large("update_vector_index"@) && final(self).index@ == old(self).index@
                    },
                    None => r is Err && r->Err_0@ == corrupt("update_vector_index"@) && final(self).index@ == old(self).index@,
                }
            },
    {
        if vector.len() != self.config.dimension {
            return Err(
                OpenMemoryError::validation(
                    "Vector dimension does not match expected dimension",
                    Some("vector"),
                ),
            );
        }
        let ghost idv = id@;
        let entry = VectorEntry { id, vector, created_at: now, norm };
        let key: Vec<u8> = write_text_field(entry.id.as_str());
        let record: Vec<u8> = encode_entry(&entry);
        if !region_put(&mut self.vectors, key, record) {
            return Err(OpenMemoryError::storage("Entry too large", "add_vector"));
        }
        let r = self.update_vector_index(entry.id.as_str(), bucket);
        proof {
            assert(self.vectors@[key_of(idv)] == entry_record(entry@));
            if old(self).dimensions_hold() {
                assert forall|k: Seq<u8>| #[trigger]
                    self.vectors@.contains_key(k) implies match entry_of_record(self.vectors@[k]) {
                    Some(e) => e.vector.len() == self.config.dimension,
                    None => true,
                } by {
                    if k != key_of(idv) {
                        assert(old(self).vectors@.contains_key(k));
                    }
                }
            }
        }
        r
    }

    /// Stores the vectors one after the other, as [`Self::add_vector`] does,
    /// and gives the outcome of each.
    ///
    /// A later vector replaces an earlier one of the same id; the id of
    /// each vector whose entry is written joins its bucket.
    pub fn add_vectors_batch(&mut self, items: Vec<VectorInput>, now: u64) -> (r: Vec<Result<()>>)
        ensures
            r@.len() == items@.len(),
            final(self).config == old(self).config,
            final(self).vectors@ == after_batch(
                old(self).vectors@,
                items@,
                old(self).config.dimension,
                now,
            ),
            old(self).dimensions_hold() ==> final(self).dimensions_hold(),
            forall|i: int|
                0 <= i < items@.len() ==> if items@[i].vector@.len() != old(self).config.dimension {
                    (#[trigger] r@[i]) is Err && r@[i]->Err_0@ == wrong_dimension()
                } else {
                    r@[i] is Ok || r@[i]->Err_0@ == corrupt("update_vector_index"@) || r@[i]->Err_0@
                        == too_large("update_vector_index"@) || r@[i]->Err_0@ == too_large(
                        "add_vector"@,
                    )
                },
            final(self).index@ == buckets_after_batch(
                old(self).index@,
                items@,
                old(self).config.dimension,
                now,
            ),
    {
        let mut r: Vec<Result<()>> = Vec::new();
        let mut i: usize = 0;
        let ghost dimension = self.config.dimension;
        proof {
            assert(items@.take(0) =~= Seq::<VectorInput>::empty());
        }
        while i < items.len()
            invariant
                i <= items@.len(),
                r@.len() == i,
                dimension == old(self).config.dimension,
                self.config == old(self).config,
                self.vectors@ == after_batch(
                    old(self).vectors@,
                    items@.take(i as int),
                    dimension,
                    now,
                ),
                old(self).dimensions_hold() ==> self.dimensions_hold(),
                forall|j: int|
                    0 <= j < i ==> if items@[j].vector@.len() != dimension {
                        (#[trigger] r@[j]) is Err && r@[j]->Err_0@ == wrong_dimension()
                    } else {
                        r@[j] is Ok || r@[j]->Err_0@ == corrupt("update_vector_index"@)
                            || r@[j]->Err_0@ == too_large("update_vector_index"@) || r@[j]->Err_0@
                            == too_large("add_vector"@)
                    },
                self.index@ == buckets_after_batch(
                    old(self).index@,
                    items@.take(i as int),
                    dimension,
                    now,
                ),
            decreases items@.len() - i,
        {
            let item = &items[i];
            let ghost before = *self;
            let ghost done = r@;
            let outcome = self.add_vector(
                str_to_string(item.id.as_str()),
                item.vector.clone(),
                item.norm,
                item.bucket,
                now,
            );
            r.push(outcome);
            proof {
                assert(items@.take(i + 1).drop_last() == items@.take(i as int));
                assert(items@.take(i + 1).last() == items@[i as int]);
                assert forall|j: int| 0 <= j < i + 1 implies if items@[j].vector@.len()
                    != dimension {
                    (#[trigger] r@[j]) is Err && r@[j]->Err_0@ == wrong_dimension()
                } else {
                    r@[j] is Ok || r@[j]->Err_0@ == corrupt("update_vector_index"@) || r@[j]->Err_0@
                        == too_large("update_vector_index"@) || r@[j]->Err_0@ == too_large(
                        "add_vector"@,
                    )
                } by {
                    if j < i {
                        assert(r@[j] == done[j]);
                    }
                }
            }
            i += 1;
        }
        proof {
            assert(items@.take(items@.len() as int) == items@);
        }
        r
    }

    /// Enters `id` in `bucket` unless it is there already.
    fn update_vector_index(&mut self, id: &str, bucket: u64) -> (r: Result<()>)
        ensures
            final(self).config == old(self).config,
            final(self).vectors@ == old(self).vectors@,
            final(self).index@ == index_with(old(self).index@, bucket, id@),
            match bucket_ids(old(self).index@, bucket) {
                Some(ids) => if bucket_fits(old(self).index@, bucket, id@) {
                    r is Ok && bucket_ids(final(self).index@, bucket) == Some(
                        if ids.contains(id@) {
                            ids
                        } else {
                            ids.push(id@)
                        },
                    ) && final(self).index@.remove(bucket_key(bucket)) == old(self).index@.remove(
                        bucket_key(bucket),
                    )
                } else {
                    r is Err && r->Err_0@ == too_large("update_vector_index"@) && final(self).index@
                        == old(self).index@
                },
                None => r is Err && r->Err_0@ == corrupt("update_vector_index"@) && final(self).index@ == old(self).index@,
            },
    {
        let bkey: Vec<u8> = u64_to_le_bytes(bucket);
        let mut ids: Vec<String> = match region_get(&self.index, &bkey) {
            Some(bytes) => match decode_ids(bytes.as_slice()) {
                Some(ids) => ids,
                None => {
                    return Err(
                        OpenMemoryError::storage("Stored value is corrupt", "update_vector_index"),
                    );
                },
            },
            None => Vec::new(),
        };
        assert(strs(ids@) == bucket_ids(old(self).index@, bucket)->0) by {
            if !old(self).index@.contains_key(bucket_key(bucket)) {
                assert(strs(ids@) =~= Seq::<Seq<char>>::empty());
            }
        }
        if !ids_contain(&ids, id) {
            let ghost before = ids@;
            let s: String = str_to_string(id);
            ids.push(s);
            assert(strs(ids@) == strs(before).push(id@));
            let record: Vec<u8> = encode_ids(&ids);
            if !region_put(&mut self.index, bkey, record) {
                return Err(OpenMemoryError::storage("Entry too large", "update_vector_index"));
            }
            assert(self.index@.remove(bucket_key(bucket)) =~= old(self).index@.remove(
                bucket_key(bucket),
            ));
        }
        Ok(())
    }

    /// Removes the vector of `id` and excises the id from every bucket.
    /// Returns whether there was a vector.
    pub fn remove_vector(&mut self, id: &str) -> (r: Result<bool>)
        ensures
            final(self).config == old(self).config,
            final(self).vectors@ == old(self).vectors@.remove(key_of(id@)),
            r == Ok::<bool, OpenMemoryError>(old(self).vectors@.contains_key(key_of(id@))),
            old(self).vectors@.contains_key(key_of(id@)) ==> index_excised(
                old(self).index@,
                final(self).index@,
                id@,
            ),
            !old(self).vectors@.contains_key(key_of(id@)) ==> final(self).index@ == old(self).index@,
            old(self).dimensions_hold() ==> final(self).dimensions_hold(),
    {
        let key: Vec<u8> = write_text_field(id);
        let removed: bool = region_remove(&mut self.vectors, &key).is_some();
        if removed {
            self.remove_from_index(id);
        }
        proof {
            assert forall|k: Seq<u8>| #[trigger]
                self.vectors@.contains_key(k) && old(self).dimensions_hold() implies match entry_of_record(
                self.vectors@[k],
            ) {
                Some(e) => e.vector.len() == self.config.dimension,
                None => true,
            } by {
                assert(old(self).vectors@.contains_key(k));
            }
        }
        Ok(removed)
    }

    /// Excises `id` from every bucket: a bucket that reads is rewritten
    /// without the id, or dropped when nothing is left.
    pub fn remove_from_index(&mut self, id: &str)
        ensures
            final(self).config == old(self).config,
            final(self).vectors@ == old(self).vectors@,
            index_excised(old(self).index@, final(self).index@, id@),
    {
        let entries: Vec<(Vec<u8>, Vec<u8>)> = region_entries(&self.index);
        let ghost before = self.index@;
        let ghost ev = entries_view(entries@);
        let mut i: usize = 0;
        while i < entries.len()
            invariant
                i <= entries.len(),
                ev == entries_view(entries@),
                lists(ev, before),
                forall|j: int|
                    0 <= j < entries@.len() ==> storable(
                        (#[trigger] entries@[j]).0@,
                        entries@[j].1@,
                    ),
                self.config == old(self).config,
                self.vectors@ == old(self).vectors@,
                forall|j: int|
                    0 <= j < i ==> self.index@.contains_key((#[trigger] ev[j]).0) == (excised(
                        before,
                        ev[j].0,
                        id@,
                    ) is Some) && (self.index@.contains_key(ev[j].0) ==> self.index@[ev[j].0]
                        == excised(before, ev[j].0, id@)->0),
                forall|j: int|
                    i <= j < ev.len() ==> self.index@.contains_key((#[trigger] ev[j]).0)
                        && self.index@[ev[j].0] == before[ev[j].0],
                forall|k: Seq<u8>| #[trigger] self.index@.contains_key(k) ==> before.contains_key(k),
            decreases entries.len() - i,
        {
            let ghost k = ev[i as int].0;
            assert(ev[i as int] == (entries@[i as int].0@, entries@[i as int].1@));
            let ghost idx_before = self.index@;
            match decode_ids(entries[i].1.as_slice()) {
                Some(ids) => {
                    let kept: Vec<String> = ids_without(&ids, id);
                    if kept.len() == 0 {
                        region_remove(&mut self.index, &entries[i].0);
                    } else {
                        let record: Vec<u8> = encode_ids(&kept);
                        proof {
                            crate::codec::lemma_texts_shrink(
                                entries@[i as int].1@,
                                |x: Seq<char>| x != id@,
                            );
                            assert(storable(entries@[i as int].0@, entries@[i as int].1@));
                            assert(storable(entries@[i as int].0@, record@));
                        }
                        region_put(&mut self.index, entries[i].0.clone(), record);
                    }
                },
                None => {},
            }
            proof {
                assert forall|j: int| 0 <= j < i + 1 implies self.index@.contains_key(
                    (#[trigger] ev[j]).0,
                ) == (excised(before, ev[j].0, id@) is Some) && (self.index@.contains_key(ev[j].0)
                    ==> self.index@[ev[j].0] == excised(before, ev[j].0, id@)->0) by {
                    if j < i {
                        assert(ev[j].0 != ev[i as int].0);
                        assert(idx_before.contains_key(ev[j].0) == (excised(before, ev[j].0, id@)
                            is Some));
                    }
                }
                assert forall|j: int| i + 1 <= j < ev.len() implies self.index@.contains_key(
                    (#[trigger] ev[j]).0,
                ) && self.index@[ev[j].0] == before[ev[j].0] by {
                    assert(ev[i as int].0 != ev[j].0);
                    assert(idx_before.contains_key(ev[j].0));
                }
            }
            i += 1;
        }
        proof {
            assert forall|k: Seq<u8>|
                (#[trigger] self.index@.contains_key(k)) == (excised(before, k, id@) is Some) && (
                self.index@.contains_key(k) ==> self.index@[k] == excised(
                    before,
                    k,
                    id@,
                )->0) by {
                if before.contains_key(k) {
                    let j = choose|j: int| 0 <= j < ev.len() && (#[trigger] ev[j]).0 == k;
                    assert(ev[j].0 == k);
                }
            }
        }
    }

    /// The entry stored for `id`.
    pub fn get_vector(&self, id: &str) -> (r: Result<Option<VectorEntry>>)
        ensures
            match r {
                Ok(Some(e)) => self.entry(id@) == Some(e@),
                Ok(None) => !self.vectors@.contains_key(key_of(id@)),
                Err(e) => self.vectors@.contains_key(key_of(id@)) && self.entry(id@) is None && e@
                    == corrupt("get_vector"@),
            },
    {
        let key: Vec<u8> = write_text_field(id);
        match region_get(&self.vectors, &key) {
            Some(bytes) => match decode_entry(bytes.as_slice()) {
                Some(e) => Ok(Some(e)),
                None => Err(OpenMemoryError::storage("Stored value is corrupt", "get_vector")),
            },
            None => Ok(None),
        }
    }

    /// The number of stored vectors.
    pub fn get_vector_count(&self) -> (n: usize)
        ensures
            n == self.vectors@.dom().len() || (n == usize::MAX && self.vectors@.dom().len()
                > usize::MAX),
    {
        let n: u64 = region_len(&self.vectors);
        if n > usize::MAX as u64 {
            usize::MAX
        } else {
            n as usize
        }
    }

    /// Replaces the settings. The dimension is fixed while vectors are
    /// stored: settings with another dimension are then refused and nothing
    /// changes.
    pub fn update_config(&mut self, config: VectorStoreConfig) -> (r: Result<()>)
        ensures
            match r {
                Ok(_) => (config.dimension == old(self).config.dimension || old(self).vectors@
                    == crate::region::no_entries()) && final(self).config == config,
                Err(e) => config.dimension != old(self).config.dimension && old(self).vectors@
                    != crate::region::no_entries() && e@ == dimension_fixed() && final(self).config
                    == old(self).config,
            },
            final(self).vectors@ == old(self).vectors@,
            final(self).index@ == old(self).index@,
            old(self).dimensions_hold() ==> final(self).dimensions_hold(),
    {
        if config.dimension != self.config.dimension && region_len(&self.vectors) != 0 {
            return Err(
                OpenMemoryError::validation(
                    "Dimension cannot change while vectors are stored",
                    Some("dimension"),
                ),
            );
        }
        self.config = config;
        Ok(())
    }

    /// The settings.
    pub fn get_config(&self) -> (c: VectorStoreConfig)
        ensures
            c == self.config,
    {
        self.config
    }

    /// The entries that read, in the order of their keys.
    pub fn entries(&self) -> (r: Vec<VectorEntry>)
        ensures
            exists|listing: Seq<(Seq<u8>, Seq<u8>)>|
                lists(listing, self.vectors@) && #[trigger] readable(listing, entry_reader())
                    == entry_views(r@),
    {
        let entries: Vec<(Vec<u8>, Vec<u8>)> = region_entries(&self.vectors);
        let ghost ev = entries_view(entries@);
        let mut out: Vec<VectorEntry> = Vec::new();
        let mut i: usize = 0;
        assert(entry_views(out@) =~= readable(ev.take(0), entry_reader()));
        while i < entries.len()
            invariant
                i <= entries.len(),
                ev == entries_view(entries@),
                entry_views(out@) == readable(ev.take(i as int), entry_reader()),
            decreases entries.len() - i,
        {
            assert(ev[i as int] == (entries@[i as int].0@, entries@[i as int].1@));
            proof {
                lemma_readable_step(ev, i as int, entry_reader());
            }
            let ghost before = out@;
            match decode_entry(entries[i].1.as_slice()) {
                Some(e) => {
                    out.push(e);
                    assert(entry_views(out@) =~= entry_views(before).push(e@));
                },
                None => {},
            }
            i += 1;
        }
        assert(ev.take(entries.len() as int) == ev);
        out
    }

    /// Counts and norms of the stored vectors.
    pub fn get_statistics(&self) -> (s: VectorStoreStats)
        ensures
            s.dimension == self.config.dimension,
            s.similarity_function == self.config.similarity_function,
            s.total_vectors == self.vectors@.dom().len() || (s.total_vectors == usize::MAX
                && self.vectors@.dom().len() > usize::MAX),
            exists|listing: Seq<(Seq<u8>, Seq<u8>)>|
                lists(listing, self.vectors@) && #[trigger] readable(
                    listing,
                    entry_reader(),
                ).map_values(norm_of()) == s.norms@,
    {
        let entries: Vec<VectorEntry> = self.entries();
        let total: usize = self.get_vector_count();
        let mut norms: Vec<u32> = Vec::new();
        let mut i: usize = 0;
        while i < entries.len()
            invariant
                i <= entries@.len(),
                norms@ == entry_views(entries@).take(i as int).map_values(norm_of()),
            decreases entries@.len() - i,
        {
            norms.push(entries[i].norm);
            proof {
                crate::seqs::lemma_map_step(entry_views(entries@), i as int, norm_of());
                assert(entry_views(entries@)[i as int] == entries@[i as int]@);
            }
            i += 1;
        }
        assert(entry_views(entries@).take(entries@.len() as int) == entry_views(entries@));
        VectorStoreStats {
            total_vectors: total,
            dimension: self.config.dimension,
            similarity_function: self.config.similarity_function,
            norms,
        }
    }
}

/// The norm of an entry.
pub open spec fn norm_of() -> spec_fn(VectorEntryView) -> u32 {
    |e: VectorEntryView| e.norm
}

/// The candidates that a search keeps: those whose score reaches the
/// threshold.
pub open spec fn reaches(threshold: Score) -> spec_fn(ScoredId) -> bool {
    |c: ScoredId| c.score >= threshold
}

/// The candidates whose score reaches the threshold, in their order.
pub fn keep_reaching(candidates: Vec<ScoredId>, threshold: Score) -> (r: Vec<ScoredId>)
    ensures
        r@ == candidates@.filter(reaches(threshold)),
{
    let mut src: Vec<ScoredId> = candidates;
    let ghost all = src@;
    let mut out: Vec<ScoredId> = Vec::new();
    proof {
        reveal(Seq::filter);
        assert(all.take(0).filter(reaches(threshold)) == Seq::<ScoredId>::empty());
    }
    let n: usize = src.len();
    let mut i: usize = 0;
    // Walk from the back so that each item can be moved out, then restore the order.
    let mut rev: Vec<ScoredId> = Vec::new();
    while src.len() > 0
        invariant
            src@.len() + rev@.len() == all.len(),
            src@ == all.take(src@.len() as int),
            forall|k: int| 0 <= k < rev@.len() ==> rev@[k] == all[all.len() - 1 - k],
        decreases src@.len(),
    {
        let x: ScoredId = src.pop().unwrap();
        rev.push(x);
    }
    while rev.len() > 0
        invariant
            i + rev@.len() == all.len(),
            all.len() <= usize::MAX,
            forall|k: int| 0 <= k < rev@.len() ==> rev@[k] == all[all.len() - 1 - k],
            out@ == all.take(i as int).filter(reaches(threshold)),
        decreases rev@.len(),
    {
        let x: ScoredId = rev.pop().unwrap();
        proof {
            assert(x == all[i as int]);
            lemma_filter_step(all, i as int, reaches(threshold));
        }
        if x.score >= threshold {
            out.push(x);
        }
        i += 1;
    }
    assert(all.take(all.len() as int) == all);
    out
}

/// The first `limit` items.
pub fn keep_first<T>(v: Vec<T>, limit: usize) -> (r: Vec<T>)
    ensures
        r@ == prefix(v@, limit as nat),
{
    let mut r: Vec<T> = v;
    if limit < r.len() {
        r.truncate(limit);
    }
    r
}

/// What a search returns for scored candidates: those that reach the
/// threshold, in rank order (the higher score first, the smaller id first
/// among equal scores), cut to `limit`.
pub open spec fn is_ranking(
    result: Seq<ScoredId>,
    candidates: Seq<ScoredId>,
    threshold: Score,
    limit: nat,
) -> bool {
    exists|sorted: Seq<ScoredId>|
        ranked(sorted) && #[trigger] sorted.to_multiset() == candidates.filter(
            reaches(threshold),
        ).to_multiset() && result == prefix(sorted, limit)
}

/// A search is determined by its candidates: where no two candidates have
/// the same id and score, any two rankings of them are the same.
pub proof fn lemma_ranking_determined(
    a: Seq<ScoredId>,
    b: Seq<ScoredId>,
    candidates: Seq<ScoredId>,
    threshold: Score,
    limit: nat,
)
    requires
        is_ranking(a, candidates, threshold, limit),
        is_ranking(b, candidates, threshold, limit),
        distinct_ranks(candidates),
    ensures
        a == b,
{
    let kept = candidates.filter(reaches(threshold));
    let sa = choose|sorted: Seq<ScoredId>|
        ranked(sorted) && #[trigger] sorted.to_multiset() == kept.to_multiset() && a == prefix(
            sorted,
            limit,
        );
    let sb = choose|sorted: Seq<ScoredId>|
        ranked(sorted) && #[trigger] sorted.to_multiset() == kept.to_multiset() && b == prefix(
            sorted,
            limit,
        );
    lemma_distinct_ranks_filtered(candidates, reaches(threshold));
    lemma_distinct_ranks_permuted(kept, sa);
    lemma_ranked_unique(sa, sb);
}

/// The id of a candidate.
pub open spec fn id_of() -> spec_fn(ScoredId) -> Seq<char> {
    |c: ScoredId| c.id@
}

/// One of the candidates has the id.
pub open spec fn named(candidates: Seq<ScoredId>, id: Seq<char>) -> bool {
    exists|i: int| 0 <= i < candidates.len() && (#[trigger] candidates[i]).id@ == id
}

/// The candidates that a search admits, in their order: those whose id has
/// a stored entry, and of several candidates of one id the first.
pub open spec fn admitted(entries: Map<Seq<u8>, Seq<u8>>, candidates: Seq<ScoredId>) -> Seq<
    ScoredId,
>
    decreases candidates.len(),
{
    if candidates.len() == 0 {
        Seq::empty()
    } else {
        let rest = admitted(entries, candidates.drop_last());
        let c = candidates.last();
        if entries.contains_key(key_of(c.id@)) && !named(rest, c.id@) {
            rest.push(c)
        } else {
            rest
        }
    }
}

/// No two admitted candidates have the same id, so no two have the same
/// rank, and each has a stored entry.
pub proof fn lemma_admitted_distinct(entries: Map<Seq<u8>, Seq<u8>>, candidates: Seq<ScoredId>)
    ensures
        distinct_ranks(admitted(entries, candidates)),
        forall|i: int, j: int|
            0 <= i < j < admitted(entries, candidates).len() ==> (#[trigger] admitted(
                entries,
                candidates,
            )[i]).id@ != (#[trigger] admitted(entries, candidates)[j]).id@,
        forall|i: int|
            0 <= i < admitted(entries, candidates).len() ==> entries.contains_key(
                key_of((#[trigger] admitted(entries, candidates)[i]).id@),
            ),
    decreases candidates.len(),
{
    let a = admitted(entries, candidates);
    if candidates.len() > 0 {
        let rest = admitted(entries, candidates.drop_last());
        lemma_admitted_distinct(entries, candidates.drop_last());
        let c = candidates.last();
        assert forall|i: int, j: int| 0 <= i < j < a.len() implies (#[trigger] a[i]).id@ != (
        #[trigger] a[j]).id@ by {
            if j < rest.len() {
                assert(a[i] == rest[i] && a[j] == rest[j]);
            } else {
                assert(a[i] == rest[i]);
            }
        }
        assert forall|i: int| 0 <= i < a.len() implies entries.contains_key(
            key_of((#[trigger] a[i]).id@),
        ) by {
            if i < rest.len() {
                assert(a[i] == rest[i]);
            }
        }
    }
    assert forall|i: int, j: int| 0 <= i < j < a.len() implies !crate::ranking::same_rank(
        #[trigger] a[i],
        #[trigger] a[j],
    ) by {
        if a[i].tie() == a[j].tie() {
            crate::metadata::lemma_key_bytes(a[i].id@, a[j].id@);
        }
    }
}

/// A ranking of candidates of distinct ids holds no id twice.
pub proof fn lemma_ranking_distinct_ids(
    r: Seq<ScoredId>,
    candidates: Seq<ScoredId>,
    threshold: Score,
    limit: nat,
)
    requires
        is_ranking(r, candidates, threshold, limit),
        crate::seqs::distinct_by(candidates, id_of()),
    ensures
        crate::seqs::distinct_by(r, id_of()),
{
    let kept = candidates.filter(reaches(threshold));
    let sorted = choose|sorted: Seq<ScoredId>|
        ranked(sorted) && #[trigger] sorted.to_multiset() == kept.to_multiset() && r == prefix(
            sorted,
            limit,
        );
    crate::seqs::lemma_distinct_filter(candidates, id_of(), reaches(threshold));
    crate::seqs::lemma_distinct_permuted(kept, sorted, id_of());
    crate::seqs::lemma_distinct_prefix(sorted, limit, id_of());
}

/// The candidates that a store admits hold no id twice.
pub proof fn lemma_admitted_ids(entries: Map<Seq<u8>, Seq<u8>>, candidates: Seq<ScoredId>)
    ensures
        crate::seqs::distinct_by(admitted(entries, candidates), id_of()),
{
    lemma_admitted_distinct(entries, candidates);
    let a = admitted(entries, candidates);
    assert forall|i: int, j: int| 0 <= i < j < a.len() implies (id_of())(#[trigger] a[i]) != (
    id_of())(#[trigger] a[j]) by {
        assert(a[i].id@ != a[j].id@);
    }
}

/// A search is determined by what it is given: any two rankings of the
/// candidates that a store admits are the same.
pub proof fn lemma_search_similar_determined(
    entries: Map<Seq<u8>, Seq<u8>>,
    candidates: Seq<ScoredId>,
    a: Seq<ScoredId>,
    b: Seq<ScoredId>,
    threshold: Score,
    limit: nat,
)
    requires
        is_ranking(a, admitted(entries, candidates), threshold, limit),
        is_ranking(b, admitted(entries, candidates), threshold, limit),
    ensures
        a == b,
{
    lemma_admitted_distinct(entries, candidates);
    lemma_ranking_determined(a, b, admitted(entries, candidates), threshold, limit);
}

/// Of two results of a search, the one with the higher score stands first.
pub proof fn lemma_higher_score_first(found: Seq<ScoredId>, i: int, j: int)
    requires
        ranked(found),
        0 <= i < found.len(),
        0 <= j < found.len(),
        found[i].score > found[j].score,
    ensures
        i < j,
{
    lemma_heavier_first(found, i, j);
}

/// Ranks scored candidates: keeps those that reach the threshold, orders
/// them by falling score and, among equal scores, rising id, and keeps the
/// first `limit`.
pub fn rank_candidates(candidates: Vec<ScoredId>, threshold: Score, limit: usize) -> (r: Vec<
    ScoredId,
>)
    ensures
        is_ranking(r@, candidates@, threshold, limit as nat),
        ranked(r@),
        r@.len() <= limit,
        crate::seqs::distinct_by(candidates@, id_of()) ==> crate::seqs::distinct_by(r@, id_of()),
{
    let kept: Vec<ScoredId> = keep_reaching(candidates, threshold);
    let ghost kv = kept@;
    let sorted: Vec<ScoredId> = sort_ranked(kept);
    let ghost s = sorted@;
    let r = keep_first(sorted, limit);
    proof {
        if crate::seqs::distinct_by(candidates@, id_of()) {
            crate::seqs::lemma_distinct_filter(candidates@, id_of(), reaches(threshold));
            crate::seqs::lemma_distinct_permuted(kv, s, id_of());
            crate::seqs::lemma_distinct_prefix(s, limit as nat, id_of());
        }
        assert(ranked(s) && s.to_multiset() == candidates@.filter(reaches(threshold)).to_multiset()
            && r@ == prefix(s, limit as nat));
        assert forall|i: int, j: int| 0 <= i < j < r@.len() implies crate::ranking::before(
            #[trigger] r@[i],
            #[trigger] r@[j],
        ) by {
            assert(r@[i] == s[i] && r@[j] == s[j]);
        }
    }
    r
}

impl AdvancedVectorStore {
    /// The candidates that the store admits: those whose id has a stored
    /// entry, and of several candidates of one id the first.
    pub fn take_in(&self, candidates: Vec<ScoredId>) -> (r: Vec<ScoredId>)
        ensures
            r@ == admitted(self.vectors@, candidates@),
    {
        let mut src: Vec<ScoredId> = candidates;
        let ghost all = src@;
        let mut keep: Vec<bool> = Vec::new();
        let mut seen: Vec<String> = Vec::new();
        let mut i: usize = 0;
        assert(all.take(0) =~= Seq::<ScoredId>::empty());
        while i < src.len()
            invariant
                i <= src@.len(),
                src@ == all,
                keep@.len() == i,
                masked(all.take(i as int), keep@) == admitted(self.vectors@, all.take(i as int)),
                strs(seen@).len() == masked(all.take(i as int), keep@).len(),
                forall|k: int|
                    0 <= k < strs(seen@).len() ==> #[trigger] strs(seen@)[k] == masked(
                        all.take(i as int),
                        keep@,
                    )[k].id@,
            decreases src@.len() - i,
        {
            let ghost rest = admitted(self.vectors@, all.take(i as int));
            let ghost before_keep = keep@;
            let ghost before_seen = strs(seen@);
            let key: Vec<u8> = write_text_field(src[i].id.as_str());
            let stored: bool = region_get(&self.vectors, &key).is_some();
            let known: bool = ids_contain(&seen, src[i].id.as_str());
            proof {
                assert(all.take(i + 1).drop_last() == all.take(i as int));
                assert(all.take(i + 1).last() == all[i as int]);
                if known {
                    let k = choose|k: int|
                        0 <= k < before_seen.len() && before_seen[k] == all[i as int].id@;
                    assert(rest[k].id@ == all[i as int].id@);
                }
                if named(rest, all[i as int].id@) {
                    let k = choose|k: int|
                        0 <= k < rest.len() && (#[trigger] rest[k]).id@ == all[i as int].id@;
                    assert(before_seen[k] == all[i as int].id@);
                }
                assert(known == named(rest, all[i as int].id@));
            }
            let take: bool = stored && !known;
            if take {
                let ghost sb = seen@;
                seen.push(str_to_string(src[i].id.as_str()));
                assert(strs(seen@) == strs(sb).push(all[i as int].id@));
            }
            keep.push(take);
            proof {
                assert(keep@.drop_last() == before_keep);
                assert(masked(all.take(i + 1), keep@) == if take {
                    rest.push(all[i as int])
                } else {
                    rest
                });
            }
            i += 1;
        }
        assert(all.take(src@.len() as int) == all);
        let r = keep_marked(src, &keep);
        r
    }

    /// Searches with the scores that the caller computed for the stored
    /// vectors.
    ///
    /// A query of another dimension than the store's is rejected. Otherwise
    /// the candidates that the store admits and whose score reaches
    /// `threshold` (or, without one, the threshold of the settings) are
    /// returned in rank order, at most `limit` of them. No id is returned
    /// twice.
    pub fn search_similar(
        &self,
        query_vector: &[u32],
        scores: Vec<ScoredId>,
        limit: usize,
        threshold: Option<Score>,
    ) -> (r: Result<Vec<ScoredId>>)
        ensures
            match r {
                Ok(found) => query_vector@.len() == self.config.dimension && is_ranking(
                    found@,
                    admitted(self.vectors@, scores@),
                    match threshold {
                        Some(t) => t,
                        None => self.config.index_threshold,
                    },
                    limit as nat,
                ) && ranked(found@) && found@.len() <= limit && crate::seqs::distinct_by(
                    found@,
                    id_of(),
                ),
                Err(e) => query_vector@.len() != self.config.dimension && e@ == wrong_dimension(),
            },
    {
        proof {
            lemma_admitted_distinct(self.vectors@, scores@);
            let a = admitted(self.vectors@, scores@);
            assert(crate::seqs::distinct_by(a, id_of())) by {
                assert forall|i: int, j: int| 0 <= i < j < a.len() implies (id_of())(
                    #[trigger] a[i],
                ) != (id_of())(#[trigger] a[j]) by {
                    assert(a[i].id@ != a[j].id@);
                }
            }
        }
        if query_vector.len() != self.config.dimension {
            return Err(
                OpenMemoryError::validation(
                    "Vector dimension does not match expected dimension",
                    Some("vector"),
                ),
            );
        }
        let t: Score = match threshold {
            Some(t) => t,
            None => self.config.index_threshold,
        };
        Ok(rank_candidates(self.take_in(scores), t, limit))
    }
}

} // verus!
