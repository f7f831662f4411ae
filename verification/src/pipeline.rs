//! The write pipeline: from a checked request to the stored entity, with
//! every index brought up to date.
//!
//! The state of the service is one [`Core`] value. The embedding of a
//! memory comes from outside: a request is prepared, the caller has the
//! prepared content embedded, and the memory is added with what came back.

use crate::clustering::ClusteringEngine;
use crate::conversations::{conversation_at, save_conversation, save_error};
use crate::errors::{ErrorView, OpenMemoryError, Result};
use crate::region::RegionManager;
use crate::storage::{
    backed, delete_memory, index_list, index_with_row, init_storage, owned, put_error, row_fits,
    rows_with, store_memory, stored_form, vector_due, Store,
};
use crate::suggestions::SuggestionsEngine;
use crate::text::{str_to_string, str_trim, trim, word_count, words};
use crate::tokens::{create_access_token, issued, life_allowed, token_at, token_fits};
use crate::types::{
    anonymous_bytes, pairs, strs, AccessToken, AddMemoryRequest, AddMemoryResponse, Conversation,
    ConversationView, CreateTokenRequest, Memory, MemoryView, Permission, Principal,
    SaveConversationRequest,
};
use crate::utils::{generate_uuid, id_seed, id_text, sha256_digest, IdCounter};
use crate::validation::{
    add_memory_rejection, create_token_rejection, rejected, sanitize_content, sanitize_metadata,
    sanitize_tags, sanitized_content, sanitized_metadata, sanitized_tags,
    save_conversation_rejection, validate_add_memory_request, validate_create_token_request,
    search_rejection, validate_save_conversation_request, validate_search_request,
    validate_user_quota, SearchRequest, MAX_MEMORIES_PER_USER, MAX_MEMORY_CONTENT_SIZE,
    MAX_PAGE_LIMIT,
};
use crate::search::{
    generate_embedding_and_search, keyword_outcome, opt_strs, semantic_outcome, EmbeddedQuery,
};
use crate::types::SearchResult;
use crate::vector_store::{
    corrupt, key_of, too_large, vectors_with, AdvancedVectorStore, VectorStoreConfig,
};
use vstd::prelude::*;

verus! {

/// The state of the service.
pub struct Core {
    pub store: Store,
    pub vectors: AdvancedVectorStore,
    pub suggestions: SuggestionsEngine,
    pub clusters: ClusteringEngine,
    pub ids: IdCounter,
}

/// An embedding as the caller computed it: the coordinates and their norm
/// as float bit patterns, and the bucket of the coarse index.
pub struct Embedded {
    pub vector: Vec<u32>,
    pub norm: u32,
    pub bucket: u64,
}

/// A memory request that passed the checks, in sanitized form.
pub struct PreparedMemory {
    pub content: String,
    pub metadata: Vec<(String, String)>,
    pub tags: Vec<String>,
}

/// The refusal of the anonymous caller.
pub open spec fn anonymous_refused() -> ErrorView {
    ErrorView::Authentication {
        message: "Anonymous callers cannot own entities"@,
        auth_type: "anonymous"@,
    }
}

/// The refusal of a user who owns as many memories as a user may.
pub open spec fn quota_reached() -> ErrorView {
    rejected("Memory limit exceeded (max 10000 memories per user)"@, "user_quota"@)
}

/// The answer that hides a memory from a caller who may not delete it.
pub open spec fn memory_not_found(id: Seq<char>) -> ErrorView {
    ErrorView::NotFound { resource_type: "memory"@, resource_id: id }
}

/// The sanitized metadata of a request.
pub open spec fn prepared_metadata(req: AddMemoryRequest) -> Seq<(Seq<char>, Seq<char>)> {
    match req.metadata {
        Some(m) => sanitized_metadata(pairs(m@)),
        None => Seq::empty(),
    }
}

/// The sanitized tags of a request.
pub open spec fn prepared_tags(req: AddMemoryRequest) -> Seq<Seq<char>> {
    match req.tags {
        Some(t) => sanitized_tags(strs(t@)),
        None => Seq::empty(),
    }
}

impl Core {
    /// The invariants that every committed write keeps: every memory is in
    /// the ids of its owner, every vector has the dimension of the store,
    /// every vector belongs to a stored memory, and the engines and the
    /// lists of ids hold each key once.
    pub open spec fn consistent(&self) -> bool {
        &&& self.store.memories_indexed()
        &&& self.vectors.dimensions_hold()
        &&& backed(self.vectors.vectors@, self.store.memories@)
        &&& self.suggestions.wf()
        &&& self.clusters.wf()
        &&& crate::storage::ids_once(self.store.user_memories@)
        &&& crate::storage::ids_once(self.store.user_conversations@)
    }

    /// A new service without entities, with the categories that come with
    /// the clustering engine, if the sub-regions are all still to be had.
    pub fn new(manager: &mut RegionManager) -> (c: Option<Self>)
        ensures
            c is Some == (crate::storage::store_regions_free(*old(manager)) && old(manager).free(
                crate::region::REGION_VECTORS,
            ) && old(manager).free(crate::region::REGION_VECTOR_INDEX)),
            c is None ==> *final(manager) == *old(manager),
            c matches Some(core) ==> core.consistent() && core.store.memories@ == Map::<
                Seq<u8>,
                Seq<u8>,
            >::empty() && core.store.access_tokens@ == Map::<Seq<u8>, Seq<u8>>::empty()
                && core.vectors.vectors@ == Map::<Seq<u8>, Seq<u8>>::empty() && core.ids.count == 0,
    {
        if !crate::storage::regions_free(manager) || !manager.is_free(
            crate::region::REGION_VECTORS,
        ) || !manager.is_free(crate::region::REGION_VECTOR_INDEX) {
            return None;
        }
        let ghost m0 = *manager;
        let vectors: AdvancedVectorStore = match AdvancedVectorStore::init(manager) {
            Some(v) => v,
            None => {
                return None;
            },
        };
        proof {
            lemma_free_after_both(m0, *manager, crate::region::REGION_MEMORIES);
            lemma_free_after_both(m0, *manager, crate::region::REGION_USER_MEMORIES);
            lemma_free_after_both(m0, *manager, crate::region::REGION_CONVERSATIONS);
            lemma_free_after_both(m0, *manager, crate::region::REGION_USER_CONVERSATIONS);
            lemma_free_after_both(m0, *manager, crate::region::REGION_USER_CONFIG);
            lemma_free_after_both(m0, *manager, crate::region::REGION_ACCESS_TOKENS);
        }
        let store: Store = match Store::new(manager) {
            Some(s) => s,
            None => {
                return None;
            },
        };
        let mut clusters: ClusteringEngine = ClusteringEngine::new();
        clusters.init_categories();
        Some(
            Core {
                store,
                vectors,
                suggestions: SuggestionsEngine::new(),
                clusters,
                ids: IdCounter::new(),
            },
        )
    }
}

impl Core {
    /// The service over what the sub-regions hold, as in a process that
    /// starts after another has written them, if the sub-regions are all
    /// still to be had. The suggestions, the clusters and the counter of
    /// ids start anew.
    pub fn open(manager: &mut RegionManager, config: VectorStoreConfig) -> (c: Option<Self>)
        ensures
            c is Some == (crate::storage::store_regions_free(*old(manager)) && old(manager).free(
                crate::region::REGION_VECTORS,
            ) && old(manager).free(crate::region::REGION_VECTOR_INDEX)),
            c is None ==> *final(manager) == *old(manager),
            c matches Some(core) ==> core.vectors.config == config && core.ids.count == 0,
    {
        if !crate::storage::regions_free(manager) || !manager.is_free(
            crate::region::REGION_VECTORS,
        ) || !manager.is_free(crate::region::REGION_VECTOR_INDEX) {
            return None;
        }
        let ghost m0 = *manager;
        let vectors: AdvancedVectorStore = match AdvancedVectorStore::open(manager, config) {
            Some(v) => v,
            None => {
                return None;
            },
        };
        proof {
            lemma_free_after_both(m0, *manager, crate::region::REGION_MEMORIES);
            lemma_free_after_both(m0, *manager, crate::region::REGION_USER_MEMORIES);
            lemma_free_after_both(m0, *manager, crate::region::REGION_CONVERSATIONS);
            lemma_free_after_both(m0, *manager, crate::region::REGION_USER_CONVERSATIONS);
            lemma_free_after_both(m0, *manager, crate::region::REGION_USER_CONFIG);
            lemma_free_after_both(m0, *manager, crate::region::REGION_ACCESS_TOKENS);
        }
        let store: Store = match init_storage(manager) {
            Some(s) => s,
            None => {
                return None;
            },
        };
        let mut clusters: ClusteringEngine = ClusteringEngine::new();
        clusters.init_categories();
        Some(
            Core {
                store,
                vectors,
                suggestions: SuggestionsEngine::new(),
                clusters,
                ids: IdCounter::new(),
            },
        )
    }

    /// The service after a restart: the durable maps are read again and
    /// hold what they held; the suggestions, the clusters and the counter
    /// of ids start anew.
    pub fn restart(self) -> (c: Core)
        ensures
            c.store.memories@ == self.store.memories@,
            c.store.user_memories@ == self.store.user_memories@,
            c.store.conversations@ == self.store.conversations@,
            c.store.user_conversations@ == self.store.user_conversations@,
            c.store.user_config@ == self.store.user_config@,
            c.store.access_tokens@ == self.store.access_tokens@,
            c.vectors.vectors@ == self.vectors.vectors@,
            c.vectors.index@ == self.vectors.index@,
            c.vectors.config == self.vectors.config,
            c.ids.count == 0,
            self.consistent() ==> c.consistent(),
    {
        let mut clusters: ClusteringEngine = ClusteringEngine::new();
        clusters.init_categories();
        Core {
            store: self.store.reopen(),
            vectors: self.vectors.reopen(),
            suggestions: SuggestionsEngine::new(),
            clusters,
            ids: IdCounter::new(),
        }
    }
}

proof fn lemma_free_after_both(before: RegionManager, after: RegionManager, id: u8)
    requires
        after.claimed() == before.claimed().push(crate::region::REGION_VECTORS).push(
            crate::region::REGION_VECTOR_INDEX,
        ),
        before.free(id),
        id != crate::region::REGION_VECTORS,
        id != crate::region::REGION_VECTOR_INDEX,
    ensures
        after.free(id),
{
    let s = after.claimed();
    if s.contains(id) {
        let j = choose|j: int| 0 <= j < s.len() && s[j] == id;
        assert(before.claimed()[j] == id);
    }
}

/// Checks a request to add a memory and brings it into sanitized form.
///
/// The anonymous caller is refused; then a request that does not pass
/// validation, with its rejection; then a caller who owns as many memories
/// as a user may. Ids of the caller that do not read are reported.
pub fn prepare_memory(store: &Store, caller: &Principal, req: &AddMemoryRequest) -> (r: Result<
    PreparedMemory,
>)
    ensures
        match r {
            Ok(p) => caller@ != anonymous_bytes() && add_memory_rejection(*req) is None && owned(
                store.user_memories@,
                caller@,
            ) is Some && owned(store.user_memories@, caller@)->0.len() < MAX_MEMORIES_PER_USER
                && p.content@ == sanitized_content(req.content@, MAX_MEMORY_CONTENT_SIZE as nat)
                && pairs(p.metadata@) == prepared_metadata(*req) && strs(p.tags@) == prepared_tags(
                *req,
            ),
            Err(e) => if caller@ == anonymous_bytes() {
                e@ == anonymous_refused()
            } else if add_memory_rejection(*req) is Some {
                add_memory_rejection(*req) == Some(e@)
            } else if owned(store.user_memories@, caller@) is None {
                e@ == corrupt("prepare_memory"@)
            } else {
                owned(store.user_memories@, caller@)->0.len() >= MAX_MEMORIES_PER_USER && e@
                    == quota_reached()
            },
        },
{
    if caller.is_anonymous() {
        return Err(
            OpenMemoryError::authentication("Anonymous callers cannot own entities", "anonymous"),
        );
    }
    match validate_add_memory_request(req) {
        Ok(_) => {},
        Err(e) => {
            return Err(e);
        },
    }
    let ids: Vec<String> = match index_list(&store.user_memories, caller, "prepare_memory") {
        Ok(ids) => ids,
        Err(e) => {
            return Err(e);
        },
    };
    assert(strs(ids@).len() == ids@.len());
    match validate_user_quota(caller, ids.len()) {
        Ok(_) => {},
        Err(e) => {
            return Err(e);
        },
    }
    let content: String = sanitize_content(req.content.as_str(), MAX_MEMORY_CONTENT_SIZE);
    let metadata: Vec<(String, String)> = match &req.metadata {
        Some(m) => sanitize_metadata(m),
        None => {
            let v: Vec<(String, String)> = Vec::new();
            assert(pairs(v@) =~= Seq::<(Seq<char>, Seq<char>)>::empty());
            v
        },
    };
    let tags: Vec<String> = match &req.tags {
        Some(t) => sanitize_tags(t.as_slice()),
        None => {
            let v: Vec<String> = Vec::new();
            assert(strs(v@) =~= Seq::<Seq<char>>::empty());
            v
        },
    };
    Ok(PreparedMemory { content, metadata, tags })
}

/// The memory that adding a prepared request makes, before it is stored.
pub open spec fn new_memory(
    id: Seq<char>,
    caller: Seq<u8>,
    prepared: PreparedMemory,
    embedding: Seq<u32>,
    now: u64,
) -> MemoryView {
    MemoryView {
        id,
        user_id: caller,
        content: prepared.content@,
        embedding,
        metadata: pairs(prepared.metadata@),
        tags: strs(prepared.tags@),
        created_at: now,
        updated_at: now,
    }
}

/// The coordinates of an embedding, or none where there is no embedding.
pub open spec fn coordinates(e: Option<Embedded>) -> Seq<u32> {
    match e {
        Some(x) => x.vector@,
        None => Seq::empty(),
    }
}

/// The count of the service after it made an id.
pub open spec fn next_count(count: u64) -> u64 {
    if count == u64::MAX {
        0
    } else {
        (count + 1) as u64
    }
}

/// The id that the service makes for `caller` at `now`, its count being
/// `count` before.
pub open spec fn next_id(count: u64, now: u64, caller: Seq<u8>) -> Seq<char> {
    id_text(sha256_digest(id_seed(now, next_count(count), caller)))
}

/// The memory that adding a prepared request makes.
pub open spec fn added(
    count: u64,
    caller: Seq<u8>,
    prepared: PreparedMemory,
    embedding: Option<Embedded>,
    now: u64,
) -> MemoryView {
    new_memory(next_id(count, now, caller), caller, prepared, coordinates(embedding), now)
}

/// The norm that comes with an embedding.
pub open spec fn norm_given(e: Option<Embedded>) -> u32 {
    match e {
        Some(x) => x.norm,
        None => 0,
    }
}

/// Adds a prepared memory for `caller`.
///
/// The memory gets a new id made from the time, the counter of the service
/// and the caller. Without an embedding it is stored all the same, only
/// not found by vector search. A memory whose row is too long for the map
/// is refused and nothing but the counter changes. Ids of the caller that
/// do not read, or would grow too long, are reported when the memory is
/// stored.
pub fn add_memory(
    core: &mut Core,
    caller: &Principal,
    prepared: PreparedMemory,
    embedding: Option<Embedded>,
    now: u64,
) -> (r: Result<AddMemoryResponse>)
    ensures
        final(core).ids.count == next_count(old(core).ids.count),
        final(core).store.memories@ == rows_with(
            old(core).store.memories@,
            added(old(core).ids.count, caller@, prepared, embedding, now),
            now,
        ),
        final(core).store.user_memories@ == index_with_row(
            old(core).store.memories@,
            old(core).store.user_memories@,
            added(old(core).ids.count, caller@, prepared, embedding, now),
            now,
        ),
        match r {
            Ok(resp) => put_error(
                old(core).store.memories@,
                old(core).store.user_memories@,
                added(old(core).ids.count, caller@, prepared, embedding, now),
                now,
            ) is None && resp.id@ == next_id(old(core).ids.count, now, caller@) && resp.created_at
                == now && final(core).store.memory(resp.id@) == Some(
                stored_form(
                    old(core).store.memories@,
                    added(old(core).ids.count, caller@, prepared, embedding, now),
                    now,
                ),
            ) && owned(final(core).store.user_memories@, caller@) is Some && owned(
                final(core).store.user_memories@,
                caller@,
            )->0.contains(resp.id@),
            Err(e) => put_error(
                old(core).store.memories@,
                old(core).store.user_memories@,
                added(old(core).ids.count, caller@, prepared, embedding, now),
                now,
            ) == Some(e@),
        },
        r is Ok && old(core).consistent() ==> final(core).consistent(),
        if row_fits(
            old(core).store.memories@,
            added(old(core).ids.count, caller@, prepared, embedding, now),
            now,
        ) {
            final(core).suggestions.took_in(
                old(core).suggestions,
                strs(prepared.tags@),
                prepared.content@,
            )
        } else {
            final(core).suggestions == old(core).suggestions
        },
        final(core).vectors.vectors@ == if vector_due(
            old(core).store.memories@,
            added(old(core).ids.count, caller@, prepared, embedding, now),
            now,
        ) {
            vectors_with(
                old(core).vectors.vectors@,
                old(core).vectors.config.dimension,
                next_id(old(core).ids.count, now, caller@),
                coordinates(embedding),
                norm_given(embedding),
                now,
            )
        } else {
            old(core).vectors.vectors@
        },
{
    let id: String = generate_uuid(&mut core.ids, now, caller);
    let (vector, norm, bucket): (Vec<u32>, u32, u64) = match embedding {
        Some(e) => (e.vector, e.norm, e.bucket),
        None => (Vec::new(), 0, 0),
    };
    let memory = Memory {
        id,
        user_id: caller.duplicate(),
        content: prepared.content,
        embedding: vector,
        metadata: prepared.metadata,
        tags: prepared.tags,
        created_at: now,
        updated_at: now,
    };
    assert(memory@ == added(old(core).ids.count, caller@, prepared, embedding, now));
    let response_id: String = memory.id.clone();
    let r = store_memory(
        &mut core.store,
        &mut core.vectors,
        &mut core.suggestions,
        memory,
        norm,
        bucket,
        now,
    );
    match r {
        Ok(_) => Ok(AddMemoryResponse { id: response_id, created_at: now }),
        Err(e) => Err(e),
    }
}

/// Adds a prepared memory for `caller` only if it was embedded: the
/// failure of the embedding is handed back and nothing is stored.
pub fn add_memory_strict(
    core: &mut Core,
    caller: &Principal,
    prepared: PreparedMemory,
    embedding: Result<Embedded>,
    now: u64,
) -> (r: Result<AddMemoryResponse>)
    ensures
        embedding is Err ==> r is Err && r->Err_0 == embedding->Err_0 && final(core).store.memories@
            == old(core).store.memories@ && final(core).store.user_memories@ == old(core).store.user_memories@ && final(core).vectors.vectors@ == old(core).vectors.vectors@
            && final(core).ids == old(core).ids,
        embedding matches Ok(given) ==> final(core).store.memories@ == rows_with(
            old(core).store.memories@,
            added(old(core).ids.count, caller@, prepared, Some(given), now),
            now,
        ) && match r {
            Ok(resp) => put_error(
                old(core).store.memories@,
                old(core).store.user_memories@,
                added(old(core).ids.count, caller@, prepared, Some(given), now),
                now,
            ) is None && resp.id@ == next_id(old(core).ids.count, now, caller@)
                && final(core).store.memory(resp.id@) == Some(
                stored_form(
                    old(core).store.memories@,
                    added(old(core).ids.count, caller@, prepared, Some(given), now),
                    now,
                ),
            ),
            Err(e) => put_error(
                old(core).store.memories@,
                old(core).store.user_memories@,
                added(old(core).ids.count, caller@, prepared, Some(given), now),
                now,
            ) == Some(e@),
        },
        r is Ok && old(core).consistent() ==> final(core).consistent(),
{
    match embedding {
        Ok(e) => add_memory(core, caller, prepared, Some(e), now),
        Err(e) => Err(e),
    }
}

/// Deletes a memory for the caller of a request. A memory that is not
/// there and a memory of another owner are answered alike, so that
/// nothing is said of what others own.
pub fn handle_delete_memory(core: &mut Core, id: &str, caller: &Principal) -> (r: Result<()>)
    ensures
        match r {
            Ok(_) => old(core).store.memory(id@) is Some && old(core).store.memory(id@)->0.user_id
                == caller@ && final(core).store.memories@ == old(core).store.memories@.remove(
                key_of(id@),
            ) && final(core).vectors.vectors@ == old(core).vectors.vectors@.remove(key_of(id@)),
            Err(e) => final(core).store.memories@ == old(core).store.memories@ && final(core).vectors.vectors@ == old(core).vectors.vectors@ && (if !old(core).store.memories@.contains_key(key_of(id@)) {
                e@ == memory_not_found(id@)
            } else {
                match old(core).store.memory(id@) {
                    Some(m) => m.user_id != caller@ && e@ == memory_not_found(id@),
                    None => e@ == corrupt("delete_memory"@),
                }
            }),
        },
        old(core).consistent() ==> final(core).consistent(),
{
    match delete_memory(&mut core.store, &mut core.vectors, id, caller) {
        Ok(true) => Ok(()),
        Ok(false) => Err(OpenMemoryError::not_found("memory", id)),
        Err(e) => {
            match &e {
                OpenMemoryError::Authentication { .. } => Err(
                    OpenMemoryError::not_found("memory", id),
                ),
                _ => Err(e),
            }
        },
    }
}

/// The number of words as it is stored: at most the largest 32-bit
/// number.
pub open spec fn stored_word_count(content: Seq<char>) -> u32 {
    if words(content).len() > u32::MAX {
        u32::MAX
    } else {
        words(content).len() as u32
    }
}

/// The source of a conversation that names none.
pub open spec fn source_of(req: SaveConversationRequest) -> Seq<char> {
    match req.source {
        Some(s) => s@,
        None => "api"@,
    }
}

/// The conversation that saving a request makes.
pub open spec fn saved(count: u64, caller: Seq<u8>, req: SaveConversationRequest, now: u64) -> ConversationView {
    ConversationView {
        id: next_id(count, now, caller),
        user_id: caller,
        title: trim(req.title@),
        content: trim(req.content@),
        source: source_of(req),
        metadata: match req.metadata {
            Some(m) => crate::metadata::in_key_order(pairs(m@)),
            None => Seq::empty(),
        },
        word_count: stored_word_count(req.content@),
        created_at: now,
        updated_at: now,
    }
}

/// Saves a conversation for `caller`: a request that passes validation is
/// stored under a new id, with title and content trimmed and the words of
/// the content counted.
pub fn handle_save_conversation(
    core: &mut Core,
    caller: &Principal,
    req: &SaveConversationRequest,
    now: u64,
) -> (r: Result<Conversation>)
    ensures
        final(core).store.memories@ == old(core).store.memories@,
        final(core).store.user_memories@ == old(core).store.user_memories@,
        final(core).vectors == old(core).vectors,
        final(core).suggestions == old(core).suggestions,
        final(core).clusters == old(core).clusters,
        old(core).consistent() ==> final(core).consistent(),
        match r {
            Ok(c) => caller@ != anonymous_bytes() && save_conversation_rejection(*req) is None
                && c@ == saved(old(core).ids.count, caller@, *req, now) && save_error(
                old(core).store.user_conversations@,
                c@,
            ) is None && conversation_at(final(core).store, c@.id) == Some(c@) && owned(
                final(core).store.user_conversations@,
                caller@,
            ) is Some && owned(final(core).store.user_conversations@, caller@)->0.contains(c@.id),
            Err(e) => if caller@ == anonymous_bytes() {
                e@ == anonymous_refused() && final(core).store.conversations@ == old(core).store.conversations@
            } else if save_conversation_rejection(*req) is Some {
                save_conversation_rejection(*req) == Some(e@) && final(core).store.conversations@
                    == old(core).store.conversations@
            } else {
                save_error(
                    old(core).store.user_conversations@,
                    saved(old(core).ids.count, caller@, *req, now),
                ) == Some(e@)
            },
        },
{
    if caller.is_anonymous() {
        return Err(
            OpenMemoryError::authentication("Anonymous callers cannot own entities", "anonymous"),
        );
    }
    match validate_save_conversation_request(req) {
        Ok(_) => {},
        Err(e) => {
            return Err(e);
        },
    }
    let id: String = generate_uuid(&mut core.ids, now, caller);
    let counted: usize = word_count(req.content.as_str());
    let count: u32 = if counted > 0xFFFF_FFFF {
        0xFFFF_FFFF
    } else {
        counted as u32
    };
    let metadata: Vec<(String, String)> = match &req.metadata {
        Some(m) => crate::metadata::order_pairs(m),
        None => {
            let v: Vec<(String, String)> = Vec::new();
            assert(pairs(v@) =~= Seq::<(Seq<char>, Seq<char>)>::empty());
            v
        },
    };
    let source: String = match &req.source {
        Some(s) => s.clone(),
        None => str_to_string("api"),
    };
    let conversation = Conversation {
        id,
        user_id: caller.duplicate(),
        title: str_trim(req.title.as_str()),
        content: str_trim(req.content.as_str()),
        source,
        metadata,
        word_count: count,
        created_at: now,
        updated_at: now,
    };
    let copy = Conversation {
        id: conversation.id.clone(),
        user_id: conversation.user_id.duplicate(),
        title: conversation.title.clone(),
        content: conversation.content.clone(),
        source: conversation.source.clone(),
        metadata: crate::types::clone_pairs(&conversation.metadata),
        word_count: conversation.word_count,
        created_at: now,
        updated_at: now,
    };
    let ghost before_ids = owned(core.store.user_conversations@, caller@);
    let ghost idv = conversation.id@;
    proof {
        if req.metadata is Some {
            crate::metadata::lemma_in_key_order_idempotent(pairs(req.metadata->0@));
        } else {
            assert(crate::metadata::in_key_order(conversation@.metadata)
                == conversation@.metadata);
        }
    }
    let r = save_conversation(&mut core.store, conversation);
    proof {
        if r is Ok {
            let ids = before_ids->0;
            if !ids.contains(idv) {
                assert(ids.push(idv)[ids.len() as int] == idv);
            }
        }
    }
    match r {
        Ok(_) => Ok(copy),
        Err(e) => Err(e),
    }
}

/// The permissions of a token that names none: reading and writing.
pub open spec fn default_permissions() -> Seq<Permission> {
    seq![Permission::Read, Permission::Write]
}

/// The permissions that a request asks for.
pub open spec fn asked_permissions(req: CreateTokenRequest) -> Seq<Permission> {
    match req.permissions {
        Some(p) => p@,
        None => default_permissions(),
    }
}

/// The life that a request asks for, in days: thirty if it names none.
pub open spec fn asked_days(req: CreateTokenRequest) -> u32 {
    match req.expires_in_days {
        Some(d) => d,
        None => 30,
    }
}

/// Issues a token for the caller of a request that passes validation.
pub fn handle_create_token(core: &mut Core, caller: &Principal, req: CreateTokenRequest, now: u64) -> (r:
    Result<AccessToken>)
    ensures
        final(core).store.memories@ == old(core).store.memories@,
        final(core).store.user_memories@ == old(core).store.user_memories@,
        final(core).store.user_conversations@ == old(core).store.user_conversations@,
        final(core).vectors == old(core).vectors,
        final(core).suggestions == old(core).suggestions,
        final(core).clusters == old(core).clusters,
        old(core).consistent() ==> final(core).consistent(),
        match r {
            Ok(t) => create_token_rejection(req) is None && life_allowed(asked_days(req), now)
                && t@.token == "om_token_"@ + id_text(
                sha256_digest(id_seed(now, final(core).ids.count, caller@)),
            ) && t@.owner_principal == caller@ && t@.permissions == asked_permissions(req)
                && t@.expires_at == now + asked_days(req) * crate::tokens::DAY_NS && t@.created_at
                == now && t@.last_used_at is None && token_at(final(core).store, t@.token) == Some(
                t@,
            ),
            Err(e) => final(core).store.access_tokens@ == old(core).store.access_tokens@ && (
            if create_token_rejection(req) is Some {
                create_token_rejection(req) == Some(e@)
            } else if !life_allowed(asked_days(req), now) {
                e@ == crate::tokens::bad_life()
            } else {
                !token_fits(
                    issued(
                        caller@,
                        crate::tokens::opt_label(req.description),
                        asked_permissions(req),
                        asked_days(req),
                        now,
                        next_id(old(core).ids.count, now, caller@),
                    ),
                ) && e@ == too_large("create_access_token"@)
            }),
        },
{
    match validate_create_token_request(&req) {
        Ok(_) => {},
        Err(e) => {
            return Err(e);
        },
    }
    let permissions: Vec<Permission> = match req.permissions {
        Some(p) => p,
        None => {
            let mut v: Vec<Permission> = Vec::new();
            v.push(Permission::Read);
            v.push(Permission::Write);
            assert(v@ =~= default_permissions());
            v
        },
    };
    let days: u32 = match req.expires_in_days {
        Some(d) => d,
        None => 30,
    };
    if days < 1 || days > 365 || now > u64::MAX - (days as u64) * crate::tokens::DAY_NS {
        return Err(
            OpenMemoryError::validation(
                "Token expiration must be between 1 and 365 days",
                Some("expires_in_days"),
            ),
        );
    }
    let unique: String = generate_uuid(&mut core.ids, now, caller);
    create_access_token(
        &mut core.store,
        caller,
        req.description,
        permissions,
        days,
        now,
        unique.as_str(),
    )
}

/// The number of results that a search without a limit asks for.
pub const DEFAULT_SEARCH_LIMIT: usize = 10;

/// The number of results that a search asks for: its limit, at most a
/// page, or the default where it names none.
pub open spec fn search_limit(limit: Option<usize>) -> usize {
    match limit {
        Some(n) => if n > MAX_PAGE_LIMIT {
            MAX_PAGE_LIMIT
        } else {
            n
        },
        None => DEFAULT_SEARCH_LIMIT,
    }
}

/// Checks a search and gives the number of results that it asks for.
pub fn prepare_search(req: &SearchRequest) -> (r: Result<usize>)
    ensures
        match r {
            Ok(n) => search_rejection(*req) is None && n == search_limit(req.limit),
            Err(e) => search_rejection(*req) == Some(e@),
        },
{
    match validate_search_request(req) {
        Ok(_) => {},
        Err(e) => {
            return Err(e);
        },
    }
    match req.limit {
        Some(n) => if n > MAX_PAGE_LIMIT {
            Ok(MAX_PAGE_LIMIT)
        } else {
            Ok(n)
        },
        None => Ok(DEFAULT_SEARCH_LIMIT),
    }
}

/// Searches the memories of `caller` and records the search.
///
/// With an embedded query the search is by meaning; without one, the
/// embedding having failed, it is by keyword. A search that answers is
/// recorded for the suggestions with the number of its results; a search
/// that is refused leaves them alone.
pub fn handle_semantic_search(
    core: &mut Core,
    caller: &Principal,
    query: &str,
    embedded: Option<EmbeddedQuery>,
    limit: usize,
    tags: &Option<Vec<String>>,
    now: u64,
) -> (r: Result<Vec<SearchResult>>)
    ensures
        final(core).store == old(core).store,
        final(core).vectors == old(core).vectors,
        final(core).clusters == old(core).clusters,
        final(core).ids == old(core).ids,
        old(core).consistent() ==> final(core).consistent(),
        match embedded {
            Some(e) => semantic_outcome(
                old(core).store,
                old(core).vectors,
                e.vector@,
                e.scores@,
                query@,
                limit,
                Some(caller@),
                opt_strs(*tags),
                now,
                r,
            ),
            None => keyword_outcome(
                old(core).store,
                query@,
                limit,
                Some(caller@),
                opt_strs(*tags),
                r,
            ),
        },
        match r {
            Ok(found) => final(core).suggestions.recorded(
                old(core).suggestions,
                caller@,
                query@,
                found@.len() as usize,
                now,
            ),
            Err(_) => final(core).suggestions == old(core).suggestions,
        },
{
    let r = generate_embedding_and_search(
        &core.store,
        &core.vectors,
        query,
        embedded,
        limit,
        Some(caller),
        tags,
        now,
    );
    match &r {
        Ok(found) => {
            core.suggestions.record_search(caller, query, found.len(), now);
        },
        Err(_) => {},
    }
    r
}

} // verus!
