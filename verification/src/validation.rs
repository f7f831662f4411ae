//! Size and shape checks on everything that comes from outside, and the
//! sanitizers that normalize instead of rejecting.

use crate::errors::{ErrorView, OpenMemoryError, Result};
use crate::seqs::{lemma_filter_all, lemma_filter_passes, lemma_filter_step, lemma_map_step, prefix};
use crate::text::{
    ascii_lower, ascii_lower_seq, char_is_ascii_alphanumeric, char_is_control, chars_trim,
    from_chars, is_ascii_alphanumeric, is_blank, is_control, lemma_trim_bounds,
    lemma_trim_idempotent, push_str, str_blank, str_to_string, to_chars, trim,
};
use crate::types::{
    pairs, strs, AddMemoryRequest, CreateTokenRequest, Principal, SaveConversationRequest,
};
use vstd::prelude::*;
use vstd::string::*;
use vstd::utf8::encode_utf8;

verus! {

/// The largest content of a memory, in bytes (10 KiB).
pub const MAX_MEMORY_CONTENT_SIZE: usize = 10240;

/// The most memories one user may own.
pub const MAX_MEMORIES_PER_USER: usize = 10000;

/// The most tags on one memory.
pub const MAX_TAGS_PER_MEMORY: usize = 20;

/// The longest tag.
pub const MAX_TAG_LENGTH: usize = 50;

/// The longest metadata key.
pub const MAX_METADATA_KEY_LENGTH: usize = 100;

/// The longest metadata value.
pub const MAX_METADATA_VALUE_LENGTH: usize = 500;

/// The most metadata entries on one entity.
pub const MAX_METADATA_ENTRIES: usize = 20;

/// The largest content of a conversation, in bytes (100 KiB).
pub const MAX_CONVERSATION_CONTENT_SIZE: usize = 102400;

/// The longest conversation title.
pub const MAX_CONVERSATION_TITLE_LENGTH: usize = 200;

/// The longest search query.
pub const MAX_QUERY_LENGTH: usize = 1000;

/// The most results one page or one search may ask for.
pub const MAX_PAGE_LIMIT: usize = 100;

/// The page size when none is asked for.
pub const DEFAULT_PAGE_LIMIT: usize = 20;

/// The longest token description.
pub const MAX_TOKEN_DESCRIPTION_LENGTH: usize = 200;

/// The longest life of a token, in days.
pub const MAX_TOKEN_DAYS: u32 = 365;

/// A search as the caller sends it.
pub struct SearchRequest {
    pub query: String,
    pub limit: Option<usize>,
    pub tags: Option<Vec<String>>,
}

/// The length of a string in bytes of UTF-8.
pub open spec fn byte_len(s: Seq<char>) -> nat {
    encode_utf8(s).len()
}

/// The characters a tag may hold: ASCII letters and digits, `-` and `_`.
pub open spec fn is_tag_char(c: char) -> bool {
    is_ascii_alphanumeric(c) || c == '-' || c == '_'
}

/// A tag is valid when it is not empty and holds tag characters only.
pub open spec fn valid_tag(t: Seq<char>) -> bool {
    t.len() > 0 && forall|i: int| 0 <= i < t.len() ==> is_tag_char(#[trigger] t[i])
}

/// The rejection of `field` with the given reason.
pub open spec fn rejected(message: Seq<char>, field: Seq<char>) -> ErrorView {
    ErrorView::Validation { message, field: Some(field) }
}

/// The first rejection among the items, in their order.
pub open spec fn first_rejection<T>(items: Seq<T>, check: spec_fn(T) -> Option<ErrorView>) -> Option<
    ErrorView,
>
    decreases items.len(),
{
    if items.len() == 0 {
        None
    } else {
        match check(items[0]) {
            Some(e) => Some(e),
            None => first_rejection(items.drop_first(), check),
        }
    }
}

/// No item is rejected exactly when the first rejection is none.
pub proof fn lemma_first_rejection_none<T>(items: Seq<T>, check: spec_fn(T) -> Option<ErrorView>)
    ensures
        first_rejection(items, check) is None <==> forall|i: int|
            0 <= i < items.len() ==> check(#[trigger] items[i]) is None,
    decreases items.len(),
{
    if items.len() > 0 {
        let t = items.drop_first();
        lemma_first_rejection_none(t, check);
        if first_rejection(items, check) is None {
            assert forall|i: int| 0 <= i < items.len() implies check(#[trigger] items[i]) is None by {
                if i > 0 {
                    assert(items[i] == t[i - 1]);
                }
            }
        } else {
            if check(items[0]) is None {
                let i = choose|i: int| 0 <= i < t.len() && !(check(#[trigger] t[i]) is None);
                assert(t[i] == items[i + 1]);
            }
        }
    }
}

proof fn lemma_first_rejection_step<T>(
    items: Seq<T>,
    i: int,
    check: spec_fn(T) -> Option<ErrorView>,
)
    requires
        0 <= i < items.len(),
    ensures
        first_rejection(items.skip(i), check) == match check(items[i]) {
            Some(e) => Some(e),
            None => first_rejection(items.skip(i + 1), check),
        },
{
    assert(items.skip(i)[0] == items[i]);
    assert(items.skip(i).drop_first() == items.skip(i + 1));
}

// ---------------------------------------------------------------------------
// Memories
// ---------------------------------------------------------------------------

/// Why a tag of a new memory is rejected, if it is.
pub open spec fn memory_tag_rejection(t: Seq<char>) -> Option<ErrorView> {
    if is_blank(t) {
        Some(rejected("Tag cannot be empty"@, "tags"@))
    } else if byte_len(t) > MAX_TAG_LENGTH {
        Some(rejected("Tag too long (max 50 characters)"@, "tags"@))
    } else if !valid_tag(t) {
        Some(
            rejected(
                "Invalid tag '"@ + t
                    + "': must contain only alphanumeric characters, hyphens, and underscores"@,
                "tags"@,
            ),
        )
    } else {
        None
    }
}

pub open spec fn memory_tag_check() -> spec_fn(Seq<char>) -> Option<ErrorView> {
    |t: Seq<char>| memory_tag_rejection(t)
}

/// Why a metadata entry of a new memory is rejected, if it is.
pub open spec fn memory_entry_rejection(e: (Seq<char>, Seq<char>)) -> Option<ErrorView> {
    if is_blank(e.0) {
        Some(rejected("Metadata key cannot be empty"@, "metadata"@))
    } else if byte_len(e.0) > MAX_METADATA_KEY_LENGTH {
        Some(rejected("Metadata key too long (max 100 characters)"@, "metadata"@))
    } else if byte_len(e.1) > MAX_METADATA_VALUE_LENGTH {
        Some(rejected("Metadata value too long (max 500 characters)"@, "metadata"@))
    } else {
        None
    }
}

pub open spec fn memory_entry_check() -> spec_fn((Seq<char>, Seq<char>)) -> Option<ErrorView> {
    |e: (Seq<char>, Seq<char>)| memory_entry_rejection(e)
}

/// Why the tags of a new memory are rejected, if they are.
pub open spec fn memory_tags_rejection(tags: Seq<Seq<char>>) -> Option<ErrorView> {
    if tags.len() > MAX_TAGS_PER_MEMORY {
        Some(rejected("Too many tags (max 20)"@, "tags"@))
    } else {
        first_rejection(tags, memory_tag_check())
    }
}

/// Why the metadata of a new memory is rejected, if it is.
pub open spec fn memory_metadata_rejection(entries: Seq<(Seq<char>, Seq<char>)>) -> Option<
    ErrorView,
> {
    if entries.len() > MAX_METADATA_ENTRIES {
        Some(rejected("Too many metadata entries (max 20)"@, "metadata"@))
    } else {
        first_rejection(entries, memory_entry_check())
    }
}

/// Why a new memory is rejected, if it is: the first failing check among
/// content, tags and metadata.
pub open spec fn add_memory_rejection(req: AddMemoryRequest) -> Option<ErrorView> {
    if is_blank(req.content@) {
        Some(rejected("Content cannot be empty"@, "content"@))
    } else if byte_len(req.content@) > MAX_MEMORY_CONTENT_SIZE {
        Some(rejected("Content too large (max 10240 bytes)"@, "content"@))
    } else {
        let t = match req.tags {
            Some(tags) => memory_tags_rejection(strs(tags@)),
            None => None,
        };
        if t is Some {
            t
        } else {
            match req.metadata {
                Some(m) => memory_metadata_rejection(pairs(m@)),
                None => None,
            }
        }
    }
}

/// What an accepted memory request looks like.
pub open spec fn acceptable_memory(req: AddMemoryRequest) -> bool {
    &&& !is_blank(req.content@)
    &&& byte_len(req.content@) <= MAX_MEMORY_CONTENT_SIZE
    &&& req.tags matches Some(tags) ==> {
        &&& tags@.len() <= MAX_TAGS_PER_MEMORY
        &&& forall|i: int|
            0 <= i < tags@.len() ==> valid_tag(#[trigger] strs(tags@)[i]) && byte_len(
                strs(tags@)[i],
            ) <= MAX_TAG_LENGTH
    }
    &&& req.metadata matches Some(m) ==> {
        &&& m@.len() <= MAX_METADATA_ENTRIES
        &&& forall|i: int|
            0 <= i < m@.len() ==> !is_blank((#[trigger] pairs(m@)[i]).0) && byte_len(pairs(m@)[i].0)
                <= MAX_METADATA_KEY_LENGTH && byte_len(pairs(m@)[i].1) <= MAX_METADATA_VALUE_LENGTH
    }
}

/// A valid tag is never blank.
pub proof fn lemma_valid_tag_not_blank(t: Seq<char>)
    requires
        valid_tag(t),
    ensures
        !is_blank(t),
{
    assert(is_tag_char(t[0]));
}

/// A memory request passes validation exactly when it is acceptable.
pub proof fn lemma_add_memory_accepts(req: AddMemoryRequest)
    ensures
        add_memory_rejection(req) is None <==> acceptable_memory(req),
{
    if let Some(tags) = req.tags {
        let ts = strs(tags@);
        lemma_first_rejection_none(ts, memory_tag_check());
        if acceptable_memory(req) {
            assert forall|i: int| 0 <= i < ts.len() implies (memory_tag_check())(
                #[trigger] ts[i],
            ) is None by {
                lemma_valid_tag_not_blank(ts[i]);
            }
        }
        if add_memory_rejection(req) is None {
            assert forall|i: int| 0 <= i < tags@.len() implies valid_tag(#[trigger] strs(tags@)[i])
                && byte_len(strs(tags@)[i]) <= MAX_TAG_LENGTH by {
                assert((memory_tag_check())(ts[i]) is None);
            }
        }
    }
    if let Some(m) = req.metadata {
        let es = pairs(m@);
        lemma_first_rejection_none(es, memory_entry_check());
        if acceptable_memory(req) {
            assert forall|i: int| 0 <= i < es.len() implies (memory_entry_check())(
                #[trigger] es[i],
            ) is None by {}
        }
        if add_memory_rejection(req) is None {
            assert forall|i: int| 0 <= i < m@.len() implies !is_blank((#[trigger] pairs(m@)[i]).0)
                && byte_len(pairs(m@)[i].0) <= MAX_METADATA_KEY_LENGTH && byte_len(pairs(m@)[i].1)
                <= MAX_METADATA_VALUE_LENGTH by {
                assert((memory_entry_check())(es[i]) is None);
            }
        }
    }
}

/// The length of a string in bytes.
pub fn str_byte_len(s: &str) -> (n: usize)
    ensures
        n == byte_len(s@),
{
    s.as_bytes().len()
}

fn reject(message: &str, field: &str) -> (e: OpenMemoryError)
    ensures
        e@ == rejected(message@, field@),
{
    OpenMemoryError::validation(message, Some(field))
}

/// Checks whether a tag is not empty and holds only ASCII letters, digits,
/// hyphens and underscores.
pub fn is_valid_tag(tag: &str) -> (r: bool)
    ensures
        r == valid_tag(tag@),
{
    let v: Vec<char> = to_chars(tag);
    if v.len() == 0 {
        return false;
    }
    let mut i: usize = 0;
    while i < v.len()
        invariant
            i <= v.len(),
            v@ == tag@,
            forall|k: int| 0 <= k < i ==> is_tag_char(#[trigger] v@[k]),
        decreases v.len() - i,
    {
        let c: char = v[i];
        if !(char_is_ascii_alphanumeric(c) || c == '-' || c == '_') {
            return false;
        }
        i += 1;
    }
    true
}

fn check_memory_tag(tag: &String) -> (r: Option<OpenMemoryError>)
    ensures
        match r {
            Some(e) => memory_tag_rejection(tag@) == Some(e@),
            None => memory_tag_rejection(tag@) is None,
        },
{
    if str_blank(tag.as_str()) {
        Some(reject("Tag cannot be empty", "tags"))
    } else if str_byte_len(tag.as_str()) > MAX_TAG_LENGTH {
        Some(reject("Tag too long (max 50 characters)", "tags"))
    } else if !is_valid_tag(tag.as_str()) {
        let mut msg = str_to_string("Invalid tag '");
        push_str(&mut msg, tag.as_str());
        push_str(
            &mut msg,
            "': must contain only alphanumeric characters, hyphens, and underscores",
        );
        Some(reject(msg.as_str(), "tags"))
    } else {
        None
    }
}

fn check_memory_entry(entry: &(String, String)) -> (r: Option<OpenMemoryError>)
    ensures
        match r {
            Some(e) => memory_entry_rejection((entry.0@, entry.1@)) == Some(e@),
            None => memory_entry_rejection((entry.0@, entry.1@)) is None,
        },
{
    if str_blank(entry.0.as_str()) {
        Some(reject("Metadata key cannot be empty", "metadata"))
    } else if str_byte_len(entry.0.as_str()) > MAX_METADATA_KEY_LENGTH {
        Some(reject("Metadata key too long (max 100 characters)", "metadata"))
    } else if str_byte_len(entry.1.as_str()) > MAX_METADATA_VALUE_LENGTH {
        Some(reject("Metadata value too long (max 500 characters)", "metadata"))
    } else {
        None
    }
}

#[verifier::loop_isolation(false)]
fn check_memory_tags(tags: &Vec<String>) -> (r: Option<OpenMemoryError>)
    ensures
        match r {
            Some(e) => memory_tags_rejection(strs(tags@)) == Some(e@),
            None => memory_tags_rejection(strs(tags@)) is None,
        },
{
    if tags.len() > MAX_TAGS_PER_MEMORY {
        return Some(reject("Too many tags (max 20)", "tags"));
    }
    let ghost all = strs(tags@);
    let mut i: usize = 0;
    assert(all.skip(0) == all);
    while i < tags.len()
        invariant
            i <= tags.len(),
            all == strs(tags@),
            first_rejection(all, memory_tag_check()) == first_rejection(
                all.skip(i as int),
                memory_tag_check(),
            ),
        decreases tags.len() - i,
    {
        proof {
            lemma_first_rejection_step(all, i as int, memory_tag_check());
            assert(all[i as int] == tags@[i as int]@);
        }
        match check_memory_tag(&tags[i]) {
            Some(e) => {
                return Some(e);
            },
            None => {},
        }
        i += 1;
    }
    None
}

#[verifier::loop_isolation(false)]
fn check_memory_metadata(entries: &Vec<(String, String)>) -> (r: Option<OpenMemoryError>)
    ensures
        match r {
            Some(e) => memory_metadata_rejection(pairs(entries@)) == Some(e@),
            None => memory_metadata_rejection(pairs(entries@)) is None,
        },
{
    if entries.len() > MAX_METADATA_ENTRIES {
        return Some(reject("Too many metadata entries (max 20)", "metadata"));
    }
    let ghost all = pairs(entries@);
    let mut i: usize = 0;
    assert(all.skip(0) == all);
    while i < entries.len()
        invariant
            i <= entries.len(),
            all == pairs(entries@),
            first_rejection(all, memory_entry_check()) == first_rejection(
                all.skip(i as int),
                memory_entry_check(),
            ),
        decreases entries.len() - i,
    {
        proof {
            lemma_first_rejection_step(all, i as int, memory_entry_check());
            assert(all[i as int] == (entries@[i as int].0@, entries@[i as int].1@));
        }
        match check_memory_entry(&entries[i]) {
            Some(e) => {
                return Some(e);
            },
            None => {},
        }
        i += 1;
    }
    None
}

/// Validates a request to add a memory. The error names the first failing
/// check: content, then tags in their order, then metadata in its order.
pub fn validate_add_memory_request(req: &AddMemoryRequest) -> (r: Result<()>)
    ensures
        match r {
            Ok(_) => add_memory_rejection(*req) is None,
            Err(e) => add_memory_rejection(*req) == Some(e@),
        },
{
    if str_blank(req.content.as_str()) {
        return Err(reject("Content cannot be empty", "content"));
    }
    if str_byte_len(req.content.as_str()) > MAX_MEMORY_CONTENT_SIZE {
        return Err(reject("Content too large (max 10240 bytes)", "content"));
    }
    match &req.tags {
        Some(tags) => match check_memory_tags(tags) {
            Some(e) => {
                return Err(e);
            },
            None => {},
        },
        None => {},
    }
    match &req.metadata {
        Some(m) => match check_memory_metadata(m) {
            Some(e) => {
                return Err(e);
            },
            None => {},
        },
        None => {},
    }
    Ok(())
}

// ---------------------------------------------------------------------------
// Conversations
// ---------------------------------------------------------------------------

/// Why a metadata entry of a conversation is rejected, if it is.
pub open spec fn conversation_entry_rejection(e: (Seq<char>, Seq<char>)) -> Option<ErrorView> {
    if byte_len(e.0) > MAX_METADATA_KEY_LENGTH {
        Some(rejected("Metadata key too long (max 100 characters)"@, "metadata"@))
    } else if byte_len(e.1) > MAX_METADATA_VALUE_LENGTH {
        Some(rejected("Metadata value too long (max 500 characters)"@, "metadata"@))
    } else {
        None
    }
}

pub open spec fn conversation_entry_check() -> spec_fn((Seq<char>, Seq<char>)) -> Option<
    ErrorView,
> {
    |e: (Seq<char>, Seq<char>)| conversation_entry_rejection(e)
}

/// Why the metadata of a conversation is rejected, if it is.
pub open spec fn conversation_metadata_rejection(entries: Seq<(Seq<char>, Seq<char>)>) -> Option<
    ErrorView,
> {
    if entries.len() > MAX_METADATA_ENTRIES {
        Some(rejected("Too many metadata entries (max 20)"@, "metadata"@))
    } else {
        first_rejection(entries, conversation_entry_check())
    }
}

/// Why a conversation is rejected, if it is: the first failing check among
/// title, content and metadata.
pub open spec fn save_conversation_rejection(req: SaveConversationRequest) -> Option<ErrorView> {
    if is_blank(req.title@) {
        Some(rejected("Title cannot be empty"@, "title"@))
    } else if byte_len(req.title@) > MAX_CONVERSATION_TITLE_LENGTH {
        Some(rejected("Title too long (max 200 characters)"@, "title"@))
    } else if is_blank(req.content@) {
        Some(rejected("Content cannot be empty"@, "content"@))
    } else if byte_len(req.content@) > MAX_CONVERSATION_CONTENT_SIZE {
        Some(rejected("Content too large (max 102400 bytes)"@, "content"@))
    } else {
        match req.metadata {
            Some(m) => conversation_metadata_rejection(pairs(m@)),
            None => None,
        }
    }
}

fn check_conversation_entry(entry: &(String, String)) -> (r: Option<OpenMemoryError>)
    ensures
        match r {
            Some(e) => conversation_entry_rejection((entry.0@, entry.1@)) == Some(e@),
            None => conversation_entry_rejection((entry.0@, entry.1@)) is None,
        },
{
    if str_byte_len(entry.0.as_str()) > MAX_METADATA_KEY_LENGTH {
        Some(reject("Metadata key too long (max 100 characters)", "metadata"))
    } else if str_byte_len(entry.1.as_str()) > MAX_METADATA_VALUE_LENGTH {
        Some(reject("Metadata value too long (max 500 characters)", "metadata"))
    } else {
        None
    }
}

#[verifier::loop_isolation(false)]
fn check_conversation_metadata(entries: &Vec<(String, String)>) -> (r: Option<OpenMemoryError>)
    ensures
        match r {
            Some(e) => conversation_metadata_rejection(pairs(entries@)) == Some(e@),
            None => conversation_metadata_rejection(pairs(entries@)) is None,
        },
{
    if entries.len() > MAX_METADATA_ENTRIES {
        return Some(reject("Too many metadata entries (max 20)", "metadata"));
    }
    let ghost all = pairs(entries@);
    let mut i: usize = 0;
    assert(all.skip(0) == all);
    while i < entries.len()
        invariant
            i <= entries.len(),
            all == pairs(entries@),
            first_rejection(all, conversation_entry_check()) == first_rejection(
                all.skip(i as int),
                conversation_entry_check(),
            ),
        decreases entries.len() - i,
    {
        proof {
            lemma_first_rejection_step(all, i as int, conversation_entry_check());
            assert(all[i as int] == (entries@[i as int].0@, entries@[i as int].1@));
        }
        match check_conversation_entry(&entries[i]) {
            Some(e) => {
                return Some(e);
            },
            None => {},
        }
        i += 1;
    }
    None
}

/// Validates a request to save a conversation.
pub fn validate_save_conversation_request(req: &SaveConversationRequest) -> (r: Result<()>)
    ensures
        match r {
            Ok(_) => save_conversation_rejection(*req) is None,
            Err(e) => save_conversation_rejection(*req) == Some(e@),
        },
{
    if str_blank(req.title.as_str()) {
        return Err(reject("Title cannot be empty", "title"));
    }
    if str_byte_len(req.title.as_str()) > MAX_CONVERSATION_TITLE_LENGTH {
        return Err(reject("Title too long (max 200 characters)", "title"));
    }
    if str_blank(req.content.as_str()) {
        return Err(reject("Content cannot be empty", "content"));
    }
    if str_byte_len(req.content.as_str()) > MAX_CONVERSATION_CONTENT_SIZE {
        return Err(reject("Content too large (max 102400 bytes)", "content"));
    }
    match &req.metadata {
        Some(m) => match check_conversation_metadata(m) {
            Some(e) => {
                return Err(e);
            },
            None => {},
        },
        None => {},
    }
    Ok(())
}

// ---------------------------------------------------------------------------
// Searches, pages, quotas, tokens
// ---------------------------------------------------------------------------

/// Why a filter tag of a search is rejected, if it is.
pub open spec fn filter_tag_rejection(t: Seq<char>) -> Option<ErrorView> {
    if !valid_tag(t) {
        Some(
            rejected(
                "Invalid filter tag '"@ + t
                    + "': must contain only alphanumeric characters, hyphens, and underscores"@,
                "tags"@,
            ),
        )
    } else {
        None
    }
}

pub open spec fn filter_tag_check() -> spec_fn(Seq<char>) -> Option<ErrorView> {
    |t: Seq<char>| filter_tag_rejection(t)
}

/// Why a page limit is rejected, if it is.
pub open spec fn limit_rejection(limit: Option<usize>) -> Option<ErrorView> {
    match limit {
        Some(l) => if l == 0 {
            Some(rejected("Limit must be greater than 0"@, "limit"@))
        } else if l > MAX_PAGE_LIMIT {
            Some(rejected("Limit too large (max 100)"@, "limit"@))
        } else {
            None
        },
        None => None,
    }
}

/// Why a search is rejected, if it is.
pub open spec fn search_rejection(req: SearchRequest) -> Option<ErrorView> {
    if is_blank(req.query@) {
        Some(rejected("Search query cannot be empty"@, "query"@))
    } else if byte_len(req.query@) > MAX_QUERY_LENGTH {
        Some(rejected("Search query too long (max 1000 characters)"@, "query"@))
    } else if limit_rejection(req.limit) is Some {
        limit_rejection(req.limit)
    } else {
        match req.tags {
            Some(tags) => if tags@.len() > MAX_TAGS_PER_MEMORY {
                Some(rejected("Too many filter tags (max 20)"@, "tags"@))
            } else {
                first_rejection(strs(tags@), filter_tag_check())
            },
            None => None,
        }
    }
}

fn check_limit(limit: Option<usize>) -> (r: Option<OpenMemoryError>)
    ensures
        match r {
            Some(e) => limit_rejection(limit) == Some(e@),
            None => limit_rejection(limit) is None,
        },
{
    match limit {
        Some(l) => if l == 0 {
            Some(reject("Limit must be greater than 0", "limit"))
        } else if l > MAX_PAGE_LIMIT {
            Some(reject("Limit too large (max 100)", "limit"))
        } else {
            None
        },
        None => None,
    }
}

fn check_filter_tag(tag: &String) -> (r: Option<OpenMemoryError>)
    ensures
        match r {
            Some(e) => filter_tag_rejection(tag@) == Some(e@),
            None => filter_tag_rejection(tag@) is None,
        },
{
    if !is_valid_tag(tag.as_str()) {
        let mut msg = str_to_string("Invalid filter tag '");
        push_str(&mut msg, tag.as_str());
        push_str(
            &mut msg,
            "': must contain only alphanumeric characters, hyphens, and underscores",
        );
        Some(reject(msg.as_str(), "tags"))
    } else {
        None
    }
}

/// Validates a search request.
#[verifier::loop_isolation(false)]
pub fn validate_search_request(req: &SearchRequest) -> (r: Result<()>)
    ensures
        match r {
            Ok(_) => search_rejection(*req) is None,
            Err(e) => search_rejection(*req) == Some(e@),
        },
{
    if str_blank(req.query.as_str()) {
        return Err(reject("Search query cannot be empty", "query"));
    }
    if str_byte_len(req.query.as_str()) > MAX_QUERY_LENGTH {
        return Err(reject("Search query too long (max 1000 characters)", "query"));
    }
    match check_limit(req.limit) {
        Some(e) => {
            return Err(e);
        },
        None => {},
    }
    match &req.tags {
        Some(tags) => {
            if tags.len() > MAX_TAGS_PER_MEMORY {
                return Err(reject("Too many filter tags (max 20)", "tags"));
            }
            let ghost all = strs(tags@);
            let mut i: usize = 0;
            assert(all.skip(0) == all);
            while i < tags.len()
                invariant
                    i <= tags.len(),
                    all == strs(tags@),
                    first_rejection(all, filter_tag_check()) == first_rejection(
                        all.skip(i as int),
                        filter_tag_check(),
                    ),
                decreases tags.len() - i,
            {
                proof {
                    lemma_first_rejection_step(all, i as int, filter_tag_check());
                    assert(all[i as int] == tags@[i as int]@);
                }
                match check_filter_tag(&tags[i]) {
                    Some(e) => {
                        return Err(e);
                    },
                    None => {},
                }
                i += 1;
            }
        },
        None => {},
    }
    Ok(())
}

/// Validates the limit and offset of a page. Without a limit the page holds
/// twenty items; without an offset it starts at the first.
pub fn validate_pagination(limit: Option<usize>, offset: Option<usize>) -> (r: Result<
    (usize, usize),
>)
    ensures
        match r {
            Ok((l, o)) => limit_rejection(limit) is None && l == (match limit {
                Some(x) => x,
                None => DEFAULT_PAGE_LIMIT,
            }) && o == (match offset {
                Some(x) => x,
                None => 0,
            }) && 0 < l <= MAX_PAGE_LIMIT,
            Err(e) => limit_rejection(limit) == Some(e@),
        },
{
    match check_limit(limit) {
        Some(e) => {
            return Err(e);
        },
        None => {},
    }
    let l: usize = match limit {
        Some(x) => x,
        None => DEFAULT_PAGE_LIMIT,
    };
    let o: usize = match offset {
        Some(x) => x,
        None => 0,
    };
    Ok((l, o))
}

/// Validates that a user who owns `memory_count` memories may add one more.
pub fn validate_user_quota(user_id: &Principal, memory_count: usize) -> (r: Result<()>)
    ensures
        match r {
            Ok(_) => memory_count < MAX_MEMORIES_PER_USER,
            Err(e) => memory_count >= MAX_MEMORIES_PER_USER && e@ == rejected(
                "Memory limit exceeded (max 10000 memories per user)"@,
                "user_quota"@,
            ),
        },
{
    if memory_count >= MAX_MEMORIES_PER_USER {
        return Err(reject("Memory limit exceeded (max 10000 memories per user)", "user_quota"));
    }
    Ok(())
}

/// Why a request for a token is rejected, if it is.
pub open spec fn create_token_rejection(req: CreateTokenRequest) -> Option<ErrorView> {
    let d = match req.description {
        Some(description) => if is_blank(description@) {
            Some(rejected("Token description cannot be empty"@, "description"@))
        } else if byte_len(description@) > MAX_TOKEN_DESCRIPTION_LENGTH {
            Some(rejected("Token description too long (max 200 characters)"@, "description"@))
        } else {
            None
        },
        None => None,
    };
    if d is Some {
        d
    } else {
        match req.expires_in_days {
            Some(days) => if days == 0 {
                Some(rejected("Token expiration must be at least 1 day"@, "expires_in_days"@))
            } else if days > MAX_TOKEN_DAYS {
                Some(rejected("Token expiration too long (max 365 days)"@, "expires_in_days"@))
            } else {
                None
            },
            None => None,
        }
    }
}

/// Validates a request for an access token: the life of a token is between
/// one day and 365 days.
pub fn validate_create_token_request(req: &CreateTokenRequest) -> (r: Result<()>)
    ensures
        match r {
            Ok(_) => create_token_rejection(*req) is None,
            Err(e) => create_token_rejection(*req) == Some(e@),
        },
{
    match &req.description {
        Some(description) => {
            if str_blank(description.as_str()) {
                return Err(reject("Token description cannot be empty", "description"));
            }
            if str_byte_len(description.as_str()) > MAX_TOKEN_DESCRIPTION_LENGTH {
                return Err(
                    reject("Token description too long (max 200 characters)", "description"),
                );
            }
        },
        None => {},
    }
    match req.expires_in_days {
        Some(days) => {
            if days == 0 {
                return Err(reject("Token expiration must be at least 1 day", "expires_in_days"));
            }
            if days > MAX_TOKEN_DAYS {
                return Err(reject("Token expiration too long (max 365 days)", "expires_in_days"));
            }
        },
        None => {},
    }
    Ok(())
}

// ---------------------------------------------------------------------------
// Sanitizers
// ---------------------------------------------------------------------------

/// The characters that content keeps: everything but control characters,
/// and of those the line feed and the tab.
pub open spec fn keeps_content_char(c: char) -> bool {
    !is_control(c) || c == '\n' || c == '\t'
}

pub open spec fn content_filter() -> spec_fn(char) -> bool {
    |c: char| keeps_content_char(c)
}

pub open spec fn tag_filter() -> spec_fn(char) -> bool {
    |c: char| is_tag_char(c)
}

/// Sanitized content: without the characters that content does not keep,
/// cut to `max` characters, then trimmed.
pub open spec fn sanitized_content(s: Seq<char>, max: nat) -> Seq<char> {
    trim(prefix(s.filter(content_filter()), max))
}

/// A sanitized tag: its tag characters, cut to 50, in lower case.
pub open spec fn sanitized_tag(t: Seq<char>) -> Seq<char> {
    ascii_lower_seq(prefix(t.filter(tag_filter()), MAX_TAG_LENGTH as nat))
}

pub open spec fn tag_sanitizer() -> spec_fn(Seq<char>) -> Seq<char> {
    |t: Seq<char>| sanitized_tag(t)
}

pub open spec fn not_empty() -> spec_fn(Seq<char>) -> bool {
    |t: Seq<char>| t.len() > 0
}

/// Sanitized tags: the first 20, each sanitized, without those that end up
/// empty.
pub open spec fn sanitized_tags(tags: Seq<Seq<char>>) -> Seq<Seq<char>> {
    prefix(tags, MAX_TAGS_PER_MEMORY as nat).map_values(tag_sanitizer()).filter(not_empty())
}

/// A sanitized metadata entry.
pub open spec fn sanitized_entry(e: (Seq<char>, Seq<char>)) -> (Seq<char>, Seq<char>) {
    (
        sanitized_content(e.0, MAX_METADATA_KEY_LENGTH as nat),
        sanitized_content(e.1, MAX_METADATA_VALUE_LENGTH as nat),
    )
}

pub open spec fn entry_sanitizer() -> spec_fn((Seq<char>, Seq<char>)) -> (Seq<char>, Seq<char>) {
    |e: (Seq<char>, Seq<char>)| sanitized_entry(e)
}

pub open spec fn key_not_empty() -> spec_fn((Seq<char>, Seq<char>)) -> bool {
    |e: (Seq<char>, Seq<char>)| e.0.len() > 0
}

/// Sanitized metadata: the first 20 entries, each sanitized, without those
/// whose key ends up empty.
pub open spec fn sanitized_metadata(entries: Seq<(Seq<char>, Seq<char>)>) -> Seq<
    (Seq<char>, Seq<char>),
> {
    prefix(entries, MAX_METADATA_ENTRIES as nat).map_values(entry_sanitizer()).filter(
        key_not_empty(),
    )
}

fn sanitize_chars(v: &Vec<char>, max_length: usize) -> (r: Vec<char>)
    ensures
        r@ == sanitized_content(v@, max_length as nat),
{
    let mut kept: Vec<char> = Vec::new();
    let mut i: usize = 0;
    while i < v.len() && kept.len() < max_length
        invariant
            i <= v.len(),
            kept@ == v@.take(i as int).filter(content_filter()),
            kept.len() <= max_length,
        decreases v.len() - i,
    {
        let c: char = v[i];
        proof {
            lemma_filter_step(v@, i as int, content_filter());
        }
        if !char_is_control(c) || c == '\n' || c == '\t' {
            kept.push(c);
        }
        i += 1;
    }
    proof {
        let all = v@.filter(content_filter());
        if i == v.len() {
            assert(v@.take(i as int) == v@);
        } else {
            lemma_filter_prefix(v@, i as int, content_filter());
            assert(kept.len() == max_length);
            assert(all.take(max_length as int) == kept@);
        }
        assert(kept@ == prefix(all, max_length as nat));
    }
    chars_trim(&kept)
}

/// The filter of a prefix is a prefix of the filter.
pub proof fn lemma_filter_prefix<T>(s: Seq<T>, i: int, pred: spec_fn(T) -> bool)
    requires
        0 <= i <= s.len(),
    ensures
        s.take(i).filter(pred).len() <= s.filter(pred).len(),
        s.filter(pred).take(s.take(i).filter(pred).len() as int) == s.take(i).filter(pred),
{
    let a = s.take(i);
    let b = s.skip(i);
    assert(a + b == s);
    Seq::filter_distributes_over_add(a, b, pred);
    assert((a.filter(pred) + b.filter(pred)).take(a.filter(pred).len() as int) == a.filter(pred));
}

/// Sanitizes text: drops control characters other than line feed and tab,
/// keeps at most `max_length` characters, and trims the result.
pub fn sanitize_content(content: &str, max_length: usize) -> (r: String)
    ensures
        r@ == sanitized_content(content@, max_length as nat),
{
    let v: Vec<char> = to_chars(content);
    let s: Vec<char> = sanitize_chars(&v, max_length);
    from_chars(&s)
}

fn sanitize_tag(tag: &str) -> (r: Vec<char>)
    ensures
        r@ == sanitized_tag(tag@),
{
    let v: Vec<char> = to_chars(tag);
    let mut kept: Vec<char> = Vec::new();
    let mut i: usize = 0;
    while i < v.len() && kept.len() < MAX_TAG_LENGTH
        invariant
            i <= v.len(),
            kept@ == v@.take(i as int).filter(tag_filter()),
            kept.len() <= MAX_TAG_LENGTH,
        decreases v.len() - i,
    {
        let c: char = v[i];
        proof {
            lemma_filter_step(v@, i as int, tag_filter());
        }
        if char_is_ascii_alphanumeric(c) || c == '-' || c == '_' {
            kept.push(c);
        }
        i += 1;
    }
    proof {
        let all = v@.filter(tag_filter());
        if i == v.len() {
            assert(v@.take(i as int) == v@);
        } else {
            lemma_filter_prefix(v@, i as int, tag_filter());
            assert(all.take(MAX_TAG_LENGTH as int) == kept@);
        }
        assert(kept@ == prefix(all, MAX_TAG_LENGTH as nat));
    }
    crate::text::chars_ascii_lower(&kept)
}

/// Sanitizes tags: keeps the first 20, strips what is not a tag character,
/// cuts each to 50 characters, makes it lower case, and drops the tags that
/// end up empty.
pub fn sanitize_tags(tags: &[String]) -> (r: Vec<String>)
    ensures
        strs(r@) == sanitized_tags(strs(tags@)),
{
    let n: usize = if tags.len() < MAX_TAGS_PER_MEMORY {
        tags.len()
    } else {
        MAX_TAGS_PER_MEMORY
    };
    let ghost all = strs(tags@);
    let ghost head = prefix(all, MAX_TAGS_PER_MEMORY as nat);
    let mut out: Vec<String> = Vec::new();
    let mut i: usize = 0;
    assert(strs(out@) == Seq::<Seq<char>>::empty());
    proof {
        reveal(Seq::filter);
        assert(head.take(0).map_values(tag_sanitizer()).filter(not_empty()) == Seq::<
            Seq<char>,
        >::empty());
    }
    while i < n
        invariant
            i <= n <= tags.len(),
            n == head.len(),
            all == strs(tags@),
            head == prefix(all, MAX_TAGS_PER_MEMORY as nat),
            strs(out@) == head.take(i as int).map_values(tag_sanitizer()).filter(not_empty()),
        decreases n - i,
    {
        let clean: Vec<char> = sanitize_tag(tags[i].as_str());
        proof {
            assert(head[i as int] == tags@[i as int]@);
            lemma_map_step(head, i as int, tag_sanitizer());
            let mapped = head.take(i as int).map_values(tag_sanitizer());
            mapped.lemma_filter_push(sanitized_tag(head[i as int]), not_empty());
        }
        if clean.len() > 0 {
            let s: String = from_chars(&clean);
            let ghost before = out@;
            out.push(s);
            assert(strs(out@) == strs(before).push(s@));
        }
        i += 1;
    }
    assert(head.take(n as int) == head);
    out
}

/// Sanitizes metadata: keeps the first 20 entries, sanitizes keys to 100 and
/// values to 500 characters, and drops the entries whose key ends up empty.
pub fn sanitize_metadata(metadata: &Vec<(String, String)>) -> (r: Vec<(String, String)>)
    ensures
        pairs(r@) == sanitized_metadata(pairs(metadata@)),
{
    let n: usize = if metadata.len() < MAX_METADATA_ENTRIES {
        metadata.len()
    } else {
        MAX_METADATA_ENTRIES
    };
    let ghost all = pairs(metadata@);
    let ghost head = prefix(all, MAX_METADATA_ENTRIES as nat);
    let mut out: Vec<(String, String)> = Vec::new();
    let mut i: usize = 0;
    assert(pairs(out@) == Seq::<(Seq<char>, Seq<char>)>::empty());
    proof {
        reveal(Seq::filter);
        assert(head.take(0).map_values(entry_sanitizer()).filter(key_not_empty()) == Seq::<
            (Seq<char>, Seq<char>),
        >::empty());
    }
    while i < n
        invariant
            i <= n <= metadata.len(),
            n == head.len(),
            all == pairs(metadata@),
            head == prefix(all, MAX_METADATA_ENTRIES as nat),
            pairs(out@) == head.take(i as int).map_values(entry_sanitizer()).filter(
                key_not_empty(),
            ),
        decreases n - i,
    {
        let k: String = sanitize_content(metadata[i].0.as_str(), MAX_METADATA_KEY_LENGTH);
        let v: String = sanitize_content(metadata[i].1.as_str(), MAX_METADATA_VALUE_LENGTH);
        proof {
            assert(head[i as int] == (metadata@[i as int].0@, metadata@[i as int].1@));
            lemma_map_step(head, i as int, entry_sanitizer());
            let mapped = head.take(i as int).map_values(entry_sanitizer());
            mapped.lemma_filter_push(sanitized_entry(head[i as int]), key_not_empty());
        }
        if !k.as_str().is_empty() {
            let ghost before = out@;
            let ghost kv = (k@, v@);
            out.push((k, v));
            assert(pairs(out@) == pairs(before).push(kv));
        }
        i += 1;
    }
    assert(head.take(n as int) == head);
    out
}

// ---------------------------------------------------------------------------
// Laws of the sanitizers
// ---------------------------------------------------------------------------

/// Sanitized content is at most `max` characters long, holds no character
/// that content does not keep, and neither starts nor ends with white space.
pub proof fn lemma_sanitized_content_shape(s: Seq<char>, max: nat)
    ensures
        sanitized_content(s, max).len() <= max,
        forall|i: int|
            0 <= i < sanitized_content(s, max).len() ==> keeps_content_char(
                #[trigger] sanitized_content(s, max)[i],
            ),
        trim(sanitized_content(s, max)) == sanitized_content(s, max),
{
    let f = s.filter(content_filter());
    let g = prefix(f, max);
    let t = trim(g);
    lemma_filter_passes(s, content_filter());
    lemma_trim_bounds(g);
    lemma_trim_idempotent(g);
    let (i, j) = choose|i: int, j: int|
        0 <= i <= j <= g.len() && #[trigger] g.subrange(i, j) == trim(g) && (forall|k: int|
            0 <= k < i ==> crate::text::is_whitespace(#[trigger] g[k])) && (forall|k: int|
            j <= k < g.len() ==> crate::text::is_whitespace(#[trigger] g[k])) && (i < j
            ==> !crate::text::is_whitespace(g[i]) && !crate::text::is_whitespace(g[j - 1]));
    assert forall|k: int| 0 <= k < t.len() implies keeps_content_char(#[trigger] t[k]) by {
        assert(t[k] == g[i + k]);
        assert(g[i + k] == f[i + k]);
        assert((content_filter())(f[i + k]));
    }
}

/// Sanitizing content twice gives what sanitizing it once gives.
pub proof fn lemma_sanitize_content_idempotent(s: Seq<char>, max: nat)
    ensures
        sanitized_content(sanitized_content(s, max), max) == sanitized_content(s, max),
{
    let t = sanitized_content(s, max);
    lemma_sanitized_content_shape(s, max);
    assert forall|k: int| 0 <= k < t.len() implies (content_filter())(#[trigger] t[k]) by {
        assert(keeps_content_char(t[k]));
    }
    lemma_filter_all(t, content_filter());
}

/// A sanitized tag holds lower-case tag characters only, at most 50 of them.
pub proof fn lemma_sanitized_tag_shape(t: Seq<char>)
    ensures
        sanitized_tag(t).len() <= MAX_TAG_LENGTH,
        forall|i: int|
            0 <= i < sanitized_tag(t).len() ==> is_tag_char(#[trigger] sanitized_tag(t)[i])
                && ascii_lower(sanitized_tag(t)[i]) == sanitized_tag(t)[i],
        sanitized_tag(t).len() > 0 ==> valid_tag(sanitized_tag(t)),
        sanitized_tag(sanitized_tag(t)) == sanitized_tag(t),
{
    let f = t.filter(tag_filter());
    let p = prefix(f, MAX_TAG_LENGTH as nat);
    let y = sanitized_tag(t);
    lemma_filter_passes(t, tag_filter());
    assert forall|i: int| 0 <= i < y.len() implies is_tag_char(#[trigger] y[i]) && ascii_lower(
        y[i],
    ) == y[i] by {
        assert(y[i] == ascii_lower(p[i]));
        assert(p[i] == f[i]);
        assert((tag_filter())(f[i]));
        lemma_lower_tag_char(p[i]);
    }
    assert forall|i: int| 0 <= i < y.len() implies (tag_filter())(#[trigger] y[i]) by {
        assert(is_tag_char(y[i]));
    }
    lemma_filter_all(y, tag_filter());
    assert(ascii_lower_seq(y) =~= y);
}

/// The lower-case form of a tag character is a tag character, and lower
/// case already.
pub proof fn lemma_lower_tag_char(c: char)
    requires
        is_tag_char(c),
    ensures
        is_tag_char(ascii_lower(c)),
        ascii_lower(ascii_lower(c)) == ascii_lower(c),
{
    let u = c as u32;
    if 0x41 <= u <= 0x5A {
        let l = (u + 32) as char;
        assert(l as u32 == u + 32);
    }
}

/// Sanitized tags are at most 20, each a valid tag in lower case.
pub proof fn lemma_sanitized_tags_shape(tags: Seq<Seq<char>>)
    ensures
        sanitized_tags(tags).len() <= MAX_TAGS_PER_MEMORY,
        forall|i: int|
            0 <= i < sanitized_tags(tags).len() ==> valid_tag(#[trigger] sanitized_tags(tags)[i])
                && sanitized_tag(sanitized_tags(tags)[i]) == sanitized_tags(tags)[i]
                && sanitized_tags(tags)[i].len() <= MAX_TAG_LENGTH,
{
    let head = prefix(tags, MAX_TAGS_PER_MEMORY as nat);
    let mapped = head.map_values(tag_sanitizer());
    let r = sanitized_tags(tags);
    lemma_filter_passes(mapped, not_empty());
    assert forall|i: int| 0 <= i < r.len() implies valid_tag(#[trigger] r[i]) && sanitized_tag(
        r[i],
    ) == r[i] && r[i].len() <= MAX_TAG_LENGTH by {
        assert((not_empty())(r[i]));
        mapped.lemma_filter_contains_rev(not_empty(), r[i]);
        assert(mapped.contains(r[i]));
        let j = choose|j: int| 0 <= j < mapped.len() && mapped[j] == r[i];
        assert(mapped[j] == sanitized_tag(head[j]));
        lemma_sanitized_tag_shape(head[j]);
    }
}

/// Sanitizing tags twice gives what sanitizing them once gives.
pub proof fn lemma_sanitize_tags_idempotent(tags: Seq<Seq<char>>)
    ensures
        sanitized_tags(sanitized_tags(tags)) == sanitized_tags(tags),
{
    let r = sanitized_tags(tags);
    lemma_sanitized_tags_shape(tags);
    assert(prefix(r, MAX_TAGS_PER_MEMORY as nat) == r);
    assert(r.map_values(tag_sanitizer()) =~= r);
    assert forall|i: int| 0 <= i < r.len() implies (not_empty())(#[trigger] r[i]) by {
        assert(valid_tag(r[i]));
    }
    lemma_filter_all(r, not_empty());
}

/// Sanitizing metadata twice gives what sanitizing it once gives.
pub proof fn lemma_sanitize_metadata_idempotent(entries: Seq<(Seq<char>, Seq<char>)>)
    ensures
        sanitized_metadata(sanitized_metadata(entries)) == sanitized_metadata(entries),
{
    let head = prefix(entries, MAX_METADATA_ENTRIES as nat);
    let mapped = head.map_values(entry_sanitizer());
    let r = sanitized_metadata(entries);
    lemma_filter_passes(mapped, key_not_empty());
    assert forall|i: int| 0 <= i < r.len() implies sanitized_entry(#[trigger] r[i]) == r[i] && (
    key_not_empty())(r[i]) by {
        assert((key_not_empty())(r[i]));
        mapped.lemma_filter_contains_rev(key_not_empty(), r[i]);
        let j = choose|j: int| 0 <= j < mapped.len() && mapped[j] == r[i];
        assert(mapped[j] == sanitized_entry(head[j]));
        lemma_sanitize_content_idempotent(head[j].0, MAX_METADATA_KEY_LENGTH as nat);
        lemma_sanitize_content_idempotent(head[j].1, MAX_METADATA_VALUE_LENGTH as nat);
    }
    assert(prefix(r, MAX_METADATA_ENTRIES as nat) == r);
    assert(r.map_values(entry_sanitizer()) =~= r);
    lemma_filter_all(r, key_not_empty());
}

} // verus!
