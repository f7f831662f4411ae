//! Conversations in the entity store.

use crate::codec::write_text_field;
use crate::errors::{OpenMemoryError, Result};
use crate::ranking::{bytes_before, ranked, sort_ranked, Ranked};
use crate::records::{
    canonical_conversation, conversation_of_record, conversation_record, decode_conversation,
    encode_conversation,
};
use crate::region::{put, region_get, region_len, region_put, storable};
use crate::seqs::page;
use crate::storage::{index_add, index_add_error, index_added, index_list, owned, Store};
use crate::types::{strs, Conversation, ConversationView, Principal};
use crate::vector_store::{corrupt, key_of, too_large};
use vstd::prelude::*;
use vstd::utf8::encode_utf8;

verus! {

impl Ranked for Conversation {
    open spec fn weight(&self) -> int {
        self.created_at as int
    }

    open spec fn tie(&self) -> Seq<u8> {
        encode_utf8(self.id@)
    }

    fn outranks(&self, other: &Self) -> (b: bool) {
        if self.created_at != other.created_at {
            self.created_at > other.created_at
        } else {
            bytes_before(self.id.as_str().as_bytes(), other.id.as_str().as_bytes())
        }
    }
}

/// The views of a list of conversations.
pub open spec fn conversation_views(v: Seq<Conversation>) -> Seq<ConversationView> {
    v.map_values(|c: Conversation| c@)
}

/// The conversation stored under `id`, if there is one that reads.
pub open spec fn conversation_at(store: Store, id: Seq<char>) -> Option<ConversationView> {
    if store.conversations@.contains_key(key_of(id)) {
        conversation_of_record(store.conversations@[key_of(id)])
    } else {
        None
    }
}

/// The conversations of the given ids whose rows read, in the order of the
/// ids.
pub open spec fn conversations_of(rows: Map<Seq<u8>, Seq<u8>>, ids: Seq<Seq<char>>) -> Seq<
    ConversationView,
>
    decreases ids.len(),
{
    if ids.len() == 0 {
        Seq::empty()
    } else {
        let rest = conversations_of(rows, ids.drop_last());
        let k = key_of(ids.last());
        if rows.contains_key(k) && conversation_of_record(rows[k]) is Some {
            rest.push(conversation_of_record(rows[k])->0)
        } else {
            rest
        }
    }
}

/// The row of a conversation is short enough for the map.
pub open spec fn conversation_fits(conversation: ConversationView) -> bool {
    storable(key_of(conversation.id), conversation_record(conversation))
}

/// Why a conversation cannot be saved and entered in the ids of its owner,
/// if it cannot: its row is too long for the map, or the ids of its owner
/// do not read or would grow too long.
pub open spec fn save_error(index: Map<Seq<u8>, Seq<u8>>, conversation: ConversationView) -> Option<
    crate::errors::ErrorView,
> {
    if !conversation_fits(conversation) {
        Some(too_large("save_conversation"@))
    } else {
        index_add_error(index, conversation.user_id, conversation.id, "save_conversation"@)
    }
}

/// Saves a conversation: writes its row over any row of the same id, the
/// entries of its metadata in the byte order of their keys, and enters it
/// in the ids of its owner. A row that is too long for the map is
/// refused and nothing changes. If the ids of the owner do not read, or
/// would grow too long, the row stays and the failure is reported.
pub fn save_conversation(store: &mut Store, conversation: Conversation) -> (r: Result<()>)
    ensures
        final(store).conversations@ == put(
            old(store).conversations@,
            key_of(conversation.id@),
            conversation_record(conversation@),
        ),
        final(store).user_conversations@ == if conversation_fits(conversation@) {
            index_added(old(store).user_conversations@, conversation.user_id@, conversation.id@)
        } else {
            old(store).user_conversations@
        },
        match r {
            Ok(_) => save_error(old(store).user_conversations@, conversation@) is None,
            Err(e) => save_error(old(store).user_conversations@, conversation@) == Some(e@),
        },
        conversation_fits(conversation@) ==> conversation_at(*final(store), conversation.id@)
            == Some(canonical_conversation(conversation@)),
        r is Ok ==> owned(final(store).user_conversations@, conversation.user_id@) == Some(
            if owned(old(store).user_conversations@, conversation.user_id@)->0.contains(
                conversation.id@,
            ) {
                owned(old(store).user_conversations@, conversation.user_id@)->0
            } else {
                owned(old(store).user_conversations@, conversation.user_id@)->0.push(
                    conversation.id@,
                )
            },
        ),
        final(store).memories@ == old(store).memories@,
        final(store).user_memories@ == old(store).user_memories@,
        final(store).user_config@ == old(store).user_config@,
        final(store).access_tokens@ == old(store).access_tokens@,
        crate::storage::ids_once(old(store).user_conversations@) ==> crate::storage::ids_once(
            final(store).user_conversations@,
        ),
{
    let key: Vec<u8> = write_text_field(conversation.id.as_str());
    let record: Vec<u8> = encode_conversation(&conversation);
    if !region_put(&mut store.conversations, key, record) {
        return Err(OpenMemoryError::storage("Entry too large", "save_conversation"));
    }
    index_add(
        &mut store.user_conversations,
        &conversation.user_id,
        conversation.id.as_str(),
        "save_conversation",
    )
}

/// The conversation stored under `id`.
pub fn get_conversation(store: &Store, id: &str) -> (r: Result<Option<Conversation>>)
    ensures
        match r {
            Ok(Some(c)) => conversation_at(*store, id@) == Some(c@),
            Ok(None) => !store.conversations@.contains_key(key_of(id@)),
            Err(e) => store.conversations@.contains_key(key_of(id@)) && conversation_at(
                *store,
                id@,
            ) is None && e@ == corrupt("get_conversation"@),
        },
{
    let key: Vec<u8> = write_text_field(id);
    match region_get(&store.conversations, &key) {
        Some(bytes) => match decode_conversation(bytes.as_slice()) {
            Some(c) => Ok(Some(c)),
            None => Err(OpenMemoryError::storage("Stored value is corrupt", "get_conversation")),
        },
        None => Ok(None),
    }
}

/// Lists the conversations of a user, newest first: of the ids of the user,
/// in the order in which they were added, `offset` are passed over and at
/// most `limit` taken; the rows of these that read are returned by falling
/// creation time, and by rising id among equal times.
pub fn get_user_conversations(store: &Store, user_id: &Principal, limit: usize, offset: usize) -> (r:
    Result<Vec<Conversation>>)
    ensures
        match r {
            Ok(found) => owned(store.user_conversations@, user_id@) is Some && ranked(found@)
                && exists|picked: Seq<Conversation>|
                #![trigger conversation_views(picked)]
                conversation_views(picked) == conversations_of(
                    store.conversations@,
                    page(owned(store.user_conversations@, user_id@)->0, offset as nat, limit as nat),
                ) && found@.to_multiset() == picked.to_multiset(),
            Err(e) => owned(store.user_conversations@, user_id@) is None && e@ == corrupt(
                "get_user_conversations"@,
            ),
        },
{
    let ids: Vec<String> = match index_list(
        &store.user_conversations,
        user_id,
        "get_user_conversations",
    ) {
        Ok(ids) => ids,
        Err(e) => {
            return Err(e);
        },
    };
    let ghost all = strs(ids@);
    let ghost want = page(all, offset as nat, limit as nat);
    let mut out: Vec<Conversation> = Vec::new();
    if offset >= ids.len() {
        assert(want.len() == 0);
        assert(conversation_views(out@) =~= conversations_of(store.conversations@, want));
        let ghost picked = out@;
        let sorted = sort_ranked(out);
        assert(conversation_views(picked) == conversations_of(store.conversations@, want));
        return Ok(sorted);
    }
    let room: usize = ids.len() - offset;
    let n: usize = if limit < room {
        limit
    } else {
        room
    };
    assert(want =~= all.subrange(offset as int, offset + n));
    let mut i: usize = 0;
    assert(conversation_views(out@) =~= conversations_of(store.conversations@, want.take(0)));
    while i < n
        invariant
            i <= n,
            offset + n <= ids@.len() <= usize::MAX,
            all == strs(ids@),
            want == all.subrange(offset as int, offset + n),
            conversation_views(out@) == conversations_of(
                store.conversations@,
                want.take(i as int),
            ),
        decreases n - i,
    {
        assert(want[i as int] == ids@[offset + i]@);
        assert(want.take(i + 1).drop_last() == want.take(i as int));
        assert(want.take(i + 1).last() == want[i as int]);
        match get_conversation(store, ids[offset + i].as_str()) {
            Ok(Some(c)) => {
                let ghost before = out@;
                out.push(c);
                assert(conversation_views(out@) =~= conversation_views(before).push(c@));
            },
            Ok(None) => {},
            Err(_) => {},
        }
        i += 1;
    }
    assert(want.take(n as int) == want);
    let ghost picked = out@;
    let sorted = sort_ranked(out);
    assert(conversation_views(picked) == conversations_of(store.conversations@, want));
    Ok(sorted)
}

/// The number of stored conversations.
pub fn get_conversation_count(store: &Store) -> (n: usize)
    ensures
        n == store.conversations@.dom().len() || (n == usize::MAX
            && store.conversations@.dom().len() > usize::MAX),
{
    let n: u64 = region_len(&store.conversations);
    if n > usize::MAX as u64 {
        usize::MAX
    } else {
        n as usize
    }
}

} // verus!
