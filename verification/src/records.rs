//! The stored entities as byte records, with the proof that reading a
//! record gives back what was written.

use crate::codec::{
    byte_fields, copy_range, frame, frame_fields, framable, lemma_pairs_roundtrip,
    lemma_text_roundtrip, lemma_texts_roundtrip, lemma_u32s_roundtrip, lemma_unframe_frame,
    opt_text_field, opt_text_of_field, opt_u64_field, opt_u64_of_field, pairs_field, pairs_fields,
    pairs_of_field, read_opt_u64_field, read_text_field, read_u32s_field, read_u64_field,
    text_of_field, texts_field, texts_fields, texts_of_field, u32s_field, u32s_of_field,
    u64_of_field, unframe, unframe_bytes, write_opt_u64_field, write_text_field, write_u32s_field,
};
use crate::types::{
    pairs, strs, AccessToken, AccessTokenView, ApiProvider, Conversation, ConversationView, Memory,
    MemoryView, Permission, Principal, UserConfig, UserConfigView,
};
use vstd::bytes::{lemma_auto_spec_u64_to_from_le_bytes, spec_u64_to_le_bytes, u64_to_le_bytes};
use crate::metadata::{
    in_key_order, keys_ascend, lemma_in_key_order_ascends, lemma_ordered_stays,
    lemma_same_map_same_order, order_pairs, same_map,
};
use vstd::prelude::*;
use vstd::utf8::{decode_utf8, encode_utf8, valid_utf8};

verus! {

// ---------------------------------------------------------------------------
// Lists of texts and of pairs
// ---------------------------------------------------------------------------

/// The field of a list of strings.
pub fn write_texts_field(v: &Vec<String>) -> (r: Vec<u8>)
    ensures
        r@ == texts_field(strs(v@)),
        texts_of_field(r@) == Some(strs(v@)),
{
    let mut fields: Vec<Vec<u8>> = Vec::new();
    let mut i: usize = 0;
    while i < v.len()
        invariant
            i <= v.len(),
            fields@.len() == i,
            forall|k: int| 0 <= k < i ==> (#[trigger] fields@[k])@ == encode_utf8(v@[k]@),
        decreases v.len() - i,
    {
        fields.push(write_text_field(v[i].as_str()));
        i += 1;
    }
    assert(byte_fields(fields@) =~= texts_fields(strs(v@)));
    let r = frame_fields(&fields);
    proof {
        lemma_unframe_frame(texts_fields(strs(v@)));
        lemma_texts_roundtrip(strs(v@));
    }
    r
}

/// The strings of a field, if it is a list of texts.
pub fn read_texts_field(f: &[u8]) -> (r: Option<Vec<String>>)
    ensures
        match r {
            Some(v) => texts_of_field(f@) == Some(strs(v@)),
            None => texts_of_field(f@) is None,
        },
{
    let fields: Vec<Vec<u8>> = match unframe_bytes(f) {
        Some(x) => x,
        None => {
            return None;
        },
    };
    let ghost fs = byte_fields(fields@);
    let mut out: Vec<String> = Vec::new();
    let mut i: usize = 0;
    while i < fields.len()
        invariant
            i <= fields.len(),
            fs == byte_fields(fields@),
            unframe(f@) == Some(fs),
            out@.len() == i,
            forall|k: int| 0 <= k < i ==> valid_utf8(#[trigger] fs[k]),
            forall|k: int| 0 <= k < i ==> (#[trigger] out@[k])@ == decode_utf8(fs[k]),
        decreases fields.len() - i,
    {
        assert(fs[i as int] == fields@[i as int]@);
        match read_text_field(fields[i].as_slice()) {
            Some(s) => {
                out.push(s);
            },
            None => {
                return None;
            },
        }
        i += 1;
    }
    assert(strs(out@) =~= fs.map_values(|b: Seq<u8>| decode_utf8(b)));
    Some(out)
}

/// The field of a list of string pairs.
pub fn write_pairs_field(v: &Vec<(String, String)>) -> (r: Vec<u8>)
    ensures
        r@ == pairs_field(pairs(v@)),
        pairs_of_field(r@) == Some(pairs(v@)),
{
    let mut fields: Vec<Vec<u8>> = Vec::new();
    let mut i: usize = 0;
    while i < v.len()
        invariant
            i <= v.len(),
            fields@.len() == 2 * i,
            forall|j: int|
                0 <= j < 2 * i ==> (#[trigger] fields@[j])@ == (if j % 2 == 0 {
                    encode_utf8(v@[j / 2].0@)
                } else {
                    encode_utf8(v@[j / 2].1@)
                }),
        decreases v.len() - i,
    {
        fields.push(write_text_field(v[i].0.as_str()));
        fields.push(write_text_field(v[i].1.as_str()));
        i += 1;
    }
    proof {
        let want = pairs_fields(pairs(v@));
        let got = byte_fields(fields@);
        assert(got.len() == want.len());
        assert forall|j: int| 0 <= j < got.len() implies got[j] == want[j] by {
            assert(got[j] == fields@[j]@);
            assert(0 <= j / 2 < v@.len());
        }
        assert(got == want);
    }
    let r = frame_fields(&fields);
    proof {
        lemma_unframe_frame(pairs_fields(pairs(v@)));
        lemma_pairs_roundtrip(pairs(v@));
    }
    r
}

/// The string pairs of a field, if it is a list of text pairs.
pub fn read_pairs_field(f: &[u8]) -> (r: Option<Vec<(String, String)>>)
    ensures
        match r {
            Some(v) => pairs_of_field(f@) == Some(pairs(v@)),
            None => pairs_of_field(f@) is None,
        },
{
    let fields: Vec<Vec<u8>> = match unframe_bytes(f) {
        Some(x) => x,
        None => {
            return None;
        },
    };
    let ghost fs = byte_fields(fields@);
    let texts: Vec<String> = {
        let mut out: Vec<String> = Vec::new();
        let mut i: usize = 0;
        while i < fields.len()
            invariant
                i <= fields.len(),
                fs == byte_fields(fields@),
                unframe(f@) == Some(fs),
                out@.len() == i,
                forall|k: int| 0 <= k < i ==> valid_utf8(#[trigger] fs[k]),
                forall|k: int| 0 <= k < i ==> (#[trigger] out@[k])@ == decode_utf8(fs[k]),
            decreases fields.len() - i,
        {
            assert(fs[i as int] == fields@[i as int]@);
            match read_text_field(fields[i].as_slice()) {
                Some(s) => {
                    out.push(s);
                },
                None => {
                    return None;
                },
            }
            i += 1;
        }
        out
    };
    if texts.len() % 2 != 0 {
        return None;
    }
    let n: usize = texts.len() / 2;
    let mut out: Vec<(String, String)> = Vec::new();
    let mut i: usize = 0;
    while i < n
        invariant
            i <= n,
            2 * n == texts@.len(),
            texts@.len() <= usize::MAX,
            texts@.len() == fs.len(),
            out@.len() == i,
            forall|k: int| 0 <= k < texts@.len() ==> (#[trigger] texts@[k])@ == decode_utf8(fs[k]),
            forall|k: int|
                0 <= k < i ==> (#[trigger] out@[k]).0@ == decode_utf8(fs[2 * k]) && out@[k].1@
                    == decode_utf8(fs[2 * k + 1]),
        decreases n - i,
    {
        let a: String = texts[2 * i].clone();
        let b: String = texts[2 * i + 1].clone();
        out.push((a, b));
        i += 1;
    }
    assert(pairs(out@) =~= Seq::new(
        fs.len() / 2,
        |i: int| (decode_utf8(fs[2 * i]), decode_utf8(fs[2 * i + 1])),
    ));
    Some(out)
}

/// The view of an optional string.
pub open spec fn opt_text(o: Option<String>) -> Option<Seq<char>> {
    match o {
        Some(s) => Some(s@),
        None => None,
    }
}

/// The field of an optional string.
pub fn write_opt_text_field(o: &Option<String>) -> (r: Vec<u8>)
    ensures
        r@ == opt_text_field(opt_text(*o)),
        opt_text_of_field(r@) == Some(opt_text(*o)),
{
    match o {
        Some(s) => {
            let mut fields: Vec<Vec<u8>> = Vec::new();
            fields.push(write_text_field(s.as_str()));
            assert(byte_fields(fields@) =~= seq![encode_utf8(s@)]);
            let r = frame_fields(&fields);
            proof {
                lemma_unframe_frame(seq![encode_utf8(s@)]);
                lemma_text_roundtrip(s@);
            }
            r
        },
        None => Vec::new(),
    }
}

/// The optional string of a field, if it is the form of one.
pub fn read_opt_text_field(f: &[u8]) -> (r: Option<Option<String>>)
    ensures
        match r {
            Some(o) => opt_text_of_field(f@) == Some(opt_text(o)),
            None => opt_text_of_field(f@) is None,
        },
{
    let fields: Vec<Vec<u8>> = match unframe_bytes(f) {
        Some(x) => x,
        None => {
            return None;
        },
    };
    if fields.len() == 0 {
        Some(None)
    } else if fields.len() == 1 {
        assert(byte_fields(fields@)[0] == fields@[0]@);
        match read_text_field(fields[0].as_slice()) {
            Some(s) => Some(Some(s)),
            None => None,
        }
    } else {
        None
    }
}

// ---------------------------------------------------------------------------
// Small closed sets
// ---------------------------------------------------------------------------

/// The byte that stands for a permission.
pub open spec fn permission_byte(p: Permission) -> u8 {
    match p {
        Permission::Read => 0,
        Permission::Write => 1,
        Permission::Delete => 2,
        Permission::ManageConfig => 3,
    }
}

/// The permission that a byte stands for.
pub open spec fn permission_of_byte(b: u8) -> Option<Permission> {
    if b == 0 {
        Some(Permission::Read)
    } else if b == 1 {
        Some(Permission::Write)
    } else if b == 2 {
        Some(Permission::Delete)
    } else if b == 3 {
        Some(Permission::ManageConfig)
    } else {
        None
    }
}

/// The field of a list of permissions: one byte each.
pub open spec fn permissions_field(v: Seq<Permission>) -> Seq<u8> {
    v.map_values(|p: Permission| permission_byte(p))
}

/// A list of permissions, if every byte of the field stands for one.
pub open spec fn permissions_of_field(f: Seq<u8>) -> Option<Seq<Permission>> {
    if forall|i: int| 0 <= i < f.len() ==> (#[trigger] f[i]) < 4 {
        Some(f.map_values(|b: u8| permission_of_byte(b)->0))
    } else {
        None
    }
}

pub proof fn lemma_permissions_roundtrip(v: Seq<Permission>)
    ensures
        permissions_of_field(permissions_field(v)) == Some(v),
{
    let f = permissions_field(v);
    assert forall|i: int| 0 <= i < f.len() implies (#[trigger] f[i]) < 4 by {
        assert(f[i] == permission_byte(v[i]));
    }
    assert(f.map_values(|b: u8| permission_of_byte(b)->0) =~= v);
}

pub fn write_permissions_field(v: &Vec<Permission>) -> (r: Vec<u8>)
    ensures
        r@ == permissions_field(v@),
{
    let mut r: Vec<u8> = Vec::new();
    let mut i: usize = 0;
    while i < v.len()
        invariant
            i <= v.len(),
            r@.len() == i,
            forall|k: int| 0 <= k < i ==> r@[k] == permission_byte(#[trigger] v@[k]),
        decreases v.len() - i,
    {
        let b: u8 = match v[i] {
            Permission::Read => 0,
            Permission::Write => 1,
            Permission::Delete => 2,
            Permission::ManageConfig => 3,
        };
        r.push(b);
        i += 1;
    }
    assert(r@ =~= permissions_field(v@));
    r
}

pub fn read_permissions_field(f: &[u8]) -> (r: Option<Vec<Permission>>)
    ensures
        match r {
            Some(v) => permissions_of_field(f@) == Some(v@),
            None => permissions_of_field(f@) is None,
        },
{
    let mut v: Vec<Permission> = Vec::new();
    let mut i: usize = 0;
    while i < f.len()
        invariant
            i <= f.len(),
            v@.len() == i,
            forall|k: int| 0 <= k < i ==> (#[trigger] f@[k]) < 4,
            forall|k: int| 0 <= k < i ==> Some(#[trigger] v@[k]) == permission_of_byte(f@[k]),
        decreases f.len() - i,
    {
        let b: u8 = f[i];
        let p: Permission = if b == 0 {
            Permission::Read
        } else if b == 1 {
            Permission::Write
        } else if b == 2 {
            Permission::Delete
        } else if b == 3 {
            Permission::ManageConfig
        } else {
            return None;
        };
        v.push(p);
        i += 1;
    }
    assert(v@ =~= f@.map_values(|b: u8| permission_of_byte(b)->0));
    Some(v)
}

/// The field of a provider: one byte.
pub open spec fn provider_field(p: ApiProvider) -> Seq<u8> {
    match p {
        ApiProvider::OpenAI => seq![0u8],
        ApiProvider::OpenRouter => seq![1u8],
    }
}

/// A provider, if the field is the byte of one.
pub open spec fn provider_of_field(f: Seq<u8>) -> Option<ApiProvider> {
    if f.len() == 1 && f[0] == 0 {
        Some(ApiProvider::OpenAI)
    } else if f.len() == 1 && f[0] == 1 {
        Some(ApiProvider::OpenRouter)
    } else {
        None
    }
}

pub fn write_provider_field(p: ApiProvider) -> (r: Vec<u8>)
    ensures
        r@ == provider_field(p),
{
    let mut r: Vec<u8> = Vec::new();
    match p {
        ApiProvider::OpenAI => {
            r.push(0u8);
            assert(r@ == seq![0u8]);
        },
        ApiProvider::OpenRouter => {
            r.push(1u8);
            assert(r@ == seq![1u8]);
        },
    }
    r
}

pub fn read_provider_field(f: &[u8]) -> (r: Option<ApiProvider>)
    ensures
        r == provider_of_field(f@),
{
    if f.len() == 1 && f[0] == 0 {
        Some(ApiProvider::OpenAI)
    } else if f.len() == 1 && f[0] == 1 {
        Some(ApiProvider::OpenRouter)
    } else {
        None
    }
}

fn copy_bytes(b: &[u8]) -> (r: Vec<u8>)
    ensures
        r@ == b@,
{
    let r = copy_range(b, 0, b.len());
    assert(b@.subrange(0, b@.len() as int) == b@);
    r
}

// ---------------------------------------------------------------------------
// Memories
// ---------------------------------------------------------------------------

/// A memory as it is stored: with the entries of its metadata in the byte
/// order of their keys, each key once.
pub open spec fn canonical_memory(m: MemoryView) -> MemoryView {
    MemoryView { metadata: in_key_order(m.metadata), ..m }
}

/// The fields of a memory. The metadata is written in the byte order of
/// its keys.
pub open spec fn memory_fields(m: MemoryView) -> Seq<Seq<u8>> {
    seq![
        encode_utf8(m.id),
        m.user_id,
        encode_utf8(m.content),
        u32s_field(m.embedding),
        pairs_field(in_key_order(m.metadata)),
        texts_field(m.tags),
        spec_u64_to_le_bytes(m.created_at),
        spec_u64_to_le_bytes(m.updated_at),
    ]
}

/// The memory that the fields spell, if they spell one.
pub open spec fn memory_of_fields(f: Seq<Seq<u8>>) -> Option<MemoryView> {
    if f.len() == 8 && text_of_field(f[0]) is Some && text_of_field(f[2]) is Some && u32s_of_field(
        f[3],
    ) is Some && pairs_of_field(f[4]) is Some && texts_of_field(f[5]) is Some && u64_of_field(
        f[6],
    ) is Some && u64_of_field(f[7]) is Some {
        Some(
            MemoryView {
                id: text_of_field(f[0])->0,
                user_id: f[1],
                content: text_of_field(f[2])->0,
                embedding: u32s_of_field(f[3])->0,
                metadata: pairs_of_field(f[4])->0,
                tags: texts_of_field(f[5])->0,
                created_at: u64_of_field(f[6])->0,
                updated_at: u64_of_field(f[7])->0,
            },
        )
    } else {
        None
    }
}

/// The record of a memory.
pub open spec fn memory_record(m: MemoryView) -> Seq<u8> {
    frame(memory_fields(m))
}

/// The memory that a record spells, if it spells one.
pub open spec fn memory_of_record(bytes: Seq<u8>) -> Option<MemoryView> {
    match unframe(bytes) {
        Some(f) => memory_of_fields(f),
        None => None,
    }
}

/// The record of a memory, which reads back as the memory with its
/// metadata in key order.
pub fn encode_memory(m: &Memory) -> (r: Vec<u8>)
    ensures
        r@ == memory_record(m@),
        memory_of_record(r@) == Some(canonical_memory(m@)),
        keys_ascend(m@.metadata) ==> memory_of_record(r@) == Some(m@),
{
    let mut fields: Vec<Vec<u8>> = Vec::new();
    fields.push(write_text_field(m.id.as_str()));
    fields.push(copy_bytes(m.user_id.as_slice()));
    fields.push(write_text_field(m.content.as_str()));
    fields.push(write_u32s_field(&m.embedding));
    fields.push(write_pairs_field(&order_pairs(&m.metadata)));
    fields.push(write_texts_field(&m.tags));
    fields.push(u64_to_le_bytes(m.created_at));
    fields.push(u64_to_le_bytes(m.updated_at));
    assert(byte_fields(fields@) =~= memory_fields(m@));
    let r = frame_fields(&fields);
    proof {
        lemma_unframe_frame(memory_fields(m@));
        lemma_text_roundtrip(m@.id);
        lemma_text_roundtrip(m@.content);
        lemma_u32s_roundtrip(m@.embedding);
        lemma_auto_spec_u64_to_from_le_bytes();
        assert(memory_of_fields(memory_fields(m@)) == Some(canonical_memory(m@)));
        if keys_ascend(m@.metadata) {
            lemma_ordered_stays(m@.metadata);
        }
    }
    r
}

/// The memory of a record, or nothing if the bytes are not one.
pub fn decode_memory(bytes: &[u8]) -> (r: Option<Memory>)
    ensures
        match r {
            Some(m) => memory_of_record(bytes@) == Some(m@),
            None => memory_of_record(bytes@) is None,
        },
{
    let fields: Vec<Vec<u8>> = match unframe_bytes(bytes) {
        Some(x) => x,
        None => {
            return None;
        },
    };
    if fields.len() != 8 {
        return None;
    }
    let ghost f = byte_fields(fields@);
    assert(forall|k: int| 0 <= k < 8 ==> f[k] == (#[trigger] fields@[k])@);
    let id: String = match read_text_field(fields[0].as_slice()) {
        Some(x) => x,
        None => {
            return None;
        },
    };
    let user_id = Principal { bytes: fields[1].clone() };
    let content: String = match read_text_field(fields[2].as_slice()) {
        Some(x) => x,
        None => {
            return None;
        },
    };
    let embedding: Vec<u32> = match read_u32s_field(fields[3].as_slice()) {
        Some(x) => x,
        None => {
            return None;
        },
    };
    let metadata: Vec<(String, String)> = match read_pairs_field(fields[4].as_slice()) {
        Some(x) => x,
        None => {
            return None;
        },
    };
    let tags: Vec<String> = match read_texts_field(fields[5].as_slice()) {
        Some(x) => x,
        None => {
            return None;
        },
    };
    let created_at: u64 = match read_u64_field(fields[6].as_slice()) {
        Some(x) => x,
        None => {
            return None;
        },
    };
    let updated_at: u64 = match read_u64_field(fields[7].as_slice()) {
        Some(x) => x,
        None => {
            return None;
        },
    };
    Some(Memory { id, user_id, content, embedding, metadata, tags, created_at, updated_at })
}

// ---------------------------------------------------------------------------
// Conversations
// ---------------------------------------------------------------------------

/// A conversation as it is stored: with the entries of its metadata in
/// the byte order of their keys, each key once.
pub open spec fn canonical_conversation(c: ConversationView) -> ConversationView {
    ConversationView { metadata: in_key_order(c.metadata), ..c }
}

/// The fields of a conversation. The metadata is written in the byte order
/// of its keys.
pub open spec fn conversation_fields(c: ConversationView) -> Seq<Seq<u8>> {
    seq![
        encode_utf8(c.id),
        c.user_id,
        encode_utf8(c.title),
        encode_utf8(c.content),
        encode_utf8(c.source),
        pairs_field(in_key_order(c.metadata)),
        spec_u64_to_le_bytes(c.word_count as u64),
        spec_u64_to_le_bytes(c.created_at),
        spec_u64_to_le_bytes(c.updated_at),
    ]
}

/// The conversation that the fields spell, if they spell one.
pub open spec fn conversation_of_fields(f: Seq<Seq<u8>>) -> Option<ConversationView> {
    if f.len() == 9 && text_of_field(f[0]) is Some && text_of_field(f[2]) is Some && text_of_field(
        f[3],
    ) is Some && text_of_field(f[4]) is Some && pairs_of_field(f[5]) is Some && u64_of_field(
        f[6],
    ) is Some && u64_of_field(f[6])->0 <= u32::MAX && u64_of_field(f[7]) is Some && u64_of_field(
        f[8],
    ) is Some {
        Some(
            ConversationView {
                id: text_of_field(f[0])->0,
                user_id: f[1],
                title: text_of_field(f[2])->0,
                content: text_of_field(f[3])->0,
                source: text_of_field(f[4])->0,
                metadata: pairs_of_field(f[5])->0,
                word_count: u64_of_field(f[6])->0 as u32,
                created_at: u64_of_field(f[7])->0,
                updated_at: u64_of_field(f[8])->0,
            },
        )
    } else {
        None
    }
}

/// The record of a conversation.
pub open spec fn conversation_record(c: ConversationView) -> Seq<u8> {
    frame(conversation_fields(c))
}

/// The conversation that a record spells, if it spells one.
pub open spec fn conversation_of_record(bytes: Seq<u8>) -> Option<ConversationView> {
    match unframe(bytes) {
        Some(f) => conversation_of_fields(f),
        None => None,
    }
}

/// The record of a conversation, which reads back as the conversation with
/// its metadata in key order.
pub fn encode_conversation(c: &Conversation) -> (r: Vec<u8>)
    ensures
        r@ == conversation_record(c@),
        conversation_of_record(r@) == Some(canonical_conversation(c@)),
        keys_ascend(c@.metadata) ==> conversation_of_record(r@) == Some(c@),
{
    let mut fields: Vec<Vec<u8>> = Vec::new();
    fields.push(write_text_field(c.id.as_str()));
    fields.push(copy_bytes(c.user_id.as_slice()));
    fields.push(write_text_field(c.title.as_str()));
    fields.push(write_text_field(c.content.as_str()));
    fields.push(write_text_field(c.source.as_str()));
    fields.push(write_pairs_field(&order_pairs(&c.metadata)));
    fields.push(u64_to_le_bytes(c.word_count as u64));
    fields.push(u64_to_le_bytes(c.created_at));
    fields.push(u64_to_le_bytes(c.updated_at));
    assert(byte_fields(fields@) =~= conversation_fields(c@));
    let r = frame_fields(&fields);
    proof {
        lemma_unframe_frame(conversation_fields(c@));
        lemma_text_roundtrip(c@.id);
        lemma_text_roundtrip(c@.title);
        lemma_text_roundtrip(c@.content);
        lemma_text_roundtrip(c@.source);
        lemma_auto_spec_u64_to_from_le_bytes();
        assert(conversation_of_fields(conversation_fields(c@)) == Some(canonical_conversation(c@)));
        if keys_ascend(c@.metadata) {
            lemma_ordered_stays(c@.metadata);
        }
    }
    r
}

/// The conversation of a record, or nothing if the bytes are not one.
pub fn decode_conversation(bytes: &[u8]) -> (r: Option<Conversation>)
    ensures
        match r {
            Some(c) => conversation_of_record(bytes@) == Some(c@),
            None => conversation_of_record(bytes@) is None,
        },
{
    let fields: Vec<Vec<u8>> = match unframe_bytes(bytes) {
        Some(x) => x,
        None => {
            return None;
        },
    };
    if fields.len() != 9 {
        return None;
    }
    let ghost f = byte_fields(fields@);
    assert(forall|k: int| 0 <= k < 9 ==> f[k] == (#[trigger] fields@[k])@);
    let id: String = match read_text_field(fields[0].as_slice()) {
        Some(x) => x,
        None => {
            return None;
        },
    };
    let user_id = Principal { bytes: fields[1].clone() };
    let title: String = match read_text_field(fields[2].as_slice()) {
        Some(x) => x,
        None => {
            return None;
        },
    };
    let content: String = match read_text_field(fields[3].as_slice()) {
        Some(x) => x,
        None => {
            return None;
        },
    };
    let source: String = match read_text_field(fields[4].as_slice()) {
        Some(x) => x,
        None => {
            return None;
        },
    };
    let metadata: Vec<(String, String)> = match read_pairs_field(fields[5].as_slice()) {
        Some(x) => x,
        None => {
            return None;
        },
    };
    let words: u64 = match read_u64_field(fields[6].as_slice()) {
        Some(x) => x,
        None => {
            return None;
        },
    };
    if words > 0xFFFF_FFFF {
        return None;
    }
    let created_at: u64 = match read_u64_field(fields[7].as_slice()) {
        Some(x) => x,
        None => {
            return None;
        },
    };
    let updated_at: u64 = match read_u64_field(fields[8].as_slice()) {
        Some(x) => x,
        None => {
            return None;
        },
    };
    Some(
        Conversation {
            id,
            user_id,
            title,
            content,
            source,
            metadata,
            word_count: words as u32,
            created_at,
            updated_at,
        },
    )
}

// ---------------------------------------------------------------------------
// Provider settings
// ---------------------------------------------------------------------------

/// The fields of the settings of a user.
pub open spec fn config_fields(c: UserConfigView) -> Seq<Seq<u8>> {
    seq![
        c.user_id,
        opt_text_field(c.openai_api_key),
        opt_text_field(c.openrouter_api_key),
        provider_field(c.api_provider),
        encode_utf8(c.embedding_model),
        spec_u64_to_le_bytes(c.created_at),
        spec_u64_to_le_bytes(c.updated_at),
    ]
}

/// The settings that the fields spell, if they spell any.
pub open spec fn config_of_fields(f: Seq<Seq<u8>>) -> Option<UserConfigView> {
    if f.len() == 7 && opt_text_of_field(f[1]) is Some && opt_text_of_field(f[2]) is Some
        && provider_of_field(f[3]) is Some && text_of_field(f[4]) is Some && u64_of_field(
        f[5],
    ) is Some && u64_of_field(f[6]) is Some {
        Some(
            UserConfigView {
                user_id: f[0],
                openai_api_key: opt_text_of_field(f[1])->0,
                openrouter_api_key: opt_text_of_field(f[2])->0,
                api_provider: provider_of_field(f[3])->0,
                embedding_model: text_of_field(f[4])->0,
                created_at: u64_of_field(f[5])->0,
                updated_at: u64_of_field(f[6])->0,
            },
        )
    } else {
        None
    }
}

/// The record of the settings of a user.
pub open spec fn config_record(c: UserConfigView) -> Seq<u8> {
    frame(config_fields(c))
}

/// The settings that a record spells, if it spells any.
pub open spec fn config_of_record(bytes: Seq<u8>) -> Option<UserConfigView> {
    match unframe(bytes) {
        Some(f) => config_of_fields(f),
        None => None,
    }
}

/// The record of the settings of a user, which reads back as the same.
pub fn encode_config(c: &UserConfig) -> (r: Vec<u8>)
    ensures
        r@ == config_record(c@),
        config_of_record(r@) == Some(c@),
{
    let mut fields: Vec<Vec<u8>> = Vec::new();
    fields.push(copy_bytes(c.user_id.as_slice()));
    fields.push(write_opt_text_field(&c.openai_api_key));
    fields.push(write_opt_text_field(&c.openrouter_api_key));
    fields.push(write_provider_field(c.api_provider));
    fields.push(write_text_field(c.embedding_model.as_str()));
    fields.push(u64_to_le_bytes(c.created_at));
    fields.push(u64_to_le_bytes(c.updated_at));
    assert(byte_fields(fields@) =~= config_fields(c@));
    let r = frame_fields(&fields);
    proof {
        lemma_unframe_frame(config_fields(c@));
        lemma_text_roundtrip(c@.embedding_model);
        lemma_auto_spec_u64_to_from_le_bytes();
        assert(config_of_fields(config_fields(c@)) == Some(c@));
    }
    r
}

/// The settings of a record, or nothing if the bytes are not one.
pub fn decode_config(bytes: &[u8]) -> (r: Option<UserConfig>)
    ensures
        match r {
            Some(c) => config_of_record(bytes@) == Some(c@),
            None => config_of_record(bytes@) is None,
        },
{
    let fields: Vec<Vec<u8>> = match unframe_bytes(bytes) {
        Some(x) => x,
        None => {
            return None;
        },
    };
    if fields.len() != 7 {
        return None;
    }
    let ghost f = byte_fields(fields@);
    assert(forall|k: int| 0 <= k < 7 ==> f[k] == (#[trigger] fields@[k])@);
    let user_id = Principal { bytes: fields[0].clone() };
    let openai_api_key: Option<String> = match read_opt_text_field(fields[1].as_slice()) {
        Some(x) => x,
        None => {
            return None;
        },
    };
    let openrouter_api_key: Option<String> = match read_opt_text_field(fields[2].as_slice()) {
        Some(x) => x,
        None => {
            return None;
        },
    };
    let api_provider: ApiProvider = match read_provider_field(fields[3].as_slice()) {
        Some(x) => x,
        None => {
            return None;
        },
    };
    let embedding_model: String = match read_text_field(fields[4].as_slice()) {
        Some(x) => x,
        None => {
            return None;
        },
    };
    let created_at: u64 = match read_u64_field(fields[5].as_slice()) {
        Some(x) => x,
        None => {
            return None;
        },
    };
    let updated_at: u64 = match read_u64_field(fields[6].as_slice()) {
        Some(x) => x,
        None => {
            return None;
        },
    };
    Some(
        UserConfig {
            user_id,
            openai_api_key,
            openrouter_api_key,
            api_provider,
            embedding_model,
            created_at,
            updated_at,
        },
    )
}

// ---------------------------------------------------------------------------
// Access tokens
// ---------------------------------------------------------------------------

/// The fields of an access token.
pub open spec fn token_fields(t: AccessTokenView) -> Seq<Seq<u8>> {
    seq![
        encode_utf8(t.token),
        t.owner_principal,
        opt_text_field(t.issued_to),
        permissions_field(t.permissions),
        spec_u64_to_le_bytes(t.expires_at),
        spec_u64_to_le_bytes(t.created_at),
        opt_u64_field(t.last_used_at),
    ]
}

/// The access token that the fields spell, if they spell one.
pub open spec fn token_of_fields(f: Seq<Seq<u8>>) -> Option<AccessTokenView> {
    if f.len() == 7 && text_of_field(f[0]) is Some && opt_text_of_field(f[2]) is Some
        && permissions_of_field(f[3]) is Some && u64_of_field(f[4]) is Some && u64_of_field(
        f[5],
    ) is Some && opt_u64_of_field(f[6]) is Some {
        Some(
            AccessTokenView {
                token: text_of_field(f[0])->0,
                owner_principal: f[1],
                issued_to: opt_text_of_field(f[2])->0,
                permissions: permissions_of_field(f[3])->0,
                expires_at: u64_of_field(f[4])->0,
                created_at: u64_of_field(f[5])->0,
                last_used_at: opt_u64_of_field(f[6])->0,
            },
        )
    } else {
        None
    }
}

/// The record of an access token.
pub open spec fn token_record(t: AccessTokenView) -> Seq<u8> {
    frame(token_fields(t))
}

/// The access token that a record spells, if it spells one.
pub open spec fn token_of_record(bytes: Seq<u8>) -> Option<AccessTokenView> {
    match unframe(bytes) {
        Some(f) => token_of_fields(f),
        None => None,
    }
}

/// The record of an access token, which reads back as the same token.
pub fn encode_token(t: &AccessToken) -> (r: Vec<u8>)
    ensures
        r@ == token_record(t@),
        token_of_record(r@) == Some(t@),
{
    let mut fields: Vec<Vec<u8>> = Vec::new();
    fields.push(write_text_field(t.token.as_str()));
    fields.push(copy_bytes(t.owner_principal.as_slice()));
    fields.push(write_opt_text_field(&t.issued_to));
    fields.push(write_permissions_field(&t.permissions));
    fields.push(u64_to_le_bytes(t.expires_at));
    fields.push(u64_to_le_bytes(t.created_at));
    fields.push(write_opt_u64_field(t.last_used_at));
    assert(byte_fields(fields@) =~= token_fields(t@));
    let r = frame_fields(&fields);
    proof {
        lemma_unframe_frame(token_fields(t@));
        lemma_text_roundtrip(t@.token);
        lemma_permissions_roundtrip(t@.permissions);
        lemma_auto_spec_u64_to_from_le_bytes();
        assert(opt_u64_of_field(opt_u64_field(t@.last_used_at)) == Some(t@.last_used_at));
        assert(token_of_fields(token_fields(t@)) == Some(t@));
    }
    r
}

/// The access token of a record, or nothing if the bytes are not one.
pub fn decode_token(bytes: &[u8]) -> (r: Option<AccessToken>)
    ensures
        match r {
            Some(t) => token_of_record(bytes@) == Some(t@),
            None => token_of_record(bytes@) is None,
        },
{
    let fields: Vec<Vec<u8>> = match unframe_bytes(bytes) {
        Some(x) => x,
        None => {
            return None;
        },
    };
    if fields.len() != 7 {
        return None;
    }
    let ghost f = byte_fields(fields@);
    assert(forall|k: int| 0 <= k < 7 ==> f[k] == (#[trigger] fields@[k])@);
    let token: String = match read_text_field(fields[0].as_slice()) {
        Some(x) => x,
        None => {
            return None;
        },
    };
    let owner_principal = Principal { bytes: fields[1].clone() };
    let issued_to: Option<String> = match read_opt_text_field(fields[2].as_slice()) {
        Some(x) => x,
        None => {
            return None;
        },
    };
    let permissions: Vec<Permission> = match read_permissions_field(fields[3].as_slice()) {
        Some(x) => x,
        None => {
            return None;
        },
    };
    let expires_at: u64 = match read_u64_field(fields[4].as_slice()) {
        Some(x) => x,
        None => {
            return None;
        },
    };
    let created_at: u64 = match read_u64_field(fields[5].as_slice()) {
        Some(x) => x,
        None => {
            return None;
        },
    };
    let last_used_at: Option<u64> = match read_opt_u64_field(fields[6].as_slice()) {
        Some(x) => x,
        None => {
            return None;
        },
    };
    Some(
        AccessToken {
            token,
            owner_principal,
            issued_to,
            permissions,
            expires_at,
            created_at,
            last_used_at,
        },
    )
}

// ---------------------------------------------------------------------------
// Lists of ids
// ---------------------------------------------------------------------------

/// The record of a list of ids.
pub fn encode_ids(ids: &Vec<String>) -> (r: Vec<u8>)
    ensures
        r@ == texts_field(strs(ids@)),
        texts_of_field(r@) == Some(strs(ids@)),
{
    write_texts_field(ids)
}

/// The list of ids of a record, or nothing if the bytes are not one.
pub fn decode_ids(bytes: &[u8]) -> (r: Option<Vec<String>>)
    ensures
        match r {
            Some(v) => texts_of_field(bytes@) == Some(strs(v@)),
            None => texts_of_field(bytes@) is None,
        },
{
    read_texts_field(bytes)
}

// ---------------------------------------------------------------------------
// Laws
// ---------------------------------------------------------------------------

/// Every field of a memory is short enough for its length to be written
/// down.
pub open spec fn recordable(m: MemoryView) -> bool {
    &&& framable(memory_fields(m))
    &&& framable(pairs_fields(in_key_order(m.metadata)))
    &&& framable(texts_fields(m.tags))
}

/// Reading the record of a memory gives the memory back as it is stored,
/// and writing what was read gives the same bytes: a snapshot taken after a
/// restart is the snapshot taken before it.
pub proof fn lemma_memory_record_stable(m: MemoryView)
    requires
        recordable(m),
    ensures
        memory_of_record(memory_record(m)) == Some(canonical_memory(m)),
        memory_record(memory_of_record(memory_record(m))->0) == memory_record(m),
{
    lemma_unframe_frame(memory_fields(m));
    lemma_unframe_frame(pairs_fields(in_key_order(m.metadata)));
    lemma_unframe_frame(texts_fields(m.tags));
    lemma_text_roundtrip(m.id);
    lemma_text_roundtrip(m.content);
    lemma_u32s_roundtrip(m.embedding);
    lemma_pairs_roundtrip(in_key_order(m.metadata));
    lemma_texts_roundtrip(m.tags);
    lemma_auto_spec_u64_to_from_le_bytes();
    assert(memory_of_fields(memory_fields(m)) == Some(canonical_memory(m)));
    lemma_in_key_order_ascends(m.metadata);
    lemma_ordered_stays(in_key_order(m.metadata));
    assert(memory_fields(canonical_memory(m)) == memory_fields(m));
}

/// Two memories that differ only in how their metadata is listed, and
/// whose metadata is the same map, have the same record, byte for byte.
pub proof fn lemma_memory_record_canonical(a: MemoryView, b: MemoryView)
    requires
        same_map(a.metadata, b.metadata),
        a == (MemoryView { metadata: a.metadata, ..b }),
    ensures
        memory_record(a) == memory_record(b),
{
    lemma_same_map_same_order(a.metadata, b.metadata);
}

/// Two conversations that differ only in how their metadata is listed,
/// and whose metadata is the same map, have the same record, byte for byte.
pub proof fn lemma_conversation_record_canonical(a: ConversationView, b: ConversationView)
    requires
        same_map(a.metadata, b.metadata),
        a == (ConversationView { metadata: a.metadata, ..b }),
    ensures
        conversation_record(a) == conversation_record(b),
{
    lemma_same_map_same_order(a.metadata, b.metadata);
}

} // verus!
