//! The entities of the store and the requests that create them.
//!
//! Numbers that the callers compute in floating point are carried here as
//! integers: an embedding coordinate or a norm as the bit pattern of its
//! 32-bit float, a score in millionths.

use vstd::prelude::*;

verus! {

/// A score in millionths: `1_000_000` stands for `1.0`.
pub type Score = i64;

/// One million: the score `1.0`.
pub const SCORE_ONE: i64 = 1_000_000;

/// The views of a list of strings.
pub open spec fn strs(v: Seq<String>) -> Seq<Seq<char>> {
    v.map_values(|s: String| s@)
}

/// The views of a list of string pairs.
pub open spec fn pairs(v: Seq<(String, String)>) -> Seq<(Seq<char>, Seq<char>)> {
    v.map_values(|p: (String, String)| (p.0@, p.1@))
}

/// An opaque identifier of an authenticated caller: at most 29 bytes,
/// compared byte by byte.
#[derive(Debug)]
pub struct Principal {
    pub bytes: Vec<u8>,
}

/// The longest principal, in bytes.
pub const PRINCIPAL_MAX_BYTES: usize = 29;

impl View for Principal {
    type V = Seq<u8>;

    open spec fn view(&self) -> Seq<u8> {
        self.bytes@
    }
}

/// The bytes of the anonymous principal.
pub open spec fn anonymous_bytes() -> Seq<u8> {
    seq![4u8]
}

impl Principal {
    /// The principal of a caller that did not authenticate. It never owns
    /// anything.
    pub fn anonymous() -> (p: Self)
        ensures
            p@ == anonymous_bytes(),
    {
        let mut bytes: Vec<u8> = Vec::new();
        bytes.push(4u8);
        assert(bytes@ == seq![4u8]);
        Principal { bytes }
    }

    /// The principal with the given bytes, if they are at most 29.
    pub fn from_slice(bytes: &[u8]) -> (p: Option<Self>)
        ensures
            p is Some == (bytes@.len() <= PRINCIPAL_MAX_BYTES),
            p matches Some(q) ==> q@ == bytes@,
    {
        if bytes.len() > PRINCIPAL_MAX_BYTES {
            return None;
        }
        let mut v: Vec<u8> = Vec::new();
        let mut i: usize = 0;
        while i < bytes.len()
            invariant
                i <= bytes.len(),
                v@ == bytes@.take(i as int),
            decreases bytes.len() - i,
        {
            v.push(bytes[i]);
            assert(bytes@.take(i + 1) == bytes@.take(i as int).push(bytes@[i as int]));
            i += 1;
        }
        assert(bytes@.take(bytes.len() as int) == bytes@);
        Some(Principal { bytes: v })
    }

    pub fn as_slice(&self) -> (b: &[u8])
        ensures
            b@ == self@,
    {
        self.bytes.as_slice()
    }

    /// Whether the two principals have the same bytes.
    pub fn same(&self, other: &Principal) -> (r: bool)
        ensures
            r == (self@ == other@),
    {
        bytes_eq(self.bytes.as_slice(), other.bytes.as_slice())
    }

    pub fn is_anonymous(&self) -> (r: bool)
        ensures
            r == (self@ == anonymous_bytes()),
    {
        let r = self.bytes.len() == 1 && self.bytes[0] == 4u8;
        proof {
            if r {
                assert(self@ == seq![4u8]);
            } else if self@ == anonymous_bytes() {
                assert(self@.len() == 1);
                assert(self@[0] == 4u8);
            }
        }
        r
    }

    pub fn duplicate(&self) -> (p: Self)
        ensures
            p@ == self@,
    {
        Principal { bytes: self.bytes.clone() }
    }

    /// The principal is at most 29 bytes long.
    pub open spec fn wf(&self) -> bool {
        self@.len() <= PRINCIPAL_MAX_BYTES
    }

    /// The textual form of the principal.
    pub fn to_text(&self) -> (r: String)
        requires
            self.wf(),
        ensures
            r@ == principal_text(self@),
    {
        principal_to_text(&self.bytes)
    }

    /// The principal that a text spells, if it spells one.
    pub fn from_text(text: &str) -> (r: Option<Self>)
        ensures
            match r {
                Some(p) => principal_of_text(text@) == Some(p@) && p.wf(),
                None => principal_of_text(text@) is None,
            },
    {
        match principal_from_text(text) {
            Some(bytes) => Some(Principal { bytes }),
            None => None,
        }
    }
}

/// The textual form of the principal with the given bytes: the grouped
/// base-32 text with its checksum, as `Principal::to_text` of the candid
/// crate writes it.
pub uninterp spec fn principal_text(bytes: Seq<u8>) -> Seq<char>;

/// The bytes of the principal that a text spells, as `Principal::from_text`
/// of the candid crate reads it.
pub uninterp spec fn principal_of_text(text: Seq<char>) -> Option<Seq<u8>>;

/// The textual form of a principal. Wraps `Principal::to_text` of the
/// candid crate on `Principal::from_slice`, which takes at most 29 bytes;
/// the text depends on the bytes alone, and the contract only gives it a
/// name.
#[verifier::external_body]
pub(crate) fn principal_to_text(bytes: &Vec<u8>) -> (r: String)
    requires
        bytes@.len() <= PRINCIPAL_MAX_BYTES,
    ensures
        r@ == principal_text(bytes@),
{
    candid::Principal::from_slice(bytes.as_slice()).to_text()
}

/// The bytes of the principal that a text spells. Wraps
/// `Principal::from_text` of the candid crate, which refuses what is not
/// the canonical text of a principal of at most 29 bytes.
#[verifier::external_body]
pub(crate) fn principal_from_text(text: &str) -> (r: Option<Vec<u8>>)
    ensures
        match r {
            Some(b) => principal_of_text(text@) == Some(b@) && b@.len() <= PRINCIPAL_MAX_BYTES,
            None => principal_of_text(text@) is None,
        },
{
    match candid::Principal::from_text(text) {
        Ok(p) => Some(p.as_slice().to_vec()),
        Err(_) => None,
    }
}

/// Whether two byte strings are equal.
pub fn bytes_eq(a: &[u8], b: &[u8]) -> (r: bool)
    ensures
        r == (a@ == b@),
{
    if a.len() != b.len() {
        return false;
    }
    let mut i: usize = 0;
    while i < a.len()
        invariant
            i <= a.len(),
            a.len() == b.len(),
            a@.take(i as int) == b@.take(i as int),
        decreases a.len() - i,
    {
        if a[i] != b[i] {
            return false;
        }
        assert(a@.take(i + 1) == a@.take(i as int).push(a@[i as int]));
        assert(b@.take(i + 1) == b@.take(i as int).push(b@[i as int]));
        i += 1;
    }
    assert(a@.take(a.len() as int) == a@);
    assert(b@.take(b.len() as int) == b@);
    true
}

/// A copy of a list of strings.
pub fn clone_strings(v: &Vec<String>) -> (r: Vec<String>)
    ensures
        strs(r@) == strs(v@),
{
    let mut r: Vec<String> = Vec::new();
    let mut i: usize = 0;
    while i < v.len()
        invariant
            i <= v.len(),
            strs(r@) == strs(v@.take(i as int)),
        decreases v.len() - i,
    {
        r.push(v[i].clone());
        assert(v@.take(i + 1) == v@.take(i as int).push(v@[i as int]));
        assert(strs(v@.take(i + 1)) == strs(v@.take(i as int)).push(v@[i as int]@));
        assert(strs(r@) == strs(v@.take(i + 1)));
        i += 1;
    }
    assert(v@.take(v.len() as int) == v@);
    r
}

/// A copy of a list of string pairs.
pub fn clone_pairs(v: &Vec<(String, String)>) -> (r: Vec<(String, String)>)
    ensures
        pairs(r@) == pairs(v@),
{
    let mut r: Vec<(String, String)> = Vec::new();
    let mut i: usize = 0;
    while i < v.len()
        invariant
            i <= v.len(),
            pairs(r@) == pairs(v@.take(i as int)),
        decreases v.len() - i,
    {
        r.push((v[i].0.clone(), v[i].1.clone()));
        assert(v@.take(i + 1) == v@.take(i as int).push(v@[i as int]));
        assert(pairs(v@.take(i + 1)) == pairs(v@.take(i as int)).push(
            (v@[i as int].0@, v@[i as int].1@),
        ));
        assert(pairs(r@) == pairs(v@.take(i + 1)));
        i += 1;
    }
    assert(v@.take(v.len() as int) == v@);
    r
}

// ---------------------------------------------------------------------------
// Wire types
// ---------------------------------------------------------------------------

/// A request as the host hands it over.
pub struct HttpRequest {
    pub method: String,
    pub url: String,
    pub headers: Vec<(String, String)>,
    pub body: Vec<u8>,
}

/// A response as the host takes it.
pub struct HttpResponse {
    pub status_code: u16,
    pub headers: Vec<(String, String)>,
    pub body: Vec<u8>,
    pub upgrade: Option<bool>,
}

// ---------------------------------------------------------------------------
// Stored entities
// ---------------------------------------------------------------------------

/// A stored text snippet.
#[derive(Debug)]
pub struct Memory {
    pub id: String,
    pub user_id: Principal,
    pub content: String,
    /// The coordinates of the embedding as float bit patterns; empty when the
    /// memory has none.
    pub embedding: Vec<u32>,
    pub metadata: Vec<(String, String)>,
    pub tags: Vec<String>,
    pub created_at: u64,
    pub updated_at: u64,
}

pub struct MemoryView {
    pub id: Seq<char>,
    pub user_id: Seq<u8>,
    pub content: Seq<char>,
    pub embedding: Seq<u32>,
    pub metadata: Seq<(Seq<char>, Seq<char>)>,
    pub tags: Seq<Seq<char>>,
    pub created_at: u64,
    pub updated_at: u64,
}

impl View for Memory {
    type V = MemoryView;

    open spec fn view(&self) -> MemoryView {
        MemoryView {
            id: self.id@,
            user_id: self.user_id@,
            content: self.content@,
            embedding: self.embedding@,
            metadata: pairs(self.metadata@),
            tags: strs(self.tags@),
            created_at: self.created_at,
            updated_at: self.updated_at,
        }
    }
}

impl Memory {
    pub fn duplicate(&self) -> (m: Self)
        ensures
            m@ == self@,
    {
        Memory {
            id: self.id.clone(),
            user_id: self.user_id.duplicate(),
            content: self.content.clone(),
            embedding: self.embedding.clone(),
            metadata: clone_pairs(&self.metadata),
            tags: clone_strings(&self.tags),
            created_at: self.created_at,
            updated_at: self.updated_at,
        }
    }
}

/// A memory with the score that a search gave it.
#[derive(Debug)]
pub struct SearchResult {
    pub memory: Memory,
    pub similarity_score: Score,
}

/// A stored conversation.
#[derive(Debug)]
pub struct Conversation {
    pub id: String,
    pub user_id: Principal,
    pub title: String,
    pub content: String,
    pub source: String,
    pub metadata: Vec<(String, String)>,
    pub word_count: u32,
    pub created_at: u64,
    pub updated_at: u64,
}

pub struct ConversationView {
    pub id: Seq<char>,
    pub user_id: Seq<u8>,
    pub title: Seq<char>,
    pub content: Seq<char>,
    pub source: Seq<char>,
    pub metadata: Seq<(Seq<char>, Seq<char>)>,
    pub word_count: u32,
    pub created_at: u64,
    pub updated_at: u64,
}

impl View for Conversation {
    type V = ConversationView;

    open spec fn view(&self) -> ConversationView {
        ConversationView {
            id: self.id@,
            user_id: self.user_id@,
            title: self.title@,
            content: self.content@,
            source: self.source@,
            metadata: pairs(self.metadata@),
            word_count: self.word_count,
            created_at: self.created_at,
            updated_at: self.updated_at,
        }
    }
}

// ---------------------------------------------------------------------------
// Requests and responses
// ---------------------------------------------------------------------------

pub struct AddMemoryRequest {
    pub content: String,
    pub metadata: Option<Vec<(String, String)>>,
    pub tags: Option<Vec<String>>,
}

pub struct SaveConversationRequest {
    pub title: String,
    pub content: String,
    pub source: Option<String>,
    pub metadata: Option<Vec<(String, String)>>,
}

pub struct AddMemoryResponse {
    pub id: String,
    pub created_at: u64,
}

pub struct SearchResponse {
    pub results: Vec<SearchResult>,
    pub total_count: usize,
    pub query_time_ms: u64,
}

pub struct ListMemoriesResponse {
    pub memories: Vec<Memory>,
    pub total_count: usize,
    pub offset: usize,
    pub limit: usize,
}

/// The older, two-field error body.
pub struct ErrorResponse {
    pub error: String,
    pub code: u16,
}

pub struct HealthResponse {
    pub status: String,
    pub timestamp: u64,
    pub version: String,
    pub memory_count: usize,
}

/// The request body of the embedding provider.
pub struct EmbeddingRequest {
    pub model: String,
    pub input: String,
    pub encoding_format: String,
}

// ---------------------------------------------------------------------------
// Access tokens
// ---------------------------------------------------------------------------

/// What a token allows.
#[derive(Debug, Clone, Copy, PartialEq, Eq, Structural)]
pub enum Permission {
    Read,
    Write,
    Delete,
    ManageConfig,
}

/// A bearer credential bound to its owner.
#[derive(Debug)]
pub struct AccessToken {
    pub token: String,
    pub owner_principal: Principal,
    pub issued_to: Option<String>,
    pub permissions: Vec<Permission>,
    pub expires_at: u64,
    pub created_at: u64,
    pub last_used_at: Option<u64>,
}

pub struct AccessTokenView {
    pub token: Seq<char>,
    pub owner_principal: Seq<u8>,
    pub issued_to: Option<Seq<char>>,
    pub permissions: Seq<Permission>,
    pub expires_at: u64,
    pub created_at: u64,
    pub last_used_at: Option<u64>,
}

impl View for AccessToken {
    type V = AccessTokenView;

    open spec fn view(&self) -> AccessTokenView {
        AccessTokenView {
            token: self.token@,
            owner_principal: self.owner_principal@,
            issued_to: match self.issued_to {
                Some(s) => Some(s@),
                None => None,
            },
            permissions: self.permissions@,
            expires_at: self.expires_at,
            created_at: self.created_at,
            last_used_at: self.last_used_at,
        }
    }
}

/// A short-lived token of the older scheme.
pub struct AuthToken {
    pub token: String,
    pub user_id: Principal,
    pub expires_at: u64,
}

pub struct CreateTokenRequest {
    pub description: Option<String>,
    pub permissions: Option<Vec<Permission>>,
    pub expires_in_days: Option<u32>,
}

pub struct CreateTokenResponse {
    pub token: String,
    pub expires_at: u64,
    pub permissions: Vec<Permission>,
}

/// What the owner may see of a token: everything but the token itself.
#[derive(Debug)]
pub struct TokenInfo {
    pub description: Option<String>,
    pub permissions: Vec<Permission>,
    pub expires_at: u64,
    pub created_at: u64,
    pub last_used_at: Option<u64>,
}

// ---------------------------------------------------------------------------
// Provider configuration
// ---------------------------------------------------------------------------

/// The embedding providers.
#[derive(Debug, Clone, Copy, PartialEq, Eq, Structural)]
pub enum ApiProvider {
    OpenAI,
    OpenRouter,
}

impl Default for ApiProvider {
    fn default() -> (p: Self)
        ensures
            p == ApiProvider::OpenAI,
    {
        ApiProvider::OpenAI
    }
}

/// The provider settings of one user.
#[derive(Debug)]
pub struct UserConfig {
    pub user_id: Principal,
    pub openai_api_key: Option<String>,
    pub openrouter_api_key: Option<String>,
    pub api_provider: ApiProvider,
    pub embedding_model: String,
    pub created_at: u64,
    pub updated_at: u64,
}

pub struct UserConfigView {
    pub user_id: Seq<u8>,
    pub openai_api_key: Option<Seq<char>>,
    pub openrouter_api_key: Option<Seq<char>>,
    pub api_provider: ApiProvider,
    pub embedding_model: Seq<char>,
    pub created_at: u64,
    pub updated_at: u64,
}

impl View for UserConfig {
    type V = UserConfigView;

    open spec fn view(&self) -> UserConfigView {
        UserConfigView {
            user_id: self.user_id@,
            openai_api_key: match self.openai_api_key {
                Some(s) => Some(s@),
                None => None,
            },
            openrouter_api_key: match self.openrouter_api_key {
                Some(s) => Some(s@),
                None => None,
            },
            api_provider: self.api_provider,
            embedding_model: self.embedding_model@,
            created_at: self.created_at,
            updated_at: self.updated_at,
        }
    }
}

pub struct SetApiKeyRequest {
    pub api_key: String,
    pub provider: Option<String>,
}

pub struct UpdateConfigRequest {
    pub openai_api_key: Option<String>,
    pub openrouter_api_key: Option<String>,
    pub api_provider: Option<String>,
    pub embedding_model: Option<String>,
}

/// The settings as the owner sees them: keys only as previews.
pub struct ConfigResponse {
    pub has_openai_key: bool,
    pub has_openrouter_key: bool,
    pub openai_key_preview: Option<String>,
    pub openrouter_key_preview: Option<String>,
    pub api_provider: String,
    pub embedding_model: String,
    pub available_models: Vec<ModelInfo>,
    pub updated_at: Option<u64>,
}

/// An embedding model that a provider offers.
pub struct ModelInfo {
    pub id: String,
    pub name: String,
    pub provider: String,
    pub context_length: u32,
    pub pricing: Option<ModelPricing>,
}

/// Prices in billionths of a dollar per token.
#[derive(Debug, Clone, Copy, PartialEq, Eq, Structural)]
pub struct ModelPricing {
    pub prompt: u64,
    pub completion: u64,
}

/// The ids that one user owns, in the order in which they were added.
pub struct UserMemoryList(pub Vec<String>);

/// The conversation ids that one user owns, in the order in which they were
/// added.
pub struct UserConversationList(pub Vec<String>);

} // verus!
