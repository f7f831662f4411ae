//! Who is calling: bearer tokens, access tokens and configured API keys.

use crate::errors::{ErrorView, OpenMemoryError, Result};
use crate::storage::Store;
use crate::text::{lowercase, starts_with, str_eq, str_starts_with, to_lowercase};
use crate::tokens::{verify_access_token, verify_outcome};
use crate::types::{anonymous_bytes, pairs, AuthToken, HttpRequest, Principal};
use crate::utils::{bearer_token, extract_bearer_token};
use crate::validation::{byte_len, str_byte_len};
use vstd::prelude::*;

verus! {

/// One day in nanoseconds: the life of a token of the older scheme.
pub const AUTH_TOKEN_LIFE_NS: u64 = 86_400_000_000_000;

/// Configured credentials: the principal of each known key, and the
/// principal of every other key that has the shape of a key, if such keys
/// are let in.
pub struct KeyTable {
    pub entries: Vec<(String, Principal)>,
    /// The principal of a key that is not in the table but begins with
    /// `om_` and is longer than ten bytes.
    pub fallback: Option<Principal>,
}

/// The table as an association list.
pub open spec fn key_model(entries: Seq<(String, Principal)>) -> Seq<(Seq<char>, Seq<u8>)> {
    entries.map_values(|e: (String, Principal)| (e.0@, e.1@))
}

/// A key has the shape of a key when it begins with `om_` and is longer
/// than ten bytes.
pub open spec fn key_shaped(key: Seq<char>) -> bool {
    starts_with(key, "om_"@) && byte_len(key) > 10
}

/// The principal that a table gives a key.
pub open spec fn principal_of_key(table: KeyTable, key: Seq<char>) -> Option<Seq<u8>> {
    match crate::assoc::lookup(key_model(table.entries@), key) {
        Some(p) => Some(p),
        None => match table.fallback {
            Some(p) => if key_shaped(key) {
                Some(p@)
            } else {
                None
            },
            None => None,
        },
    }
}

/// The refusal of a key that the table does not know.
pub open spec fn bad_api_key() -> ErrorView {
    ErrorView::Authentication { message: "Invalid API key"@, auth_type: "api_key"@ }
}

/// The refusal of a token that the table does not know.
pub open spec fn bad_token() -> ErrorView {
    ErrorView::Authentication { message: "Invalid token"@, auth_type: "bearer"@ }
}

/// The refusal of a request without credentials.
pub open spec fn no_credentials() -> ErrorView {
    ErrorView::Authentication {
        message: "Missing Authorization header or API Key"@,
        auth_type: "missing"@,
    }
}

impl KeyTable {
    /// The principal of a key.
    #[verifier::loop_isolation(false)]
    pub fn find(&self, key: &str) -> (r: Option<Principal>)
        ensures
            match r {
                Some(p) => principal_of_key(*self, key@) == Some(p@),
                None => principal_of_key(*self, key@) is None,
            },
    {
        let ghost model = key_model(self.entries@);
        let mut i: usize = 0;
        while i < self.entries.len()
            invariant
                i <= self.entries@.len(),
                forall|j: int| 0 <= j < i ==> (#[trigger] model[j]).0 != key@,
            decreases self.entries@.len() - i,
        {
            assert(model[i as int] == (self.entries@[i as int].0@, self.entries@[i as int].1@));
            if str_eq(self.entries[i].0.as_str(), key) {
                proof {
                    crate::assoc::lemma_lookup_first(model, key@, i as int);
                }
                return Some(self.entries[i].1.duplicate());
            }
            i += 1;
        }
        proof {
            crate::assoc::lemma_lookup_absent(model, key@);
        }
        match &self.fallback {
            Some(p) => {
                if str_starts_with(key, "om_") && str_byte_len(key) > 10 {
                    Some(p.duplicate())
                } else {
                    None
                }
            },
            None => None,
        }
    }
}

/// The principal of an API key.
pub fn verify_api_key(keys: &KeyTable, api_key: &str) -> (r: Result<Principal>)
    ensures
        match r {
            Ok(p) => principal_of_key(*keys, api_key@) == Some(p@),
            Err(e) => principal_of_key(*keys, api_key@) is None && e@ == bad_api_key(),
        },
{
    match keys.find(api_key) {
        Some(p) => Ok(p),
        None => Err(OpenMemoryError::authentication("Invalid API key", "api_key")),
    }
}

/// The principal of a token of the older scheme.
pub fn verify_token(tokens: &KeyTable, token: &str) -> (r: Result<Principal>)
    ensures
        match r {
            Ok(p) => principal_of_key(*tokens, token@) == Some(p@),
            Err(e) => principal_of_key(*tokens, token@) is None && e@ == bad_token(),
        },
{
    match tokens.find(token) {
        Some(p) => Ok(p),
        None => Err(OpenMemoryError::authentication("Invalid token", "bearer")),
    }
}

/// The key of a header: the value of a header named `x-api-key` or
/// `x-oc-api-key`, whatever the case of the name.
pub open spec fn api_key_of(header: (Seq<char>, Seq<char>)) -> Option<Seq<char>> {
    if lowercase(header.0) == "x-api-key"@ || lowercase(header.0) == "x-oc-api-key"@ {
        Some(header.1)
    } else {
        None
    }
}

/// The key of the first header that has one.
pub open spec fn api_key(headers: Seq<(Seq<char>, Seq<char>)>) -> Option<Seq<char>>
    decreases headers.len(),
{
    if headers.len() == 0 {
        None
    } else {
        match api_key_of(headers[0]) {
            Some(k) => Some(k),
            None => api_key(headers.drop_first()),
        }
    }
}

/// The API key of a request.
#[verifier::loop_isolation(false)]
pub fn extract_api_key(headers: &Vec<(String, String)>) -> (r: Option<String>)
    ensures
        match r {
            Some(k) => api_key(pairs(headers@)) == Some(k@),
            None => api_key(pairs(headers@)) is None,
        },
{
    let ghost hs = pairs(headers@);
    let mut i: usize = 0;
    assert(hs.skip(0) == hs);
    while i < headers.len()
        invariant
            i <= headers@.len(),
            api_key(hs) == api_key(hs.skip(i as int)),
        decreases headers@.len() - i,
    {
        proof {
            assert(hs.skip(i as int)[0] == (headers@[i as int].0@, headers@[i as int].1@));
            assert(hs.skip(i as int).drop_first() == hs.skip(i + 1));
        }
        let name: String = to_lowercase(headers[i].0.as_str());
        if str_eq(name.as_str(), "x-api-key") || str_eq(name.as_str(), "x-oc-api-key") {
            return Some(headers[i].1.clone());
        }
        i += 1;
    }
    None
}

/// What authenticating a request does and answers: a bearer token that
/// begins with `om_token_` is verified as an access token; any other
/// bearer token is looked up among the tokens of the older scheme; without
/// a bearer token the API key is looked up; and a request without either
/// is refused.
pub open spec fn authenticated(
    headers: Seq<(Seq<char>, Seq<char>)>,
    keys: KeyTable,
    legacy: KeyTable,
    before: Map<Seq<u8>, Seq<u8>>,
    after: Map<Seq<u8>, Seq<u8>>,
    now: u64,
    r: Result<Principal>,
) -> bool {
    match bearer_token(headers) {
        Some(t) => if starts_with(t, "om_token_"@) {
            verify_outcome(before, after, t, now, r)
        } else {
            after == before && match principal_of_key(legacy, t) {
                Some(p) => r is Ok && r->Ok_0@ == p,
                None => r is Err && r->Err_0@ == bad_token(),
            }
        },
        None => after == before && match api_key(headers) {
            Some(k) => match principal_of_key(keys, k) {
                Some(p) => r is Ok && r->Ok_0@ == p,
                None => r is Err && r->Err_0@ == bad_api_key(),
            },
            None => r is Err && r->Err_0@ == no_credentials(),
        },
    }
}

/// Names the caller of a request.
pub fn authenticate_request(
    req: &HttpRequest,
    store: &mut Store,
    keys: &KeyTable,
    legacy: &KeyTable,
    now: u64,
) -> (r: Result<Principal>)
    ensures
        authenticated(
            pairs(req.headers@),
            *keys,
            *legacy,
            old(store).access_tokens@,
            final(store).access_tokens@,
            now,
            r,
        ),
        final(store).memories@ == old(store).memories@,
        final(store).user_memories@ == old(store).user_memories@,
        final(store).conversations@ == old(store).conversations@,
        final(store).user_conversations@ == old(store).user_conversations@,
        final(store).user_config@ == old(store).user_config@,
{
    match extract_bearer_token(&req.headers) {
        Some(token) => {
            if str_starts_with(token.as_str(), "om_token_") {
                verify_access_token(store, token.as_str(), now)
            } else {
                verify_token(legacy, token.as_str())
            }
        },
        None => match extract_api_key(&req.headers) {
            Some(key) => verify_api_key(keys, key.as_str()),
            None => Err(
                OpenMemoryError::authentication(
                    "Missing Authorization header or API Key",
                    "missing",
                ),
            ),
        },
    }
}

/// Names the caller of a request; the same as [`authenticate_request`].
pub fn authenticate_request_enhanced(
    req: &HttpRequest,
    store: &mut Store,
    keys: &KeyTable,
    legacy: &KeyTable,
    now: u64,
) -> (r: Result<Principal>)
    ensures
        authenticated(
            pairs(req.headers@),
            *keys,
            *legacy,
            old(store).access_tokens@,
            final(store).access_tokens@,
            now,
            r,
        ),
{
    authenticate_request(req, store, keys, legacy, now)
}

/// A token of the older scheme for `user_id` that lives one day from
/// `now`, or until the end of time if that comes first.
pub fn generate_auth_token(user_id: Principal, token: String, now: u64) -> (t: AuthToken)
    ensures
        t.token == token,
        t.user_id == user_id,
        t.expires_at == (if now + AUTH_TOKEN_LIFE_NS > u64::MAX {
            u64::MAX
        } else {
            (now + AUTH_TOKEN_LIFE_NS) as u64
        }),
{
    let expires_at: u64 = if now > u64::MAX - AUTH_TOKEN_LIFE_NS {
        u64::MAX
    } else {
        now + AUTH_TOKEN_LIFE_NS
    };
    AuthToken { token, user_id, expires_at }
}

/// Whether the life of a token is over at `now`.
pub fn is_token_expired(token: &AuthToken, now: u64) -> (r: bool)
    ensures
        r == (now > token.expires_at),
{
    now > token.expires_at
}

/// Whether a principal is the anonymous one.
pub fn is_anonymous(principal: &Principal) -> (r: bool)
    ensures
        r == (principal@ == anonymous_bytes()),
{
    principal.is_anonymous()
}

} // verus!
