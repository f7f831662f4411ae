//! Sessions that were opened with a delegation chain.

use crate::errors::{ErrorView, OpenMemoryError, Result};
use crate::seqs::{keep_marked, lemma_masked_is_filter};
use crate::text::{
    char_seqs, chars_split, chars_starts_with, chars_trim, decimal, decimal_string, from_chars,
    lowercase, push_str, split, starts_with, str_eq, str_to_string, to_chars, to_lowercase, trim,
};
use crate::types::{pairs, principal_of_text, principal_text, HttpRequest, Principal};
use crate::utils::{hex_encode, hex_lower, sha256, sha256_digest};
use vstd::prelude::*;
use vstd::utf8::encode_utf8;

verus! {

/// One day in nanoseconds: the life of a session.
pub const SESSION_LIFE_NS: u64 = 86_400_000_000_000;

/// One delegation of a session.
#[derive(Debug)]
pub struct IIDelegation {
    pub delegation: String,
    pub signature: String,
    pub public_key: String,
    pub expiration: u64,
}

/// A session.
#[derive(Debug)]
pub struct IISession {
    pub user_principal: Principal,
    pub session_key: String,
    pub created_at: u64,
    pub expires_at: u64,
    pub delegation_chain: Vec<IIDelegation>,
}

/// What a client sends to open a session.
pub struct IIAuthRequest {
    pub delegation_chain: Vec<IIDelegationData>,
    pub user_public_key: String,
}

/// One delegation as the client sends it.
pub struct IIDelegationData {
    pub delegation: String,
    pub signature: String,
}

/// Two sessions hold the same.
pub open spec fn same_session(a: IISession, b: IISession) -> bool {
    &&& a.user_principal@ == b.user_principal@
    &&& a.session_key@ == b.session_key@
    &&& a.created_at == b.created_at
    &&& a.expires_at == b.expires_at
    &&& a.delegation_chain@.len() == b.delegation_chain@.len()
    &&& forall|i: int|
        0 <= i < a.delegation_chain@.len() ==> (#[trigger] a.delegation_chain@[i]).delegation@
            == b.delegation_chain@[i].delegation@ && a.delegation_chain@[i].signature@
            == b.delegation_chain@[i].signature@ && a.delegation_chain@[i].public_key@
            == b.delegation_chain@[i].public_key@ && a.delegation_chain@[i].expiration
            == b.delegation_chain@[i].expiration
}

impl IISession {
    pub fn duplicate(&self) -> (s: Self)
        ensures
            same_session(s, *self),
    {
        let mut chain: Vec<IIDelegation> = Vec::new();
        let mut i: usize = 0;
        while i < self.delegation_chain.len()
            invariant
                i <= self.delegation_chain@.len(),
                chain@.len() == i,
                forall|k: int|
                    0 <= k < i ==> (#[trigger] chain@[k]).delegation@
                        == self.delegation_chain@[k].delegation@ && chain@[k].signature@
                        == self.delegation_chain@[k].signature@ && chain@[k].public_key@
                        == self.delegation_chain@[k].public_key@ && chain@[k].expiration
                        == self.delegation_chain@[k].expiration,
            decreases self.delegation_chain@.len() - i,
        {
            chain.push(
                IIDelegation {
                    delegation: self.delegation_chain[i].delegation.clone(),
                    signature: self.delegation_chain[i].signature.clone(),
                    public_key: self.delegation_chain[i].public_key.clone(),
                    expiration: self.delegation_chain[i].expiration,
                },
            );
            i += 1;
        }
        IISession {
            user_principal: self.user_principal.duplicate(),
            session_key: self.session_key.clone(),
            created_at: self.created_at,
            expires_at: self.expires_at,
            delegation_chain: chain,
        }
    }
}

/// The open sessions.
pub struct SessionRegistry {
    pub sessions: Vec<IISession>,
}

/// The sessions as an association list from key to session.
pub open spec fn session_model(ss: Seq<IISession>) -> Seq<(Seq<char>, IISession)> {
    ss.map_values(|s: IISession| (s.session_key@, s))
}

/// The bytes that a base-64 text stands for, as the standard engine of the
/// base64 crate decodes it.
pub uninterp spec fn base64_decoded(text: Seq<char>) -> Option<Seq<u8>>;

/// The bytes that a base-64 text stands for. Wraps `Engine::decode` on
/// `general_purpose::STANDARD` of the base64 crate; the result depends on
/// the text alone, and the contract only gives it a name.
#[verifier::external_body]
pub(crate) fn base64_decode(text: &str) -> (r: Option<Vec<u8>>)
    ensures
        match r {
            Some(b) => base64_decoded(text@) == Some(b@),
            None => base64_decoded(text@) is None,
        },
{
    match base64::Engine::decode(&base64::engine::general_purpose::STANDARD, text) {
        Ok(b) => Some(b),
        Err(_) => None,
    }
}

/// The session of a cookie: what follows `ii_session=` in it.
pub open spec fn session_of_cookie(cookie: Seq<char>) -> Option<Seq<char>> {
    if starts_with(trim(cookie), "ii_session="@) {
        Some(trim(cookie).skip(11))
    } else {
        None
    }
}

/// The session of the first cookie that has one.
pub open spec fn first_session(cookies: Seq<Seq<char>>) -> Option<Seq<char>>
    decreases cookies.len(),
{
    if cookies.len() == 0 {
        None
    } else {
        match session_of_cookie(cookies[0]) {
            Some(s) => Some(s),
            None => first_session(cookies.drop_first()),
        }
    }
}

/// The session of a cookie header: that of the first of its cookies,
/// between `;`, that has one.
pub open spec fn cookie_session(header: Seq<char>) -> Option<Seq<char>> {
    first_session(split(header, ';'))
}

/// The session that a cookie header names.
#[verifier::loop_isolation(false)]
pub fn extract_session_from_cookie(cookie_header: &str) -> (r: Option<String>)
    ensures
        match r {
            Some(s) => cookie_session(cookie_header@) == Some(s@),
            None => cookie_session(cookie_header@) is None,
        },
{
    let cookies: Vec<Vec<char>> = chars_split(&to_chars(cookie_header), ';');
    let marker: Vec<char> = to_chars("ii_session=");
    proof {
        reveal_strlit("ii_session=");
    }
    let ghost cs = char_seqs(cookies@);
    let mut i: usize = 0;
    assert(cs.skip(0) == cs);
    while i < cookies.len()
        invariant
            i <= cookies@.len(),
            first_session(cs) == first_session(cs.skip(i as int)),
        decreases cookies@.len() - i,
    {
        proof {
            assert(cs.skip(i as int)[0] == cookies@[i as int]@);
            assert(cs.skip(i as int).drop_first() == cs.skip(i + 1));
        }
        let cookie: Vec<char> = chars_trim(&cookies[i]);
        if chars_starts_with(&cookie, &marker) {
            let rest: Vec<char> = crate::text::chars_range(&cookie, 11, cookie.len());
            assert(cookie@.subrange(11, cookie@.len() as int) == cookie@.skip(11));
            return Some(from_chars(&rest));
        }
        i += 1;
    }
    None
}

/// The session of a header named `x-ii-session`, whatever the case of the
/// name.
pub open spec fn session_header(header: (Seq<char>, Seq<char>)) -> Option<Seq<char>> {
    if lowercase(header.0) == "x-ii-session"@ {
        Some(header.1)
    } else {
        None
    }
}

/// The session of a header named `cookie`.
pub open spec fn cookie_header(header: (Seq<char>, Seq<char>)) -> Option<Seq<char>> {
    if lowercase(header.0) == "cookie"@ {
        cookie_session(header.1)
    } else {
        None
    }
}

/// The first answer that `pick` gives for a header.
pub open spec fn first_of(
    headers: Seq<(Seq<char>, Seq<char>)>,
    pick: spec_fn((Seq<char>, Seq<char>)) -> Option<Seq<char>>,
) -> Option<Seq<char>>
    decreases headers.len(),
{
    if headers.len() == 0 {
        None
    } else {
        match pick(headers[0]) {
            Some(s) => Some(s),
            None => first_of(headers.drop_first(), pick),
        }
    }
}

/// The session of a request: that of its first session header, or else
/// that of its first cookie header that names one.
pub open spec fn request_session(headers: Seq<(Seq<char>, Seq<char>)>) -> Option<Seq<char>> {
    match first_of(headers, |h: (Seq<char>, Seq<char>)| session_header(h)) {
        Some(s) => Some(s),
        None => first_of(headers, |h: (Seq<char>, Seq<char>)| cookie_header(h)),
    }
}

/// The session that a request names.
#[verifier::loop_isolation(false)]
pub fn extract_ii_session(req: &HttpRequest) -> (r: Option<String>)
    ensures
        match r {
            Some(s) => request_session(pairs(req.headers@)) == Some(s@),
            None => request_session(pairs(req.headers@)) is None,
        },
{
    let ghost hs = pairs(req.headers@);
    let ghost by_header = |h: (Seq<char>, Seq<char>)| session_header(h);
    let ghost by_cookie = |h: (Seq<char>, Seq<char>)| cookie_header(h);
    let mut i: usize = 0;
    assert(hs.skip(0) == hs);
    while i < req.headers.len()
        invariant
            i <= req.headers@.len(),
            first_of(hs, by_header) == first_of(hs.skip(i as int), by_header),
        decreases req.headers@.len() - i,
    {
        proof {
            assert(hs.skip(i as int)[0] == (req.headers@[i as int].0@, req.headers@[i as int].1@));
            assert(hs.skip(i as int).drop_first() == hs.skip(i + 1));
        }
        let name: String = to_lowercase(req.headers[i].0.as_str());
        if str_eq(name.as_str(), "x-ii-session") {
            return Some(req.headers[i].1.clone());
        }
        i += 1;
    }
    let mut j: usize = 0;
    while j < req.headers.len()
        invariant
            j <= req.headers@.len(),
            first_of(hs, by_cookie) == first_of(hs.skip(j as int), by_cookie),
        decreases req.headers@.len() - j,
    {
        proof {
            assert(hs.skip(j as int)[0] == (req.headers@[j as int].0@, req.headers@[j as int].1@));
            assert(hs.skip(j as int).drop_first() == hs.skip(j + 1));
        }
        let name: String = to_lowercase(req.headers[j].0.as_str());
        if str_eq(name.as_str(), "cookie") {
            match extract_session_from_cookie(req.headers[j].1.as_str()) {
                Some(s) => {
                    return Some(s);
                },
                None => {},
            }
        }
        j += 1;
    }
    None
}

/// The refusal of a session that is not open.
pub open spec fn unknown_session() -> ErrorView {
    ErrorView::Authentication { message: "Invalid session"@, auth_type: "session"@ }
}

/// The refusal of a session whose life is over.
pub open spec fn expired_session() -> ErrorView {
    ErrorView::Authentication { message: "Session expired"@, auth_type: "session"@ }
}

/// The refusal of a chain without delegations.
pub open spec fn empty_chain() -> ErrorView {
    ErrorView::Authentication { message: "Empty delegation chain"@, auth_type: "delegation"@ }
}

/// The refusal of a delegation that is not base-64 text.
pub open spec fn bad_delegation() -> ErrorView {
    ErrorView::Authentication {
        message: "Invalid delegation encoding"@,
        auth_type: "delegation"@,
    }
}

/// The refusal of a delegation that names no principal.
pub open spec fn bad_principal() -> ErrorView {
    ErrorView::Authentication { message: "Invalid principal"@, auth_type: "delegation"@ }
}

/// The sessions that are still open at `now`.
pub open spec fn open_at(now: u64) -> spec_fn(IISession) -> bool {
    |s: IISession| s.expires_at > now
}

/// The text from which the principal of a delegation is read: a fixed
/// head and the first ten bytes of the digest of the delegation in
/// hexadecimal.
pub open spec fn delegation_text(delegation: Seq<u8>) -> Seq<char> {
    "2vxsx-fae-"@ + hex_lower(sha256_digest(delegation).subrange(0, 10))
}

/// The text from which the principal of a delegation is read.
pub fn extract_principal_from_delegation(delegation_bytes: &[u8]) -> (r: String)
    ensures
        r@ == delegation_text(delegation_bytes@),
{
    let digest: Vec<u8> = sha256(delegation_bytes);
    let head: Vec<u8> = crate::codec::copy_range(digest.as_slice(), 0, 10);
    let mut r: String = str_to_string("2vxsx-fae-");
    push_str(&mut r, hex_encode(head.as_slice()).as_str());
    r
}

/// The principal that a delegation chain names: that of its first
/// delegation.
pub open spec fn chain_principal(first: Seq<char>) -> Option<Seq<u8>> {
    match base64_decoded(first) {
        Some(bytes) => principal_of_text(delegation_text(bytes)),
        None => None,
    }
}

/// The principal that a delegation chain names.
pub fn verify_delegation_chain(delegation_chain: &Vec<IIDelegationData>, user_public_key: &str) -> (r:
    Result<Principal>)
    ensures
        match r {
            Ok(p) => delegation_chain@.len() > 0 && chain_principal(
                delegation_chain@[0].delegation@,
            ) == Some(p@),
            Err(e) => if delegation_chain@.len() == 0 {
                e@ == empty_chain()
            } else if base64_decoded(delegation_chain@[0].delegation@) is None {
                e@ == bad_delegation()
            } else {
                chain_principal(delegation_chain@[0].delegation@) is None && e@ == bad_principal()
            },
        },
{
    if delegation_chain.len() == 0 {
        return Err(OpenMemoryError::authentication("Empty delegation chain", "delegation"));
    }
    let bytes: Vec<u8> = match base64_decode(delegation_chain[0].delegation.as_str()) {
        Some(b) => b,
        None => {
            return Err(
                OpenMemoryError::authentication("Invalid delegation encoding", "delegation"),
            );
        },
    };
    let text: String = extract_principal_from_delegation(bytes.as_slice());
    match Principal::from_text(text.as_str()) {
        Some(p) => Ok(p),
        None => Err(OpenMemoryError::authentication("Invalid principal", "delegation")),
    }
}

/// What the key of a session is hashed from: the time in decimal and the
/// text of the caller.
pub open spec fn session_seed(now: u64, caller: Seq<u8>) -> Seq<u8> {
    encode_utf8(decimal(now as nat)) + encode_utf8(principal_text(caller))
}

/// The key of a session that `caller` opens at `now`: the digest of the
/// seed in hexadecimal.
pub open spec fn session_key_of(now: u64, caller: Seq<u8>) -> Seq<char> {
    hex_lower(sha256_digest(session_seed(now, caller)))
}

/// When a session that opens at `now` ends: a day later, or at the end of
/// time if that comes first.
pub open spec fn session_end(now: u64) -> u64 {
    if now + SESSION_LIFE_NS > u64::MAX {
        u64::MAX
    } else {
        (now + SESSION_LIFE_NS) as u64
    }
}

/// The key of a session that `caller` opens at `now`.
pub fn generate_session_key(now: u64, caller: &Principal) -> (r: String)
    requires
        caller.wf(),
    ensures
        r@ == hex_lower(sha256_digest(session_seed(now, caller@))),
{
    let time: String = decimal_string(now);
    let mut seed: Vec<u8> = crate::codec::write_text_field(time.as_str());
    let who: String = caller.to_text();
    let mut tail: Vec<u8> = crate::codec::write_text_field(who.as_str());
    seed.append(&mut tail);
    let digest: Vec<u8> = sha256(seed.as_slice());
    hex_encode(digest.as_slice())
}

/// The session of `principal` under `session_key` that lives one day from
/// `now`, or until the end of time if that comes first.
pub fn create_ii_session(
    principal: Principal,
    delegation_chain: Vec<IIDelegationData>,
    session_key: String,
    now: u64,
) -> (r: Result<IISession>)
    ensures
        r is Ok,
        r->Ok_0.user_principal == principal,
        r->Ok_0.session_key == session_key,
        r->Ok_0.created_at == now,
        r->Ok_0.expires_at == (if now + SESSION_LIFE_NS > u64::MAX {
            u64::MAX
        } else {
            (now + SESSION_LIFE_NS) as u64
        }),
        r->Ok_0.delegation_chain@.len() == delegation_chain@.len(),
        forall|i: int|
            0 <= i < delegation_chain@.len() ==> (#[trigger] r->Ok_0.delegation_chain@[i]).delegation@
                == delegation_chain@[i].delegation@ && r->Ok_0.delegation_chain@[i].signature@
                == delegation_chain@[i].signature@ && r->Ok_0.delegation_chain@[i].public_key@.len()
                == 0 && r->Ok_0.delegation_chain@[i].expiration == r->Ok_0.expires_at,
{
    let expires_at: u64 = if now > u64::MAX - SESSION_LIFE_NS {
        u64::MAX
    } else {
        now + SESSION_LIFE_NS
    };
    let mut chain: Vec<IIDelegation> = Vec::new();
    let mut i: usize = 0;
    while i < delegation_chain.len()
        invariant
            i <= delegation_chain@.len(),
            chain@.len() == i,
            forall|k: int|
                0 <= k < i ==> (#[trigger] chain@[k]).delegation@
                    == delegation_chain@[k].delegation@ && chain@[k].signature@
                    == delegation_chain@[k].signature@ && chain@[k].public_key@.len() == 0
                    && chain@[k].expiration == expires_at,
        decreases delegation_chain@.len() - i,
    {
        chain.push(
            IIDelegation {
                delegation: delegation_chain[i].delegation.clone(),
                signature: delegation_chain[i].signature.clone(),
                public_key: String::new(),
                expiration: expires_at,
            },
        );
        i += 1;
    }
    Ok(
        IISession {
            user_principal: principal,
            session_key,
            created_at: now,
            expires_at,
            delegation_chain: chain,
        },
    )
}

/// The key of a session.
pub open spec fn key_of_session() -> spec_fn(IISession) -> Seq<char> {
    |s: IISession| s.session_key@
}

impl SessionRegistry {
    /// The session stored under `key`.
    pub open spec fn session(&self, key: Seq<char>) -> Option<IISession> {
        crate::assoc::lookup(session_model(self.sessions@), key)
    }

    /// The registry is a map: no two sessions have the same key.
    pub open spec fn wf(&self) -> bool {
        crate::seqs::distinct_by(self.sessions@, key_of_session())
    }

    /// A registry without sessions.
    pub fn new() -> (r: Self)
        ensures
            r.sessions@.len() == 0,
            r.wf(),
    {
        SessionRegistry { sessions: Vec::new() }
    }

    fn find(&self, key: &str) -> (r: Option<usize>)
        ensures
            match r {
                Some(i) => crate::assoc::first_at(session_model(self.sessions@), key@, i as int),
                None => crate::assoc::absent(session_model(self.sessions@), key@),
            },
    {
        let mut i: usize = 0;
        while i < self.sessions.len()
            invariant
                i <= self.sessions@.len(),
                forall|j: int|
                    0 <= j < i ==> (#[trigger] session_model(self.sessions@)[j]).0 != key@,
            decreases self.sessions@.len() - i,
        {
            assert(session_model(self.sessions@)[i as int].0
                == self.sessions@[i as int].session_key@);
            if str_eq(self.sessions[i].session_key.as_str(), key) {
                return Some(i);
            }
            i += 1;
        }
        None
    }

    /// Opens a session, in place of any session of the same key.
    pub fn open_session(&mut self, session: IISession)
        ensures
            forall|k: Seq<char>|
                #[trigger] final(self).session(k) == if k == session.session_key@ {
                    Some(session)
                } else {
                    old(self).session(k)
                },
            old(self).wf() ==> final(self).wf(),
    {
        let ghost model = session_model(self.sessions@);
        let ghost key = session.session_key@;
        match self.find(session.session_key.as_str()) {
            Some(i) => {
                self.sessions.set(i, session);
                proof {
                    if old(self).wf() {
                        assert forall|x: int, y: int|
                            0 <= x < y < self.sessions@.len() implies (key_of_session())(
                            #[trigger] self.sessions@[x],
                        ) != (key_of_session())(#[trigger] self.sessions@[y]) by {
                            assert((key_of_session())(old(self).sessions@[x]) != (
                            key_of_session())(old(self).sessions@[y]));
                            assert(model[i as int].0 == key);
                        }
                    }
                    assert(session_model(self.sessions@) =~= model.update(i as int, (key, session)));
                    assert forall|k: Seq<char>|
                        #[trigger] self.session(k) == if k == key {
                            Some(session)
                        } else {
                            old(self).session(k)
                        } by {
                        crate::assoc::lemma_lookup_update(model, key, i as int, session, k);
                    }
                }
            },
            None => {
                self.sessions.push(session);
                proof {
                    if old(self).wf() {
                        assert forall|x: int, y: int|
                            0 <= x < y < self.sessions@.len() implies (key_of_session())(
                            #[trigger] self.sessions@[x],
                        ) != (key_of_session())(#[trigger] self.sessions@[y]) by {
                            if y < old(self).sessions@.len() {
                                assert((key_of_session())(old(self).sessions@[x]) != (
                                key_of_session())(old(self).sessions@[y]));
                            } else {
                                assert(model[x].0 != key);
                            }
                        }
                    }
                    assert(session_model(self.sessions@) =~= model.push((key, session)));
                    assert forall|k: Seq<char>|
                        #[trigger] self.session(k) == if k == key {
                            Some(session)
                        } else {
                            old(self).session(k)
                        } by {
                        crate::assoc::lemma_lookup_push(model, key, session, k);
                    }
                }
            },
        }
    }

    /// Opens a session for the principal that the delegation chain of the
    /// request names, under the key that `caller` gets at `now`.
    ///
    /// A chain that names no principal is refused and no session opens.
    pub fn authenticate_with_ii(&mut self, auth: IIAuthRequest, now: u64, caller: &Principal) -> (r:
        Result<Principal>)
        requires
            caller.wf(),
        ensures
            old(self).wf() ==> final(self).wf(),
            match r {
                Ok(p) => auth.delegation_chain@.len() > 0 && chain_principal(
                    auth.delegation_chain@[0].delegation@,
                ) == Some(p@) && (final(self).session(session_key_of(now, caller@)) matches Some(s)
                    && s.user_principal@ == p@ && s.created_at == now && s.expires_at
                    == session_end(now)) && forall|k: Seq<char>|
                    k != session_key_of(now, caller@) ==> #[trigger] final(self).session(k) == old(self).session(k),
                Err(e) => *final(self) == *old(self) && if auth.delegation_chain@.len() == 0 {
                    e@ == empty_chain()
                } else if base64_decoded(auth.delegation_chain@[0].delegation@) is None {
                    e@ == bad_delegation()
                } else {
                    chain_principal(auth.delegation_chain@[0].delegation@) is None && e@
                        == bad_principal()
                },
            },
    {
        let principal: Principal = match verify_delegation_chain(
            &auth.delegation_chain,
            auth.user_public_key.as_str(),
        ) {
            Ok(p) => p,
            Err(e) => {
                return Err(e);
            },
        };
        let key: String = generate_session_key(now, caller);
        match create_ii_session(principal.duplicate(), auth.delegation_chain, key, now) {
            Ok(session) => {
                self.open_session(session);
                Ok(principal)
            },
            Err(e) => Err(e),
        }
    }

    /// The principal of an open session.
    pub fn verify_ii_session(&self, session_key: &str, now: u64) -> (r: Result<Principal>)
        ensures
            match self.session(session_key@) {
                Some(s) => if now > s.expires_at {
                    r is Err && r->Err_0@ == expired_session()
                } else {
                    r is Ok && r->Ok_0@ == s.user_principal@
                },
                None => r is Err && r->Err_0@ == unknown_session(),
            },
    {
        match self.find(session_key) {
            Some(i) => {
                proof {
                    crate::assoc::lemma_lookup_first(
                        session_model(self.sessions@),
                        session_key@,
                        i as int,
                    );
                    assert(session_model(self.sessions@)[i as int].1 == self.sessions@[i as int]);
                }
                if now > self.sessions[i].expires_at {
                    Err(OpenMemoryError::authentication("Session expired", "session"))
                } else {
                    Ok(self.sessions[i].user_principal.duplicate())
                }
            },
            None => {
                proof {
                    crate::assoc::lemma_lookup_absent(session_model(self.sessions@), session_key@);
                }
                Err(OpenMemoryError::authentication("Invalid session", "session"))
            },
        }
    }

    /// Closes a session. Answers whether it was open.
    ///
    /// The first session of the key leaves and every other session stays,
    /// in order. In a registry that is a map no session has the key
    /// afterwards.
    pub fn revoke_session(&mut self, session_key: &str) -> (r: bool)
        ensures
            r == old(self).session(session_key@) is Some,
            !r ==> final(self).sessions == old(self).sessions,
            r ==> exists|i: int|
                #![trigger old(self).sessions@.remove(i)]
                crate::assoc::first_at(session_model(old(self).sessions@), session_key@, i)
                    && final(self).sessions@ == old(self).sessions@.remove(i),
            old(self).wf() ==> final(self).wf() && forall|k: Seq<char>|
                #[trigger] final(self).session(k) == if k == session_key@ {
                    None
                } else {
                    old(self).session(k)
                },
    {
        let ghost model = session_model(self.sessions@);
        match self.find(session_key) {
            Some(i) => {
                proof {
                    crate::assoc::lemma_lookup_first(model, session_key@, i as int);
                }
                self.sessions.remove(i);
                proof {
                    assert(self.sessions@ == old(self).sessions@.remove(i as int));
                    assert(session_model(self.sessions@) =~= model.remove(i as int));
                    if old(self).wf() {
                        assert(crate::assoc::distinct_keys(model)) by {
                            assert forall|x: int, y: int|
                                0 <= x < y < model.len() implies (#[trigger] model[x]).0 != (
                            #[trigger] model[y]).0 by {
                                assert((key_of_session())(old(self).sessions@[x]) != (
                                key_of_session())(old(self).sessions@[y]));
                            }
                        }
                        assert forall|k: Seq<char>|
                            #[trigger] self.session(k) == if k == session_key@ {
                                None
                            } else {
                                old(self).session(k)
                            } by {
                            crate::assoc::lemma_lookup_remove(model, i as int, k);
                        }
                        assert forall|x: int, y: int|
                            0 <= x < y < self.sessions@.len() implies (key_of_session())(
                            #[trigger] self.sessions@[x],
                        ) != (key_of_session())(#[trigger] self.sessions@[y]) by {
                            let a = if x < i {
                                x
                            } else {
                                x + 1
                            };
                            let b = if y < i {
                                y
                            } else {
                                y + 1
                            };
                            assert((key_of_session())(old(self).sessions@[a]) != (
                            key_of_session())(old(self).sessions@[b]));
                        }
                    }
                }
                true
            },
            None => {
                proof {
                    crate::assoc::lemma_lookup_absent(model, session_key@);
                }
                false
            },
        }
    }

    /// Copies of the sessions that are still open at `now`, in their
    /// order.
    pub fn list_active_sessions(&self, now: u64) -> (r: Vec<IISession>)
        ensures
            r@.len() == self.sessions@.filter(open_at(now)).len(),
            forall|i: int|
                0 <= i < r@.len() ==> same_session(
                    #[trigger] r@[i],
                    self.sessions@.filter(open_at(now))[i],
                ),
    {
        let mut out: Vec<IISession> = Vec::new();
        let mut i: usize = 0;
        proof {
            reveal(Seq::filter);
            assert(self.sessions@.take(0).filter(open_at(now)).len() == 0);
        }
        while i < self.sessions.len()
            invariant
                i <= self.sessions@.len(),
                out@.len() == self.sessions@.take(i as int).filter(open_at(now)).len(),
                forall|k: int|
                    0 <= k < out@.len() ==> same_session(
                        #[trigger] out@[k],
                        self.sessions@.take(i as int).filter(open_at(now))[k],
                    ),
            decreases self.sessions@.len() - i,
        {
            proof {
                crate::seqs::lemma_filter_step(self.sessions@, i as int, open_at(now));
            }
            if self.sessions[i].expires_at > now {
                out.push(self.sessions[i].duplicate());
            }
            i += 1;
        }
        assert(self.sessions@.take(self.sessions@.len() as int) == self.sessions@);
        out
    }

    /// Closes the sessions whose life is over at `now`.
    pub fn cleanup_expired_sessions(&mut self, now: u64)
        ensures
            final(self).sessions@ == old(self).sessions@.filter(open_at(now)),
            old(self).wf() ==> final(self).wf(),
    {
        let mut all: Vec<IISession> = Vec::new();
        core::mem::swap(&mut all, &mut self.sessions);
        let mut keep: Vec<bool> = Vec::new();
        let mut i: usize = 0;
        while i < all.len()
            invariant
                i <= all@.len(),
                keep@.len() == i,
                forall|k: int| 0 <= k < i ==> keep@[k] == (all@[k].expires_at > now),
            decreases all@.len() - i,
        {
            keep.push(all[i].expires_at > now);
            i += 1;
        }
        proof {
            lemma_masked_is_filter(all@, keep@, open_at(now));
            if old(self).wf() {
                crate::seqs::lemma_distinct_filter(all@, key_of_session(), open_at(now));
            }
        }
        self.sessions = keep_marked(all, &keep);
    }
}

} // verus!
