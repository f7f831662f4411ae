//! The access-token authority: issue, verify, list, revoke and sweep.

use crate::codec::write_text_field;
use crate::errors::{ErrorView, OpenMemoryError, Result};
use crate::records::{decode_token, encode_token, token_of_record, token_record};
use crate::region::{
    entries_view, lemma_readable_step, lists, readable, region_entries, region_get,
    region_put, region_remove, storable,
};
use crate::storage::Store;
use crate::text::{push_str, str_to_string};
use crate::types::{AccessToken, AccessTokenView, Permission, Principal, TokenInfo};
use crate::vector_store::{corrupt, key_of, too_large};
use vstd::prelude::*;

verus! {

/// One day in nanoseconds.
pub const DAY_NS: u64 = 86_400_000_000_000;

/// The longest life of a token, in days.
pub const MAX_DAYS: u32 = 365;

/// The token stored under `token`, if there is one that reads.
pub open spec fn token_at(store: Store, token: Seq<char>) -> Option<AccessTokenView> {
    if store.access_tokens@.contains_key(key_of(token)) {
        token_of_record(store.access_tokens@[key_of(token)])
    } else {
        None
    }
}

/// The refusal of a life that is not between one day and 365 days, or that
/// ends after the end of time.
pub open spec fn bad_life() -> ErrorView {
    ErrorView::Validation {
        message: "Token expiration must be between 1 and 365 days"@,
        field: Some("expires_in_days"@),
    }
}

/// The refusal of a token that is not known.
pub open spec fn unknown_token() -> ErrorView {
    ErrorView::Authentication { message: "Invalid token"@, auth_type: "invalid_token"@ }
}

/// The refusal of a token whose life is over.
pub open spec fn expired_token() -> ErrorView {
    ErrorView::Authentication { message: "Token expired"@, auth_type: "expired"@ }
}

/// The refusal of a caller who does not own the token.
pub open spec fn not_token_owner() -> ErrorView {
    ErrorView::Authentication {
        message: "Unauthorized to revoke this token"@,
        auth_type: "not_owner"@,
    }
}

/// Whether a token of `days` days can be issued at `now`.
pub open spec fn life_allowed(days: u32, now: u64) -> bool {
    1 <= days <= MAX_DAYS && now + days * DAY_NS <= u64::MAX
}

/// The view of an optional string.
pub open spec fn opt_label(o: Option<String>) -> Option<Seq<char>> {
    match o {
        Some(s) => Some(s@),
        None => None,
    }
}

/// Every token that reads is still alive at `now`.
pub open spec fn all_alive(tokens: Map<Seq<u8>, Seq<u8>>, now: u64) -> bool {
    forall|k: Seq<u8>| #[trigger]
        tokens.contains_key(k) ==> match token_of_record(tokens[k]) {
            Some(t) => now <= t.expires_at,
            None => true,
        }
}

/// The token that is issued.
pub open spec fn issued(
    owner: Seq<u8>,
    description: Option<Seq<char>>,
    permissions: Seq<Permission>,
    days: u32,
    now: u64,
    unique: Seq<char>,
) -> AccessTokenView {
    AccessTokenView {
        token: "om_token_"@ + unique,
        owner_principal: owner,
        issued_to: description,
        permissions,
        expires_at: (now + days * DAY_NS) as u64,
        created_at: now,
        last_used_at: None,
    }
}

/// The record of a token is short enough for the map.
pub open spec fn token_fits(t: AccessTokenView) -> bool {
    storable(key_of(t.token), token_record(t))
}

/// Issues a token for `owner_principal` that lives `expires_in_days` days
/// from `now`. The token is `om_token_` and the given unique id. A life
/// that is not allowed is rejected, and so is a token whose record is too
/// long for the map.
pub fn create_access_token(
    store: &mut Store,
    owner_principal: &Principal,
    description: Option<String>,
    permissions: Vec<Permission>,
    expires_in_days: u32,
    now: u64,
    unique: &str,
) -> (r: Result<AccessToken>)
    ensures
        final(store).memories@ == old(store).memories@,
        final(store).user_memories@ == old(store).user_memories@,
        final(store).conversations@ == old(store).conversations@,
        final(store).user_conversations@ == old(store).user_conversations@,
        final(store).user_config@ == old(store).user_config@,
        match r {
            Ok(t) => life_allowed(expires_in_days, now) && t@ == issued(
                owner_principal@,
                opt_label(description),
                permissions@,
                expires_in_days,
                now,
                unique@,
            ) && token_fits(t@) && t@.expires_at > t@.created_at && final(store).access_tokens@
                == old(store).access_tokens@.insert(key_of(t@.token), token_record(t@))
                && token_at(*final(store), t@.token) == Some(t@),
            Err(e) => final(store).access_tokens@ == old(store).access_tokens@ && if !life_allowed(
                expires_in_days,
                now,
            ) {
                e@ == bad_life()
            } else {
                !token_fits(
                    issued(
                        owner_principal@,
                        opt_label(description),
                        permissions@,
                        expires_in_days,
                        now,
                        unique@,
                    ),
                ) && e@ == too_large("create_access_token"@)
            },
        },
{
    if expires_in_days < 1 || expires_in_days > MAX_DAYS {
        return Err(
            OpenMemoryError::validation(
                "Token expiration must be between 1 and 365 days",
                Some("expires_in_days"),
            ),
        );
    }
    let life: u64 = (expires_in_days as u64) * DAY_NS;
    if now > u64::MAX - life {
        return Err(
            OpenMemoryError::validation(
                "Token expiration must be between 1 and 365 days",
                Some("expires_in_days"),
            ),
        );
    }
    let mut token: String = str_to_string("om_token_");
    push_str(&mut token, unique);
    let access = AccessToken {
        token,
        owner_principal: owner_principal.duplicate(),
        issued_to: description,
        permissions,
        expires_at: now + life,
        created_at: now,
        last_used_at: None,
    };
    let key: Vec<u8> = write_text_field(access.token.as_str());
    let record: Vec<u8> = encode_token(&access);
    if !region_put(&mut store.access_tokens, key, record) {
        return Err(OpenMemoryError::storage("Entry too large", "create_access_token"));
    }
    Ok(access)
}

/// What verifying `token` at `now` does to the tokens and answers: an
/// unknown token is refused; a token that does not read is reported; a
/// token whose life is over is removed and refused; a live token is marked
/// as used and names its owner. A live token whose record would then be
/// too long for the map is reported and stays as it is.
pub open spec fn verify_outcome(
    before: Map<Seq<u8>, Seq<u8>>,
    after: Map<Seq<u8>, Seq<u8>>,
    token: Seq<char>,
    now: u64,
    r: Result<Principal>,
) -> bool {
    if !before.contains_key(key_of(token)) {
        r is Err && r->Err_0@ == unknown_token() && after == before
    } else {
        match token_of_record(before[key_of(token)]) {
            None => r is Err && r->Err_0@ == corrupt("verify_access_token"@) && after == before,
            Some(t) => if now > t.expires_at {
                r is Err && r->Err_0@ == expired_token() && after == before.remove(key_of(token))
            } else {
                if storable(
                    key_of(token),
                    token_record(AccessTokenView { last_used_at: Some(now), ..t }),
                ) {
                    r is Ok && r->Ok_0@ == t.owner_principal && after == before.insert(
                        key_of(token),
                        token_record(AccessTokenView { last_used_at: Some(now), ..t }),
                    )
                } else {
                    r is Err && r->Err_0@ == too_large("verify_access_token"@) && after == before
                }
            },
        }
    }
}

/// Verifies a token at `now` and names its owner.
///
/// A token whose life is over is removed and refused. A live token is
/// marked as used at `now`; where its record would then be too long for
/// the map, the token stays as it is and the failure is reported.
pub fn verify_access_token(store: &mut Store, token: &str, now: u64) -> (r: Result<Principal>)
    ensures
        final(store).memories@ == old(store).memories@,
        final(store).user_memories@ == old(store).user_memories@,
        final(store).conversations@ == old(store).conversations@,
        final(store).user_conversations@ == old(store).user_conversations@,
        final(store).user_config@ == old(store).user_config@,
        r is Ok ==> token_at(*final(store), token@) is Some && now <= token_at(
            *final(store),
            token@,
        )->0.expires_at,
        verify_outcome(old(store).access_tokens@, final(store).access_tokens@, token@, now, r),
        r is Ok ==> token_at(*final(store), token@) == Some(
            AccessTokenView { last_used_at: Some(now), ..token_at(*old(store), token@)->0 },
        ),
        all_alive(old(store).access_tokens@, now) ==> all_alive(final(store).access_tokens@, now),
{
    let key: Vec<u8> = write_text_field(token);
    let bytes: Vec<u8> = match region_get(&store.access_tokens, &key) {
        Some(b) => b,
        None => {
            return Err(OpenMemoryError::authentication("Invalid token", "invalid_token"));
        },
    };
    let mut access: AccessToken = match decode_token(bytes.as_slice()) {
        Some(t) => t,
        None => {
            return Err(OpenMemoryError::storage("Stored value is corrupt", "verify_access_token"));
        },
    };
    if now > access.expires_at {
        region_remove(&mut store.access_tokens, &key);
        proof {
            assert forall|k: Seq<u8>| #[trigger]
                store.access_tokens@.contains_key(k) && all_alive(
                    old(store).access_tokens@,
                    now,
                ) implies match token_of_record(store.access_tokens@[k]) {
                Some(t) => now <= t.expires_at,
                None => true,
            } by {
                assert(old(store).access_tokens@.contains_key(k));
            }
        }
        return Err(OpenMemoryError::authentication("Token expired", "expired"));
    }
    let ghost found = access@;
    access.last_used_at = Some(now);
    let record: Vec<u8> = encode_token(&access);
    let marked: bool = region_put(&mut store.access_tokens, key, record);
    proof {
        assert(token_at(*old(store), token@) == Some(found));
        assert(access@ == AccessTokenView { last_used_at: Some(now), ..found });
        if storable(key_of(token@), token_record(access@)) {
            assert(store.access_tokens@[key_of(token@)] == token_record(access@));
        }
        assert forall|k: Seq<u8>| #[trigger]
            store.access_tokens@.contains_key(k) && all_alive(
                old(store).access_tokens@,
                now,
            ) implies match token_of_record(store.access_tokens@[k]) {
            Some(t) => now <= t.expires_at,
            None => true,
        } by {
            if k != key_of(token@) {
                assert(old(store).access_tokens@.contains_key(k));
            }
        }
    }
    if !marked {
        return Err(OpenMemoryError::storage("Entry too large", "verify_access_token"));
    }
    Ok(access.owner_principal)
}

/// Reads a record as an access token.
pub open spec fn token_reader() -> spec_fn(Seq<u8>) -> Option<AccessTokenView> {
    |bytes: Seq<u8>| token_of_record(bytes)
}

/// The tokens of an owner.
pub open spec fn issued_by(owner: Seq<u8>) -> spec_fn(AccessTokenView) -> bool {
    |t: AccessTokenView| t.owner_principal == owner
}

/// What the owner may see of a token.
pub struct TokenInfoView {
    pub description: Option<Seq<char>>,
    pub permissions: Seq<Permission>,
    pub expires_at: u64,
    pub created_at: u64,
    pub last_used_at: Option<u64>,
}

impl View for TokenInfo {
    type V = TokenInfoView;

    open spec fn view(&self) -> TokenInfoView {
        TokenInfoView {
            description: opt_label(self.description),
            permissions: self.permissions@,
            expires_at: self.expires_at,
            created_at: self.created_at,
            last_used_at: self.last_used_at,
        }
    }
}

/// What the owner may see of a token: all but the token itself.
pub open spec fn info_of(t: AccessTokenView) -> TokenInfoView {
    TokenInfoView {
        description: t.issued_to,
        permissions: t.permissions,
        expires_at: t.expires_at,
        created_at: t.created_at,
        last_used_at: t.last_used_at,
    }
}

pub open spec fn to_info() -> spec_fn(AccessTokenView) -> TokenInfoView {
    |t: AccessTokenView| info_of(t)
}

/// The views of a list of token infos.
pub open spec fn info_views(v: Seq<TokenInfo>) -> Seq<TokenInfoView> {
    v.map_values(|t: TokenInfo| t@)
}

/// The tokens of a user, in the order of the tokens themselves, each
/// without the token.
pub fn get_user_tokens(store: &Store, user_principal: &Principal) -> (r: Result<Vec<TokenInfo>>)
    ensures
        r is Ok,
        exists|listing: Seq<(Seq<u8>, Seq<u8>)>|
            lists(listing, store.access_tokens@) && #[trigger] readable(
                listing,
                token_reader(),
            ).filter(issued_by(user_principal@)).map_values(to_info()) == info_views(r->Ok_0@),
{
    let entries: Vec<(Vec<u8>, Vec<u8>)> = region_entries(&store.access_tokens);
    let ghost ev = entries_view(entries@);
    let ghost mine = issued_by(user_principal@);
    let mut out: Vec<TokenInfo> = Vec::new();
    let mut i: usize = 0;
    proof {
        reveal(Seq::filter);
        assert(readable(ev.take(0), token_reader()) =~= Seq::<AccessTokenView>::empty());
        assert(info_views(out@) =~= readable(ev.take(0), token_reader()).filter(mine).map_values(
            to_info(),
        ));
    }
    while i < entries.len()
        invariant
            i <= entries@.len(),
            ev == entries_view(entries@),
            mine == issued_by(user_principal@),
            info_views(out@) == readable(ev.take(i as int), token_reader()).filter(mine).map_values(
                to_info(),
            ),
        decreases entries@.len() - i,
    {
        assert(ev[i as int] == (entries@[i as int].0@, entries@[i as int].1@));
        let ghost a = readable(ev.take(i as int), token_reader());
        proof {
            lemma_readable_step(ev, i as int, token_reader());
        }
        match decode_token(entries[i].1.as_slice()) {
            Some(t) => {
                proof {
                    a.lemma_filter_push(t@, mine);
                }
                if t.owner_principal.same(user_principal) {
                    let info = TokenInfo {
                        description: t.issued_to,
                        permissions: t.permissions,
                        expires_at: t.expires_at,
                        created_at: t.created_at,
                        last_used_at: t.last_used_at,
                    };
                    let ghost before = out@;
                    out.push(info);
                    proof {
                        assert(info@ == info_of(t@));
                        assert(info_views(out@) =~= info_views(before).push(info@));
                        assert(a.filter(mine).push(t@).map_values(to_info()) =~= a.filter(
                            mine,
                        ).map_values(to_info()).push(info_of(t@)));
                    }
                }
            },
            None => {},
        }
        i += 1;
    }
    assert(ev.take(entries@.len() as int) == ev);
    Ok(out)
}

/// Revokes a token for its owner. Without such a token nothing changes and
/// the answer is `false`; the token of another owner is refused.
pub fn revoke_access_token(store: &mut Store, token: &str, user_principal: &Principal) -> (r: Result<
    bool,
>)
    ensures
        final(store).memories@ == old(store).memories@,
        final(store).user_memories@ == old(store).user_memories@,
        final(store).conversations@ == old(store).conversations@,
        final(store).user_conversations@ == old(store).user_conversations@,
        final(store).user_config@ == old(store).user_config@,
        !old(store).access_tokens@.contains_key(key_of(token@)) ==> r is Ok && r->Ok_0 == false
            && final(store).access_tokens@ == old(store).access_tokens@,
        old(store).access_tokens@.contains_key(key_of(token@)) ==> match token_at(
            *old(store),
            token@,
        ) {
            None => r is Err && r->Err_0@ == corrupt("revoke_access_token"@) && final(store).access_tokens@ == old(store).access_tokens@,
            Some(t) => if t.owner_principal == user_principal@ {
                r is Ok && r->Ok_0 == true && final(store).access_tokens@ == old(store).access_tokens@.remove(key_of(token@))
            } else {
                r is Err && r->Err_0@ == not_token_owner() && final(store).access_tokens@ == old(store).access_tokens@
            },
        },
{
    let key: Vec<u8> = write_text_field(token);
    let bytes: Vec<u8> = match region_get(&store.access_tokens, &key) {
        Some(b) => b,
        None => {
            return Ok(false);
        },
    };
    let access: AccessToken = match decode_token(bytes.as_slice()) {
        Some(t) => t,
        None => {
            return Err(OpenMemoryError::storage("Stored value is corrupt", "revoke_access_token"));
        },
    };
    if access.owner_principal.same(user_principal) {
        region_remove(&mut store.access_tokens, &key);
        Ok(true)
    } else {
        Err(OpenMemoryError::authentication("Unauthorized to revoke this token", "not_owner"))
    }
}

/// What a sweep at `now` makes of the token stored under `k`: a token whose
/// life is over goes, every other row stays.
pub open spec fn survives(tokens: Map<Seq<u8>, Seq<u8>>, k: Seq<u8>, now: u64) -> bool {
    tokens.contains_key(k) && match token_of_record(tokens[k]) {
        Some(t) => now <= t.expires_at,
        None => true,
    }
}

/// The tokens whose life is over at `now`.
pub open spec fn over_at(now: u64) -> spec_fn(AccessTokenView) -> bool {
    |t: AccessTokenView| now > t.expires_at
}

/// Removes the tokens whose life is over at `now` and answers how many
/// there were. Afterwards every token that reads is alive.
pub fn cleanup_expired_tokens(store: &mut Store, now: u64) -> (r: Result<usize>)
    ensures
        r is Ok,
        final(store).memories@ == old(store).memories@,
        final(store).user_memories@ == old(store).user_memories@,
        final(store).conversations@ == old(store).conversations@,
        final(store).user_conversations@ == old(store).user_conversations@,
        final(store).user_config@ == old(store).user_config@,
        forall|k: Seq<u8>|
            (#[trigger] final(store).access_tokens@.contains_key(k)) == survives(
                old(store).access_tokens@,
                k,
                now,
            ) && (final(store).access_tokens@.contains_key(k) ==> final(store).access_tokens@[k]
                == old(store).access_tokens@[k]),
        all_alive(final(store).access_tokens@, now),
        exists|listing: Seq<(Seq<u8>, Seq<u8>)>|
            lists(listing, old(store).access_tokens@) && #[trigger] readable(
                listing,
                token_reader(),
            ).filter(over_at(now)).len() == r->Ok_0,
{
    let entries: Vec<(Vec<u8>, Vec<u8>)> = region_entries(&store.access_tokens);
    let ghost before = store.access_tokens@;
    let ghost ev = entries_view(entries@);
    let mut removed: usize = 0;
    let mut i: usize = 0;
    proof {
        reveal(Seq::filter);
        assert(readable(ev.take(0), token_reader()) =~= Seq::<AccessTokenView>::empty());
    }
    while i < entries.len()
        invariant
            i <= entries@.len(),
            ev == entries_view(entries@),
            lists(ev, before),
            before == old(store).access_tokens@,
            store.memories@ == old(store).memories@,
            store.user_memories@ == old(store).user_memories@,
            store.conversations@ == old(store).conversations@,
            store.user_conversations@ == old(store).user_conversations@,
            store.user_config@ == old(store).user_config@,
            removed <= i,
            removed == readable(ev.take(i as int), token_reader()).filter(over_at(now)).len(),
            forall|j: int|
                0 <= j < i ==> store.access_tokens@.contains_key((#[trigger] ev[j]).0) == survives(
                    before,
                    ev[j].0,
                    now,
                ),
            forall|j: int|
                i <= j < ev.len() ==> store.access_tokens@.contains_key((#[trigger] ev[j]).0),
            forall|k: Seq<u8>| #[trigger]
                store.access_tokens@.contains_key(k) ==> before.contains_key(k)
                    && store.access_tokens@[k] == before[k],
        decreases entries@.len() - i,
    {
        assert(ev[i as int] == (entries@[i as int].0@, entries@[i as int].1@));
        let ghost a = readable(ev.take(i as int), token_reader());
        let ghost prev = store.access_tokens@;
        proof {
            lemma_readable_step(ev, i as int, token_reader());
        }
        match decode_token(entries[i].1.as_slice()) {
            Some(t) => {
                proof {
                    a.lemma_filter_push(t@, over_at(now));
                }
                if now > t.expires_at {
                    region_remove(&mut store.access_tokens, &entries[i].0);
                    removed += 1;
                }
            },
            None => {},
        }
        proof {
            assert forall|j: int| 0 <= j < i + 1 implies store.access_tokens@.contains_key(
                (#[trigger] ev[j]).0,
            ) == survives(before, ev[j].0, now) by {
                if j < i {
                    assert(ev[j].0 != ev[i as int].0);
                    assert(prev.contains_key(ev[j].0) == survives(before, ev[j].0, now));
                }
            }
            assert forall|j: int| i + 1 <= j < ev.len() implies store.access_tokens@.contains_key(
                (#[trigger] ev[j]).0,
            ) by {
                assert(ev[i as int].0 != ev[j].0);
                assert(prev.contains_key(ev[j].0));
            }
        }
        i += 1;
    }
    proof {
        assert(ev.take(entries@.len() as int) == ev);
        assert forall|k: Seq<u8>|
            (#[trigger] store.access_tokens@.contains_key(k)) == survives(before, k, now) && (
            store.access_tokens@.contains_key(k) ==> store.access_tokens@[k] == before[k]) by {
            if before.contains_key(k) {
                let j = choose|j: int| 0 <= j < ev.len() && (#[trigger] ev[j]).0 == k;
                assert(ev[j].0 == k);
            }
        }
    }
    Ok(removed)
}

} // verus!
