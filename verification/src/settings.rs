//! The provider settings of each user, and the models that the providers
//! offer.

use crate::errors::{OpenMemoryError, Result};
use crate::records::{config_of_record, config_record, decode_config, encode_config};
use crate::region::{put, region_get, region_put, storable};
use crate::storage::Store;
use crate::text::{push_str, str_to_string};
use crate::types::{ApiProvider, ModelInfo, ModelPricing, Principal, UserConfig, UserConfigView};
use crate::vector_store::{corrupt, too_large};
use vstd::prelude::*;

verus! {

/// The settings stored for `user`, if there are any that read.
pub open spec fn config_at(store: Store, user: Seq<u8>) -> Option<UserConfigView> {
    if store.user_config@.contains_key(user) {
        config_of_record(store.user_config@[user])
    } else {
        None
    }
}

/// The settings of a user who has set nothing yet.
pub open spec fn fresh_config(user: Seq<u8>, now: u64) -> UserConfigView {
    UserConfigView {
        user_id: user,
        openai_api_key: None,
        openrouter_api_key: None,
        api_provider: ApiProvider::OpenAI,
        embedding_model: "text-embedding-ada-002"@,
        created_at: now,
        updated_at: now,
    }
}

/// The settings that a change starts from: those stored, under the name of
/// the user, or fresh ones.
pub open spec fn base_config(store: Store, user: Seq<u8>, now: u64) -> UserConfigView {
    match config_at(store, user) {
        Some(c) => UserConfigView { user_id: user, ..c },
        None => fresh_config(user, now),
    }
}

/// The view of an optional string.
pub open spec fn opt_chars(o: Option<String>) -> Option<Seq<char>> {
    match o {
        Some(s) => Some(s@),
        None => None,
    }
}

/// The settings of `user`.
pub fn get_user_config(store: &Store, user_id: &Principal) -> (r: Result<Option<UserConfig>>)
    ensures
        match r {
            Ok(Some(c)) => config_at(*store, user_id@) == Some(c@),
            Ok(None) => !store.user_config@.contains_key(user_id@),
            Err(e) => store.user_config@.contains_key(user_id@) && config_at(*store, user_id@)
                is None && e@ == corrupt("get_user_config"@),
        },
{
    let key: Vec<u8> = user_id.bytes.clone();
    match region_get(&store.user_config, &key) {
        Some(bytes) => match decode_config(bytes.as_slice()) {
            Some(c) => Ok(Some(c)),
            None => Err(OpenMemoryError::storage("Stored value is corrupt", "get_user_config")),
        },
        None => Ok(None),
    }
}

/// The settings are short enough for the map.
pub open spec fn config_fits(config: UserConfigView) -> bool {
    storable(config.user_id, config_record(config))
}

/// The settings of the user are stored and do not read.
pub open spec fn unreadable(store: Store, user_id: Seq<u8>) -> bool {
    store.user_config@.contains_key(user_id) && config_at(store, user_id) is None
}

/// What a write of settings answers: nothing where the stored settings do
/// not read or the new ones are too long for the map.
pub open spec fn write_outcome(
    before: Store,
    after: Store,
    user_id: Seq<u8>,
    next: UserConfigView,
    operation: Seq<char>,
    r: Result<()>,
) -> bool {
    match r {
        Ok(_) => !unreadable(before, user_id) && config_fits(next) && config_at(after, user_id)
            == Some(next) && after.user_config@ == before.user_config@.insert(
            user_id,
            config_record(next),
        ),
        Err(e) => after.user_config@ == before.user_config@ && if unreadable(before, user_id) {
            e@ == corrupt("get_user_config"@)
        } else {
            !config_fits(next) && e@ == too_large(operation)
        },
    }
}

fn write_config(store: &mut Store, config: &UserConfig) -> (stored: bool)
    ensures
        stored == config_fits(config@),
        final(store).user_config@ == put(
            old(store).user_config@,
            config.user_id@,
            config_record(config@),
        ),
        stored ==> config_at(*final(store), config.user_id@) == Some(config@),
        final(store).memories@ == old(store).memories@,
        final(store).user_memories@ == old(store).user_memories@,
        final(store).conversations@ == old(store).conversations@,
        final(store).user_conversations@ == old(store).user_conversations@,
        final(store).access_tokens@ == old(store).access_tokens@,
{
    let key: Vec<u8> = config.user_id.bytes.clone();
    let record: Vec<u8> = encode_config(config);
    region_put(&mut store.user_config, key, record)
}

fn load_or_fresh(store: &Store, user_id: &Principal, now: u64) -> (r: Result<UserConfig>)
    ensures
        match r {
            Ok(c) => c@ == base_config(*store, user_id@, now) && !(store.user_config@.contains_key(
                user_id@,
            ) && config_at(*store, user_id@) is None),
            Err(e) => store.user_config@.contains_key(user_id@) && config_at(*store, user_id@)
                is None && e@ == corrupt("get_user_config"@),
        },
{
    match get_user_config(store, user_id) {
        Ok(Some(c)) => {
            let mut config: UserConfig = c;
            config.user_id = user_id.duplicate();
            Ok(config)
        },
        Ok(None) => Ok(
            UserConfig {
                user_id: user_id.duplicate(),
                openai_api_key: None,
                openrouter_api_key: None,
                api_provider: ApiProvider::OpenAI,
                embedding_model: str_to_string("text-embedding-ada-002"),
                created_at: now,
                updated_at: now,
            },
        ),
        Err(e) => Err(e),
    }
}

/// Sets the OpenAI key of a user. Settings are made on the first write.
/// Stored settings that do not read are reported and stay; so are new
/// settings that are too long for the map.
pub fn save_user_config(store: &mut Store, user_id: &Principal, openai_api_key: String, now: u64) -> (r:
    Result<()>)
    ensures
        write_outcome(
            *old(store),
            *final(store),
            user_id@,
            UserConfigView {
                openai_api_key: Some(openai_api_key@),
                updated_at: now,
                ..base_config(*old(store), user_id@, now)
            },
            "save_user_config"@,
            r,
        ),
        final(store).memories@ == old(store).memories@,
        final(store).access_tokens@ == old(store).access_tokens@,
{
    let mut config: UserConfig = match load_or_fresh(store, user_id, now) {
        Ok(c) => c,
        Err(e) => {
            return Err(e);
        },
    };
    config.openai_api_key = Some(openai_api_key);
    config.updated_at = now;
    if !write_config(store, &config) {
        return Err(OpenMemoryError::storage("Entry too large", "save_user_config"));
    }
    Ok(())
}

/// What an update makes of settings: each given value replaces the stored
/// one, and `now` becomes the time of the last change.
pub open spec fn updated_config(
    base: UserConfigView,
    openai_key: Option<Seq<char>>,
    openrouter_key: Option<Seq<char>>,
    provider: Option<ApiProvider>,
    model: Option<Seq<char>>,
    now: u64,
) -> UserConfigView {
    UserConfigView {
        user_id: base.user_id,
        openai_api_key: if openai_key is Some {
            openai_key
        } else {
            base.openai_api_key
        },
        openrouter_api_key: if openrouter_key is Some {
            openrouter_key
        } else {
            base.openrouter_api_key
        },
        api_provider: match provider {
            Some(p) => p,
            None => base.api_provider,
        },
        embedding_model: match model {
            Some(m) => m,
            None => base.embedding_model,
        },
        created_at: base.created_at,
        updated_at: now,
    }
}

/// Updates the settings of a user with the values that are given. Stored
/// settings that do not read are reported and stay; so are new settings
/// that are too long for the map.
pub fn update_user_config(
    store: &mut Store,
    user_id: &Principal,
    openai_key: Option<String>,
    openrouter_key: Option<String>,
    provider: Option<ApiProvider>,
    model: Option<String>,
    now: u64,
) -> (r: Result<()>)
    ensures
        write_outcome(
            *old(store),
            *final(store),
            user_id@,
            updated_config(
                base_config(*old(store), user_id@, now),
                opt_chars(openai_key),
                opt_chars(openrouter_key),
                provider,
                opt_chars(model),
                now,
            ),
            "update_user_config"@,
            r,
        ),
        final(store).memories@ == old(store).memories@,
        final(store).access_tokens@ == old(store).access_tokens@,
{
    let mut config: UserConfig = match load_or_fresh(store, user_id, now) {
        Ok(c) => c,
        Err(e) => {
            return Err(e);
        },
    };
    match openai_key {
        Some(k) => {
            config.openai_api_key = Some(k);
        },
        None => {},
    }
    match openrouter_key {
        Some(k) => {
            config.openrouter_api_key = Some(k);
        },
        None => {},
    }
    match provider {
        Some(p) => {
            config.api_provider = p;
        },
        None => {},
    }
    match model {
        Some(m) => {
            config.embedding_model = m;
        },
        None => {},
    }
    config.updated_at = now;
    if !write_config(store, &config) {
        return Err(OpenMemoryError::storage("Entry too large", "update_user_config"));
    }
    Ok(())
}

/// The OpenAI key of a user, if one is set and the settings read.
pub fn get_user_openai_key(store: &Store, user_id: &Principal) -> (r: Option<String>)
    ensures
        opt_chars(r) == match config_at(*store, user_id@) {
            Some(c) => c.openai_api_key,
            None => None,
        },
{
    match get_user_config(store, user_id) {
        Ok(Some(c)) => c.openai_api_key,
        _ => None,
    }
}

/// The settings of a user without the OpenAI key, changed at `now`.
pub open spec fn without_key(config: UserConfigView, user_id: Seq<u8>, now: u64) -> UserConfigView {
    UserConfigView { user_id, openai_api_key: None, updated_at: now, ..config }
}

/// Deletes the OpenAI key of a user. Answers whether the user has
/// settings.
pub fn delete_user_openai_key(store: &mut Store, user_id: &Principal, now: u64) -> (r: Result<bool>)
    ensures
        match r {
            Ok(true) => config_at(*old(store), user_id@) matches Some(c) && write_outcome(
                *old(store),
                *final(store),
                user_id@,
                without_key(c, user_id@, now),
                "delete_user_openai_key"@,
                Ok(()),
            ),
            Ok(false) => !old(store).user_config@.contains_key(user_id@) && final(store).user_config@ == old(store).user_config@,
            Err(e) => old(store).user_config@.contains_key(user_id@) && match config_at(
                *old(store),
                user_id@,
            ) {
                Some(c) => write_outcome(
                    *old(store),
                    *final(store),
                    user_id@,
                    without_key(c, user_id@, now),
                    "delete_user_openai_key"@,
                    Err(e),
                ),
                None => e@ == corrupt("get_user_config"@) && final(store).user_config@ == old(store).user_config@,
            },
        },
        final(store).memories@ == old(store).memories@,
        final(store).access_tokens@ == old(store).access_tokens@,
{
    match get_user_config(store, user_id) {
        Ok(Some(c)) => {
            let mut config: UserConfig = c;
            config.user_id = user_id.duplicate();
            config.openai_api_key = None;
            config.updated_at = now;
            if !write_config(store, &config) {
                return Err(OpenMemoryError::storage("Entry too large", "delete_user_openai_key"));
            }
            Ok(true)
        },
        Ok(None) => Ok(false),
        Err(e) => Err(e),
    }
}

/// The name under which a provider lists a model.
pub open spec fn listed_name(provider: ApiProvider, id: Seq<char>) -> Seq<char> {
    match provider {
        ApiProvider::OpenAI => id,
        ApiProvider::OpenRouter => "OpenAI: "@ + id,
    }
}

/// The name of a provider.
pub open spec fn provider_name(provider: ApiProvider) -> Seq<char> {
    match provider {
        ApiProvider::OpenAI => "OpenAI"@,
        ApiProvider::OpenRouter => "OpenRouter"@,
    }
}

/// The embedding models: their ids and their price per token in billionths
/// of a dollar.
pub open spec fn model_table() -> Seq<(Seq<char>, u64)> {
    seq![
        ("text-embedding-ada-002"@, 100_000u64),
        ("text-embedding-3-small"@, 20_000u64),
        ("text-embedding-3-large"@, 130_000u64),
    ]
}

fn model_of(provider: ApiProvider, id: &str, price: u64) -> (m: ModelInfo)
    ensures
        m.id@ == id@,
        m.name@ == listed_name(provider, id@),
        m.provider@ == provider_name(provider),
        m.context_length == 8191,
        m.pricing == Some(ModelPricing { prompt: price, completion: price }),
{
    let name: String = match provider {
        ApiProvider::OpenAI => str_to_string(id),
        ApiProvider::OpenRouter => {
            let mut n = str_to_string("OpenAI: ");
            push_str(&mut n, id);
            n
        },
    };
    let provider_text: String = match provider {
        ApiProvider::OpenAI => str_to_string("OpenAI"),
        ApiProvider::OpenRouter => str_to_string("OpenRouter"),
    };
    ModelInfo {
        id: str_to_string(id),
        name,
        provider: provider_text,
        context_length: 8191,
        pricing: Some(ModelPricing { prompt: price, completion: price }),
    }
}

/// The models are those that the provider offers: the models of the
/// table in its order, under the names of the provider.
pub open spec fn offered(models: Seq<ModelInfo>, provider: ApiProvider) -> bool {
    &&& models.len() == model_table().len()
    &&& forall|i: int|
        0 <= i < models.len() ==> (#[trigger] models[i]).id@ == model_table()[i].0 && models[i].name@
            == listed_name(provider, model_table()[i].0) && models[i].provider@ == provider_name(
            provider,
        ) && models[i].context_length == 8191 && models[i].pricing == Some(
            ModelPricing { prompt: model_table()[i].1, completion: model_table()[i].1 },
        )
}

/// The embedding models that a provider offers.
pub fn get_available_models(provider: &ApiProvider) -> (r: Vec<ModelInfo>)
    ensures
        offered(r@, *provider),
        r@.len() == model_table().len(),
        forall|i: int|
            0 <= i < r@.len() ==> (#[trigger] r@[i]).id@ == model_table()[i].0 && r@[i].name@
                == listed_name(*provider, model_table()[i].0) && r@[i].provider@ == provider_name(
                *provider,
            ) && r@[i].context_length == 8191 && r@[i].pricing == Some(
                ModelPricing { prompt: model_table()[i].1, completion: model_table()[i].1 },
            ),
{
    let mut r: Vec<ModelInfo> = Vec::new();
    r.push(model_of(*provider, "text-embedding-ada-002", 100_000));
    r.push(model_of(*provider, "text-embedding-3-small", 20_000));
    r.push(model_of(*provider, "text-embedding-3-large", 130_000));
    r
}

/// What the owner sees of a key: its first eight characters and three dots,
/// or `short` if the key has at most eight bytes.
pub open spec fn key_preview_of(key: Seq<char>, short: Seq<char>) -> Seq<char> {
    if crate::validation::byte_len(key) > 8 && key.len() >= 8 {
        key.take(8) + "..."@
    } else {
        short
    }
}

/// The preview of a key.
pub fn key_preview(key: &str, short: &str) -> (r: String)
    ensures
        r@ == key_preview_of(key@, short@),
{
    let chars: Vec<char> = crate::text::to_chars(key);
    if crate::validation::str_byte_len(key) > 8 && chars.len() >= 8 {
        let head: Vec<char> = crate::text::chars_range(&chars, 0, 8);
        assert(chars@.subrange(0, 8) == chars@.take(8));
        let mut r: String = crate::text::from_chars(&head);
        push_str(&mut r, "...");
        r
    } else {
        str_to_string(short)
    }
}

} // verus!
