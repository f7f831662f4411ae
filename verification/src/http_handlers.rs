//! Which handler a request goes to, and the handlers that only read.

use crate::errors::Result;
use crate::settings::{config_at, get_available_models, get_user_config, key_preview, key_preview_of};
use crate::storage::{get_memory, Store};
use crate::text::{
    parse_number, number_of, starts_with, str_eq, str_starts_with, str_strip_prefix, str_to_string,
    to_uppercase, uppercase,
};
use crate::types::{
    pairs, strs, ApiProvider, ConfigResponse, HttpRequest, HttpResponse, Memory, Principal,
};
use crate::utils::{cors_headers, create_cors_headers, extract_path, get_param, path_of};
use vstd::prelude::*;

verus! {

/// Where a request goes that may change or must authenticate.
#[derive(Debug, Clone, Copy, PartialEq, Eq, Structural)]
pub enum UpdateRoute {
    SemanticSearch,
    AddMemory,
    AddSimpleMemory,
    SaveConversation,
    ListConversations,
    UpdateConfig,
    SetOpenAiKey,
    GetConfig,
    DeleteOpenAiKey,
    DeleteMemory,
    BulkAdd,
    BulkDelete,
    CreateToken,
    ListTokens,
    RevokeToken,
    CreateClusters,
    NotFound,
}

/// Where a request goes that only reads.
#[derive(Debug, Clone, Copy, PartialEq, Eq, Structural)]
pub enum QueryRoute {
    Health,
    Stats,
    VectorStats,
    Sessions,
    Suggestions,
    Clusters,
    Categories,
    /// A search by `GET`: searches are asked for by `POST`.
    SearchNeedsPost,
    GetMemory,
    ListMemories,
    TestAuth,
    QuickMemory,
    SaveMemory,
    SimpleMemory,
    /// The request is answered by the handlers that may change.
    Upgrade,
    Preflight,
    NotFound,
}

/// Where a request with the given method, in upper case, and path goes
/// among the handlers that may change.
pub open spec fn update_route(method: Seq<char>, path: Seq<char>) -> UpdateRoute {
    if method == "POST"@ && path == "/memories/search"@ {
        UpdateRoute::SemanticSearch
    } else if method == "POST"@ && path == "/memories"@ {
        UpdateRoute::AddMemory
    } else if method == "POST"@ && path == "/simple-memories"@ {
        UpdateRoute::AddSimpleMemory
    } else if method == "POST"@ && path == "/conversations"@ {
        UpdateRoute::SaveConversation
    } else if method == "GET"@ && path == "/conversations"@ {
        UpdateRoute::ListConversations
    } else if method == "POST"@ && path == "/config"@ {
        UpdateRoute::UpdateConfig
    } else if method == "POST"@ && path == "/config/openai-key"@ {
        UpdateRoute::SetOpenAiKey
    } else if method == "GET"@ && path == "/config"@ {
        UpdateRoute::GetConfig
    } else if method == "DELETE"@ && path == "/config/openai-key"@ {
        UpdateRoute::DeleteOpenAiKey
    } else if method == "POST"@ && path == "/memories/bulk"@ {
        UpdateRoute::BulkAdd
    } else if method == "DELETE"@ && path == "/memories/bulk"@ {
        UpdateRoute::BulkDelete
    } else if method == "DELETE"@ && starts_with(path, "/memories/"@) {
        UpdateRoute::DeleteMemory
    } else if method == "POST"@ && path == "/auth/tokens"@ {
        UpdateRoute::CreateToken
    } else if method == "GET"@ && path == "/auth/tokens"@ {
        UpdateRoute::ListTokens
    } else if method == "DELETE"@ && starts_with(path, "/auth/tokens/"@) {
        UpdateRoute::RevokeToken
    } else if method == "POST"@ && path == "/clusters"@ {
        UpdateRoute::CreateClusters
    } else {
        UpdateRoute::NotFound
    }
}

/// Where a request with the given method, in upper case, and path goes
/// among the handlers that only read.
pub open spec fn query_route(method: Seq<char>, path: Seq<char>) -> QueryRoute {
    if method == "GET"@ && path == "/health"@ {
        QueryRoute::Health
    } else if method == "GET"@ && path == "/stats"@ {
        QueryRoute::Stats
    } else if method == "GET"@ && path == "/stats/vectors"@ {
        QueryRoute::VectorStats
    } else if method == "GET"@ && path == "/auth/sessions"@ {
        QueryRoute::Sessions
    } else if method == "GET"@ && starts_with(path, "/suggestions"@) {
        QueryRoute::Suggestions
    } else if method == "GET"@ && starts_with(path, "/clusters"@) {
        QueryRoute::Clusters
    } else if method == "GET"@ && path == "/categories"@ {
        QueryRoute::Categories
    } else if method == "GET"@ && starts_with(path, "/memories/search"@) {
        QueryRoute::SearchNeedsPost
    } else if method == "GET"@ && starts_with(path, "/memories/"@) {
        QueryRoute::GetMemory
    } else if method == "GET"@ && path == "/memories"@ {
        QueryRoute::ListMemories
    } else if method == "GET"@ && starts_with(path, "/test-auth"@) {
        QueryRoute::TestAuth
    } else if method == "GET"@ && starts_with(path, "/quick-memory"@) {
        QueryRoute::QuickMemory
    } else if method == "GET"@ && starts_with(path, "/save-memory"@) {
        QueryRoute::SaveMemory
    } else if method == "GET"@ && starts_with(path, "/simple-memory"@) {
        QueryRoute::SimpleMemory
    } else if update_route(method, path) != UpdateRoute::NotFound {
        QueryRoute::Upgrade
    } else if method == "OPTIONS"@ {
        QueryRoute::Preflight
    } else {
        QueryRoute::NotFound
    }
}

/// Where a request goes among the handlers that may change.
pub fn route_update(method: &str, path: &str) -> (r: UpdateRoute)
    ensures
        r == update_route(method@, path@),
{
    let post: bool = str_eq(method, "POST");
    let get: bool = str_eq(method, "GET");
    let delete: bool = str_eq(method, "DELETE");
    if post && str_eq(path, "/memories/search") {
        UpdateRoute::SemanticSearch
    } else if post && str_eq(path, "/memories") {
        UpdateRoute::AddMemory
    } else if post && str_eq(path, "/simple-memories") {
        UpdateRoute::AddSimpleMemory
    } else if post && str_eq(path, "/conversations") {
        UpdateRoute::SaveConversation
    } else if get && str_eq(path, "/conversations") {
        UpdateRoute::ListConversations
    } else if post && str_eq(path, "/config") {
        UpdateRoute::UpdateConfig
    } else if post && str_eq(path, "/config/openai-key") {
        UpdateRoute::SetOpenAiKey
    } else if get && str_eq(path, "/config") {
        UpdateRoute::GetConfig
    } else if delete && str_eq(path, "/config/openai-key") {
        UpdateRoute::DeleteOpenAiKey
    } else if post && str_eq(path, "/memories/bulk") {
        UpdateRoute::BulkAdd
    } else if delete && str_eq(path, "/memories/bulk") {
        UpdateRoute::BulkDelete
    } else if delete && str_starts_with(path, "/memories/") {
        UpdateRoute::DeleteMemory
    } else if post && str_eq(path, "/auth/tokens") {
        UpdateRoute::CreateToken
    } else if get && str_eq(path, "/auth/tokens") {
        UpdateRoute::ListTokens
    } else if delete && str_starts_with(path, "/auth/tokens/") {
        UpdateRoute::RevokeToken
    } else if post && str_eq(path, "/clusters") {
        UpdateRoute::CreateClusters
    } else {
        UpdateRoute::NotFound
    }
}

/// Where a request goes among the handlers that only read.
pub fn route_query(method: &str, path: &str) -> (r: QueryRoute)
    ensures
        r == query_route(method@, path@),
{
    let get: bool = str_eq(method, "GET");
    if get && str_eq(path, "/health") {
        QueryRoute::Health
    } else if get && str_eq(path, "/stats") {
        QueryRoute::Stats
    } else if get && str_eq(path, "/stats/vectors") {
        QueryRoute::VectorStats
    } else if get && str_eq(path, "/auth/sessions") {
        QueryRoute::Sessions
    } else if get && str_starts_with(path, "/suggestions") {
        QueryRoute::Suggestions
    } else if get && str_starts_with(path, "/clusters") {
        QueryRoute::Clusters
    } else if get && str_eq(path, "/categories") {
        QueryRoute::Categories
    } else if get && str_starts_with(path, "/memories/search") {
        QueryRoute::SearchNeedsPost
    } else if get && str_starts_with(path, "/memories/") {
        QueryRoute::GetMemory
    } else if get && str_eq(path, "/memories") {
        QueryRoute::ListMemories
    } else if get && str_starts_with(path, "/test-auth") {
        QueryRoute::TestAuth
    } else if get && str_starts_with(path, "/quick-memory") {
        QueryRoute::QuickMemory
    } else if get && str_starts_with(path, "/save-memory") {
        QueryRoute::SaveMemory
    } else if get && str_starts_with(path, "/simple-memory") {
        QueryRoute::SimpleMemory
    } else if route_update(method, path) != UpdateRoute::NotFound {
        QueryRoute::Upgrade
    } else if str_eq(method, "OPTIONS") {
        QueryRoute::Preflight
    } else {
        QueryRoute::NotFound
    }
}

/// Where a request that only reads goes: by its method in upper case and
/// the path of its target.
pub fn handle_http_request(req: &HttpRequest) -> (r: QueryRoute)
    ensures
        r == query_route(uppercase(req.method@), path_of(req.url@)),
{
    let path: String = extract_path(req.url.as_str());
    let method: String = to_uppercase(req.method.as_str());
    route_query(method.as_str(), path.as_str())
}

/// Where a request that may change goes: by its method in upper case and
/// the path of its target.
pub fn handle_http_request_update(req: &HttpRequest) -> (r: UpdateRoute)
    ensures
        r == update_route(uppercase(req.method@), path_of(req.url@)),
{
    let path: String = extract_path(req.url.as_str());
    let method: String = to_uppercase(req.method.as_str());
    route_update(method.as_str(), path.as_str())
}

/// The answer to a preflight request: no content, with the fixed headers.
pub fn handle_cors_preflight() -> (r: HttpResponse)
    ensures
        r.status_code == 204,
        pairs(r.headers@) == cors_headers(),
        r.body@.len() == 0,
        r.upgrade == Some(false),
{
    HttpResponse {
        status_code: 204,
        headers: create_cors_headers(),
        body: Vec::new(),
        upgrade: Some(false),
    }
}

/// The answer that hands a request over to the handlers that may change.
pub fn upgrade_response() -> (r: HttpResponse)
    ensures
        r.status_code == 204,
        pairs(r.headers@) == cors_headers(),
        r.body@.len() == 0,
        r.upgrade == Some(true),
{
    HttpResponse {
        status_code: 204,
        headers: create_cors_headers(),
        body: Vec::new(),
        upgrade: Some(true),
    }
}

/// The categories that a client may file memories under.
pub open spec fn filing_categories() -> Seq<Seq<char>> {
    seq![
        "work"@,
        "personal"@,
        "learning"@,
        "ideas"@,
        "research"@,
        "projects"@,
        "meetings"@,
        "notes"@,
        "reminders"@,
        "goals"@,
    ]
}

/// The categories that a client may file memories under.
pub fn handle_get_categories() -> (r: Vec<String>)
    ensures
        strs(r@) == filing_categories(),
{
    let mut r: Vec<String> = Vec::new();
    r.push(str_to_string("work"));
    r.push(str_to_string("personal"));
    r.push(str_to_string("learning"));
    r.push(str_to_string("ideas"));
    r.push(str_to_string("research"));
    r.push(str_to_string("projects"));
    r.push(str_to_string("meetings"));
    r.push(str_to_string("notes"));
    r.push(str_to_string("reminders"));
    r.push(str_to_string("goals"));
    assert(strs(r@) =~= filing_categories());
    r
}

/// The number that a parameter asks for: the number that its value spells,
/// or `default` without a value that spells one, and at most `max`.
pub open spec fn asked_count(value: Option<Seq<char>>, default: usize, max: usize) -> usize {
    let n = match value {
        Some(v) => match number_of(v) {
            Some(n) => if n <= usize::MAX {
                n as usize
            } else {
                default
            },
            None => default,
        },
        None => default,
    };
    if n < max {
        n
    } else {
        max
    }
}

/// The view of an optional string.
pub open spec fn opt_value(o: Option<String>) -> Option<Seq<char>> {
    match o {
        Some(s) => Some(s@),
        None => None,
    }
}

/// The number that a parameter asks for.
pub fn parse_count(value: &Option<String>, default: usize, max: usize) -> (r: usize)
    ensures
        r == asked_count(opt_value(*value), default, max),
{
    let n: usize = match value {
        Some(v) => match parse_number(v.as_str()) {
            Some(n) => n,
            None => default,
        },
        None => default,
    };
    if n < max {
        n
    } else {
        max
    }
}

/// The id that a path under `/memories/` names, if it names one.
pub open spec fn memory_id_of(path: Seq<char>) -> Option<Seq<char>> {
    if starts_with(path, "/memories/"@) && path.len() > 10 {
        Some(path.skip(10))
    } else {
        None
    }
}

/// What the request for one memory answers: the memory, or the status of
/// the failure.
pub fn handle_get_memory(store: &Store, req: &HttpRequest) -> (r: core::result::Result<Memory, u16>)
    ensures
        match memory_id_of(path_of(req.url@)) {
            None => r == Err::<Memory, u16>(400),
            Some(id) => if !store.memories@.contains_key(crate::vector_store::key_of(id)) {
                r == Err::<Memory, u16>(404)
            } else {
                match store.memory(id) {
                    Some(m) => r is Ok && r->Ok_0@ == m,
                    None => r == Err::<Memory, u16>(500),
                }
            },
        },
{
    let path: String = extract_path(req.url.as_str());
    proof {
        reveal_strlit("/memories/");
    }
    let id: String = match str_strip_prefix(path.as_str(), "/memories/") {
        Some(id) => id,
        None => {
            return Err(400);
        },
    };
    if id.as_str().is_empty() {
        return Err(400);
    }
    match get_memory(store, id.as_str()) {
        Ok(Some(m)) => Ok(m),
        Ok(None) => Err(404),
        Err(_) => Err(500),
    }
}

/// The page that the request for a listing asks for: its offset, and its
/// limit, which is fifty if none is given and never more than a hundred.
pub fn handle_list_memories(req: &HttpRequest) -> (r: (usize, usize))
    ensures
        r.0 == asked_count(
            crate::utils::last_value(crate::utils::query_params(req.url@), "offset"@),
            0,
            usize::MAX,
        ),
        r.1 == asked_count(
            crate::utils::last_value(crate::utils::query_params(req.url@), "limit"@),
            50,
            100,
        ),
{
    let params: Vec<(String, String)> = crate::utils::parse_query_params(req.url.as_str());
    let limit: usize = parse_count(&get_param(&params, "limit"), 50, 100);
    let offset: usize = parse_count(&get_param(&params, "offset"), 0, usize::MAX);
    (offset, limit)
}

/// The name of a provider.
pub fn provider_label(p: ApiProvider) -> (r: String)
    ensures
        r@ == crate::settings::provider_name(p),
{
    match p {
        ApiProvider::OpenAI => str_to_string("OpenAI"),
        ApiProvider::OpenRouter => str_to_string("OpenRouter"),
    }
}

/// The settings of a user as the user may see them: whether keys are set,
/// previews in place of the keys, and the models of the provider. A user
/// without settings sees the settings that a first write would start from.
pub fn handle_get_config(store: &Store, user: &Principal) -> (r: Result<ConfigResponse>)
    ensures
        match r {
            Ok(c) => match config_at(*store, user@) {
                Some(s) => c.has_openai_key == s.openai_api_key is Some && c.has_openrouter_key
                    == s.openrouter_api_key is Some && opt_value(c.openai_key_preview) == (
                match s.openai_api_key {
                    Some(k) => Some(key_preview_of(k, "sk-***"@)),
                    None => None,
                }) && opt_value(c.openrouter_key_preview) == (match s.openrouter_api_key {
                    Some(k) => Some(key_preview_of(k, "***"@)),
                    None => None,
                }) && c.api_provider@ == crate::settings::provider_name(s.api_provider)
                    && c.embedding_model@ == s.embedding_model && c.updated_at == Some(
                    s.updated_at,
                ) && crate::settings::offered(c.available_models@, s.api_provider),
                None => !store.user_config@.contains_key(user@) && !c.has_openai_key
                    && !c.has_openrouter_key && c.openai_key_preview is None
                    && c.openrouter_key_preview is None && c.api_provider@ == "OpenAI"@
                    && c.embedding_model@ == "text-embedding-ada-002"@ && c.updated_at is None
                    && crate::settings::offered(c.available_models@, ApiProvider::OpenAI),
            },
            Err(e) => store.user_config@.contains_key(user@) && config_at(*store, user@) is None,
        },
{
    match get_user_config(store, user) {
        Ok(Some(config)) => {
            let openai_key_preview: Option<String> = match &config.openai_api_key {
                Some(k) => Some(key_preview(k.as_str(), "sk-***")),
                None => None,
            };
            let openrouter_key_preview: Option<String> = match &config.openrouter_api_key {
                Some(k) => Some(key_preview(k.as_str(), "***")),
                None => None,
            };
            Ok(
                ConfigResponse {
                    has_openai_key: config.openai_api_key.is_some(),
                    has_openrouter_key: config.openrouter_api_key.is_some(),
                    openai_key_preview,
                    openrouter_key_preview,
                    api_provider: provider_label(config.api_provider),
                    embedding_model: config.embedding_model,
                    available_models: get_available_models(&config.api_provider),
                    updated_at: Some(config.updated_at),
                },
            )
        },
        Ok(None) => Ok(
            ConfigResponse {
                has_openai_key: false,
                has_openrouter_key: false,
                openai_key_preview: None,
                openrouter_key_preview: None,
                api_provider: str_to_string("OpenAI"),
                embedding_model: str_to_string("text-embedding-ada-002"),
                available_models: get_available_models(&ApiProvider::OpenAI),
                updated_at: None,
            },
        ),
        Err(e) => Err(e),
    }
}

} // verus!
