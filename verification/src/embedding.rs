//! What is asked of the embedding provider, and what its answer means.
//!
//! The call itself and the reading of the vector belong to the caller.

use crate::errors::{ErrorView, OpenMemoryError, Result};
use crate::text::{is_blank, push_str, str_blank, str_to_string};
use crate::types::{pairs, ApiProvider, EmbeddingRequest, UserConfig};
use vstd::prelude::*;

verus! {

/// The most bytes that an answer of the provider may have.
pub const MAX_RESPONSE_BYTES: u64 = 8192;

/// A call of the embedding provider.
pub struct EmbeddingCall {
    pub url: String,
    pub headers: Vec<(String, String)>,
    pub request: EmbeddingRequest,
    pub max_response_bytes: u64,
}

/// The refusal of a text without content.
pub open spec fn empty_text() -> ErrorView {
    ErrorView::Validation { message: "Text cannot be empty"@, field: Some("text"@) }
}

/// The refusal of a user without settings.
pub open spec fn no_settings() -> ErrorView {
    ErrorView::Configuration {
        message: "No API configuration found. Please set your API key in settings."@,
        config_key: None,
    }
}

/// The refusal of a user without a key for the provider.
pub open spec fn no_key(provider: ApiProvider) -> ErrorView {
    match provider {
        ApiProvider::OpenAI => ErrorView::Configuration {
            message: "OpenAI API key not configured. Please set your API key in settings."@,
            config_key: Some("openai_api_key"@),
        },
        ApiProvider::OpenRouter => ErrorView::Configuration {
            message: "OpenRouter API key not configured. Please set your API key in settings."@,
            config_key: Some("openrouter_api_key"@),
        },
    }
}

/// The address of a provider.
pub open spec fn provider_url(provider: ApiProvider) -> Seq<char> {
    match provider {
        ApiProvider::OpenAI => "https://api.openai.com/v1/embeddings"@,
        ApiProvider::OpenRouter => "https://openrouter.ai/api/v1/embeddings"@,
    }
}

/// The headers of a call: the content type and the key as a bearer token,
/// and for OpenRouter the referer and the title.
pub open spec fn call_headers(provider: ApiProvider, key: Seq<char>) -> Seq<(Seq<char>, Seq<char>)> {
    let base = seq![
        ("Content-Type"@, "application/json"@),
        ("Authorization"@, "Bearer "@ + key),
    ];
    match provider {
        ApiProvider::OpenAI => base,
        ApiProvider::OpenRouter => base + seq![
            ("HTTP-Referer"@, "https://openmemory.ai"@),
            ("X-Title"@, "OpenMemory"@),
        ],
    }
}

/// The key of a user for the provider of the user.
pub open spec fn provider_key(config: UserConfig) -> Option<Seq<char>> {
    match config.api_provider {
        ApiProvider::OpenAI => match config.openai_api_key {
            Some(k) => Some(k@),
            None => None,
        },
        ApiProvider::OpenRouter => match config.openrouter_api_key {
            Some(k) => Some(k@),
            None => None,
        },
    }
}

/// The call that embeds `text` for a user with the given settings.
///
/// A blank text is refused, then a user without settings, then a user
/// without a key for the provider that the settings name.
pub fn generate_embedding_for_user(text: &str, config: Option<&UserConfig>) -> (r: Result<
    EmbeddingCall,
>)
    ensures
        match r {
            Ok(call) => !is_blank(text@) && config is Some && provider_key(*config->0) is Some
                && call.url@ == provider_url(config->0.api_provider) && pairs(call.headers@)
                == call_headers(config->0.api_provider, provider_key(*config->0)->0)
                && call.request.model@ == config->0.embedding_model@ && call.request.input@ == text@
                && call.request.encoding_format@ == "float"@ && call.max_response_bytes
                == MAX_RESPONSE_BYTES,
            Err(e) => if is_blank(text@) {
                e@ == empty_text()
            } else if config is None {
                e@ == no_settings()
            } else {
                provider_key(*config->0) is None && e@ == no_key(config->0.api_provider)
            },
        },
{
    if str_blank(text) {
        return Err(OpenMemoryError::validation("Text cannot be empty", Some("text")));
    }
    let config: &UserConfig = match config {
        Some(c) => c,
        None => {
            return Err(
                OpenMemoryError::configuration(
                    "No API configuration found. Please set your API key in settings.",
                    None,
                ),
            );
        },
    };
    let (key, url): (&String, String) = match config.api_provider {
        ApiProvider::OpenAI => match &config.openai_api_key {
            Some(k) => (k, str_to_string("https://api.openai.com/v1/embeddings")),
            None => {
                return Err(
                    OpenMemoryError::configuration(
                        "OpenAI API key not configured. Please set your API key in settings.",
                        Some("openai_api_key"),
                    ),
                );
            },
        },
        ApiProvider::OpenRouter => match &config.openrouter_api_key {
            Some(k) => (k, str_to_string("https://openrouter.ai/api/v1/embeddings")),
            None => {
                return Err(
                    OpenMemoryError::configuration(
                        "OpenRouter API key not configured. Please set your API key in settings.",
                        Some("openrouter_api_key"),
                    ),
                );
            },
        },
    };
    let mut bearer: String = str_to_string("Bearer ");
    push_str(&mut bearer, key.as_str());
    let mut headers: Vec<(String, String)> = Vec::new();
    headers.push((str_to_string("Content-Type"), str_to_string("application/json")));
    headers.push((str_to_string("Authorization"), bearer));
    match config.api_provider {
        ApiProvider::OpenRouter => {
            headers.push((str_to_string("HTTP-Referer"), str_to_string("https://openmemory.ai")));
            headers.push((str_to_string("X-Title"), str_to_string("OpenMemory")));
        },
        ApiProvider::OpenAI => {},
    }
    assert(pairs(headers@) =~= call_headers(config.api_provider, key@));
    Ok(
        EmbeddingCall {
            url,
            headers,
            request: EmbeddingRequest {
                model: config.embedding_model.clone(),
                input: str_to_string(text),
                encoding_format: str_to_string("float"),
            },
            max_response_bytes: MAX_RESPONSE_BYTES,
        },
    )
}

/// What the answer of the provider means before its body is read: any
/// status but 200 is a failure of the provider with that status.
pub fn check_embedding_status(status: u16, body_text: &str) -> (r: Result<()>)
    ensures
        match r {
            Ok(_) => status == 200,
            Err(e) => status != 200 && e@ == (ErrorView::OpenAI {
                message: body_text@,
                status_code: Some(status),
            }),
        },
{
    if status != 200 {
        Err(OpenMemoryError::openai(body_text, Some(status)))
    } else {
        Ok(())
    }
}

/// Whether a failed attempt is followed by another: while attempts are
/// left.
pub fn should_retry(attempt: u32, max_retries: u32) -> (r: bool)
    ensures
        r == (attempt < max_retries),
{
    attempt < max_retries
}

} // verus!
