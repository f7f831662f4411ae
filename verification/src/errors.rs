//! The closed error taxonomy of the store, with its status codes, category
//! names and retry policy.

use crate::text::{contains, decimal, decimal_string, push_str, str_contains, str_to_string};
use vstd::prelude::*;
use vstd::string::*;

verus! {

/// Every failure the store reports.
#[derive(Debug, Clone)]
pub enum OpenMemoryError {
    /// A stable-region operation failed.
    Storage { message: String, operation: String },
    /// The caller could not be authenticated or is not allowed.
    Authentication { message: String, auth_type: String },
    /// The embedding provider failed.
    OpenAI { message: String, status_code: Option<u16> },
    /// The input was rejected.
    Validation { message: String, field: Option<String> },
    /// The resource does not exist.
    NotFound { resource_type: String, resource_id: String },
    /// The caller is sending too fast.
    RateLimit { message: String, retry_after: Option<u64> },
    /// An outgoing call failed in transit.
    Network { message: String, url: Option<String> },
    /// A setting is missing or wrong.
    Configuration { message: String, config_key: Option<String> },
    /// Anything else.
    Internal { message: String, context: Option<String> },
}

/// The mathematical value of an [`OpenMemoryError`].
pub enum ErrorView {
    Storage { message: Seq<char>, operation: Seq<char> },
    Authentication { message: Seq<char>, auth_type: Seq<char> },
    OpenAI { message: Seq<char>, status_code: Option<u16> },
    Validation { message: Seq<char>, field: Option<Seq<char>> },
    NotFound { resource_type: Seq<char>, resource_id: Seq<char> },
    RateLimit { message: Seq<char>, retry_after: Option<u64> },
    Network { message: Seq<char>, url: Option<Seq<char>> },
    Configuration { message: Seq<char>, config_key: Option<Seq<char>> },
    Internal { message: Seq<char>, context: Option<Seq<char>> },
}

/// The view of an optional string.
pub open spec fn opt_view(o: Option<String>) -> Option<Seq<char>> {
    match o {
        Some(s) => Some(s@),
        None => None,
    }
}

/// The view of an optional string slice.
pub open spec fn opt_str_view(o: Option<&str>) -> Option<Seq<char>> {
    match o {
        Some(s) => Some(s@),
        None => None,
    }
}

impl View for OpenMemoryError {
    type V = ErrorView;

    open spec fn view(&self) -> ErrorView {
        match *self {
            OpenMemoryError::Storage { message, operation } => ErrorView::Storage {
                message: message@,
                operation: operation@,
            },
            OpenMemoryError::Authentication { message, auth_type } => ErrorView::Authentication {
                message: message@,
                auth_type: auth_type@,
            },
            OpenMemoryError::OpenAI { message, status_code } => ErrorView::OpenAI {
                message: message@,
                status_code,
            },
            OpenMemoryError::Validation { message, field } => ErrorView::Validation {
                message: message@,
                field: opt_view(field),
            },
            OpenMemoryError::NotFound { resource_type, resource_id } => ErrorView::NotFound {
                resource_type: resource_type@,
                resource_id: resource_id@,
            },
            OpenMemoryError::RateLimit { message, retry_after } => ErrorView::RateLimit {
                message: message@,
                retry_after,
            },
            OpenMemoryError::Network { message, url } => ErrorView::Network {
                message: message@,
                url: opt_view(url),
            },
            OpenMemoryError::Configuration { message, config_key } => ErrorView::Configuration {
                message: message@,
                config_key: opt_view(config_key),
            },
            OpenMemoryError::Internal { message, context } => ErrorView::Internal {
                message: message@,
                context: opt_view(context),
            },
        }
    }
}

/// Results of store operations.
pub type Result<T> = core::result::Result<T, OpenMemoryError>;

/// The status code that stands for an error.
pub open spec fn status_code_of(e: ErrorView) -> u16 {
    match e {
        ErrorView::Storage { .. } => 500,
        ErrorView::Authentication { .. } => 401,
        ErrorView::OpenAI { status_code, .. } => match status_code {
            Some(c) => c,
            None => 500,
        },
        ErrorView::Validation { .. } => 400,
        ErrorView::NotFound { .. } => 404,
        ErrorView::RateLimit { .. } => 429,
        ErrorView::Network { .. } => 502,
        ErrorView::Configuration { .. } => 500,
        ErrorView::Internal { .. } => 500,
    }
}

/// The category name of an error.
pub open spec fn category_of(e: ErrorView) -> Seq<char> {
    match e {
        ErrorView::Storage { .. } => "storage"@,
        ErrorView::Authentication { .. } => "authentication"@,
        ErrorView::OpenAI { .. } => "openai"@,
        ErrorView::Validation { .. } => "validation"@,
        ErrorView::NotFound { .. } => "not_found"@,
        ErrorView::RateLimit { .. } => "rate_limit"@,
        ErrorView::Network { .. } => "network"@,
        ErrorView::Configuration { .. } => "configuration"@,
        ErrorView::Internal { .. } => "internal"@,
    }
}

/// Whether the same request may succeed later: transport failures, rate
/// limits, and provider failures with status 429 or 5xx.
pub open spec fn retriable(e: ErrorView) -> bool {
    match e {
        ErrorView::Network { .. } => true,
        ErrorView::RateLimit { .. } => true,
        ErrorView::OpenAI { status_code, .. } => match status_code {
            Some(c) => c == 429 || 500 <= c <= 599,
            None => false,
        },
        _ => false,
    }
}

/// The one-line message of an error.
pub open spec fn display_of(e: ErrorView) -> Seq<char> {
    match e {
        ErrorView::Storage { message, operation } => "Storage error in '"@ + operation + "': "@
            + message,
        ErrorView::Authentication { message, auth_type } => "Authentication error ("@ + auth_type
            + "): "@ + message,
        ErrorView::OpenAI { message, status_code } => match status_code {
            Some(c) => "OpenAI API error ("@ + decimal(c as nat) + "): "@ + message,
            None => "OpenAI API error: "@ + message,
        },
        ErrorView::Validation { message, field } => match field {
            Some(f) => "Validation error in '"@ + f + "': "@ + message,
            None => "Validation error: "@ + message,
        },
        ErrorView::NotFound { resource_type, resource_id } => resource_type + " '"@ + resource_id
            + "' not found"@,
        ErrorView::RateLimit { message, retry_after } => match retry_after {
            Some(r) => "Rate limit exceeded: "@ + message + " (retry after "@ + decimal(r as nat)
                + "s)"@,
            None => "Rate limit exceeded: "@ + message,
        },
        ErrorView::Network { message, url } => match url {
            Some(u) => "Network error for '"@ + u + "': "@ + message,
            None => "Network error: "@ + message,
        },
        ErrorView::Configuration { message, config_key } => match config_key {
            Some(k) => "Configuration error for '"@ + k + "': "@ + message,
            None => "Configuration error: "@ + message,
        },
        ErrorView::Internal { message, context } => match context {
            Some(c) => "Internal error in '"@ + c + "': "@ + message,
            None => "Internal error: "@ + message,
        },
    }
}

/// How a plain message is sorted into the taxonomy: by the first of a few
/// marker words that occurs in it.
pub open spec fn classify_message(s: Seq<char>) -> ErrorView {
    if contains(s, "not found"@) || contains(s, "Not found"@) {
        ErrorView::NotFound { resource_type: "resource"@, resource_id: s }
    } else if contains(s, "auth"@) || contains(s, "token"@) || contains(s, "unauthorized"@) {
        ErrorView::Authentication { message: s, auth_type: "unknown"@ }
    } else if contains(s, "storage"@) || contains(s, "Storage"@) {
        ErrorView::Storage { message: s, operation: "unknown"@ }
    } else {
        ErrorView::Internal { message: s, context: None }
    }
}

/// What an error says beside its message: the operation, the field, the key.
pub open spec fn context_of(e: ErrorView) -> Option<Seq<char>> {
    match e {
        ErrorView::Storage { operation, .. } => Some(operation),
        ErrorView::Authentication { auth_type, .. } => Some(auth_type),
        ErrorView::Validation { field, .. } => field,
        ErrorView::NotFound { resource_type, .. } => Some(resource_type),
        ErrorView::Network { url, .. } => url,
        ErrorView::Configuration { config_key, .. } => config_key,
        ErrorView::Internal { context, .. } => context,
        _ => None,
    }
}

/// The retry hint of an error.
pub open spec fn retry_after_of(e: ErrorView) -> Option<u64> {
    match e {
        ErrorView::RateLimit { retry_after, .. } => retry_after,
        _ => None,
    }
}

fn opt_to_string(o: Option<&str>) -> (r: Option<String>)
    ensures
        opt_view(r) == opt_str_view(o),
{
    match o {
        Some(s) => Some(str_to_string(s)),
        None => None,
    }
}

fn opt_clone(o: &Option<String>) -> (r: Option<String>)
    ensures
        opt_view(r) == opt_view(*o),
{
    match o {
        Some(s) => Some(s.clone()),
        None => None,
    }
}

impl OpenMemoryError {
    pub fn storage(message: &str, operation: &str) -> (e: Self)
        ensures
            e@ == (ErrorView::Storage { message: message@, operation: operation@ }),
    {
        OpenMemoryError::Storage {
            message: str_to_string(message),
            operation: str_to_string(operation),
        }
    }

    pub fn authentication(message: &str, auth_type: &str) -> (e: Self)
        ensures
            e@ == (ErrorView::Authentication { message: message@, auth_type: auth_type@ }),
    {
        OpenMemoryError::Authentication {
            message: str_to_string(message),
            auth_type: str_to_string(auth_type),
        }
    }

    pub fn openai(message: &str, status_code: Option<u16>) -> (e: Self)
        ensures
            e@ == (ErrorView::OpenAI { message: message@, status_code }),
    {
        OpenMemoryError::OpenAI { message: str_to_string(message), status_code }
    }

    pub fn validation(message: &str, field: Option<&str>) -> (e: Self)
        ensures
            e@ == (ErrorView::Validation { message: message@, field: opt_str_view(field) }),
    {
        OpenMemoryError::Validation { message: str_to_string(message), field: opt_to_string(field) }
    }

    pub fn not_found(resource_type: &str, resource_id: &str) -> (e: Self)
        ensures
            e@ == (ErrorView::NotFound {
                resource_type: resource_type@,
                resource_id: resource_id@,
            }),
    {
        OpenMemoryError::NotFound {
            resource_type: str_to_string(resource_type),
            resource_id: str_to_string(resource_id),
        }
    }

    pub fn rate_limit(message: &str, retry_after: Option<u64>) -> (e: Self)
        ensures
            e@ == (ErrorView::RateLimit { message: message@, retry_after }),
    {
        OpenMemoryError::RateLimit { message: str_to_string(message), retry_after }
    }

    pub fn network(message: &str, url: Option<&str>) -> (e: Self)
        ensures
            e@ == (ErrorView::Network { message: message@, url: opt_str_view(url) }),
    {
        OpenMemoryError::Network { message: str_to_string(message), url: opt_to_string(url) }
    }

    pub fn configuration(message: &str, config_key: Option<&str>) -> (e: Self)
        ensures
            e@ == (ErrorView::Configuration {
                message: message@,
                config_key: opt_str_view(config_key),
            }),
    {
        OpenMemoryError::Configuration {
            message: str_to_string(message),
            config_key: opt_to_string(config_key),
        }
    }

    pub fn internal(message: &str, context: Option<&str>) -> (e: Self)
        ensures
            e@ == (ErrorView::Internal { message: message@, context: opt_str_view(context) }),
    {
        OpenMemoryError::Internal {
            message: str_to_string(message),
            context: opt_to_string(context),
        }
    }

    /// The status code that stands for this error.
    pub fn status_code(&self) -> (c: u16)
        ensures
            c == status_code_of(self@),
    {
        match self {
            OpenMemoryError::Storage { .. } => 500,
            OpenMemoryError::Authentication { .. } => 401,
            OpenMemoryError::OpenAI { status_code, .. } => match status_code {
                Some(c) => *c,
                None => 500,
            },
            OpenMemoryError::Validation { .. } => 400,
            OpenMemoryError::NotFound { .. } => 404,
            OpenMemoryError::RateLimit { .. } => 429,
            OpenMemoryError::Network { .. } => 502,
            OpenMemoryError::Configuration { .. } => 500,
            OpenMemoryError::Internal { .. } => 500,
        }
    }

    /// The category name, for logs and for the response body.
    pub fn category(&self) -> (c: &'static str)
        ensures
            c@ == category_of(self@),
    {
        match self {
            OpenMemoryError::Storage { .. } => "storage",
            OpenMemoryError::Authentication { .. } => "authentication",
            OpenMemoryError::OpenAI { .. } => "openai",
            OpenMemoryError::Validation { .. } => "validation",
            OpenMemoryError::NotFound { .. } => "not_found",
            OpenMemoryError::RateLimit { .. } => "rate_limit",
            OpenMemoryError::Network { .. } => "network",
            OpenMemoryError::Configuration { .. } => "configuration",
            OpenMemoryError::Internal { .. } => "internal",
        }
    }

    /// Whether the same request may succeed later.
    pub fn is_retriable(&self) -> (r: bool)
        ensures
            r == retriable(self@),
    {
        match self {
            OpenMemoryError::Network { .. } => true,
            OpenMemoryError::RateLimit { .. } => true,
            OpenMemoryError::OpenAI { status_code, .. } => match status_code {
                Some(c) => *c == 429 || (500 <= *c && *c <= 599),
                None => false,
            },
            _ => false,
        }
    }

    /// The one-line message of this error.
    pub fn to_string(&self) -> (s: String)
        ensures
            s@ == display_of(self@),
    {
        match self {
            OpenMemoryError::Storage { message, operation } => {
                let mut s = str_to_string("Storage error in '");
                push_str(&mut s, operation.as_str());
                push_str(&mut s, "': ");
                push_str(&mut s, message.as_str());
                s
            },
            OpenMemoryError::Authentication { message, auth_type } => {
                let mut s = str_to_string("Authentication error (");
                push_str(&mut s, auth_type.as_str());
                push_str(&mut s, "): ");
                push_str(&mut s, message.as_str());
                s
            },
            OpenMemoryError::OpenAI { message, status_code } => match status_code {
                Some(c) => {
                    let mut s = str_to_string("OpenAI API error (");
                    let d = decimal_string(*c as u64);
                    push_str(&mut s, d.as_str());
                    push_str(&mut s, "): ");
                    push_str(&mut s, message.as_str());
                    s
                },
                None => {
                    let mut s = str_to_string("OpenAI API error: ");
                    push_str(&mut s, message.as_str());
                    s
                },
            },
            OpenMemoryError::Validation { message, field } => match field {
                Some(f) => {
                    let mut s = str_to_string("Validation error in '");
                    push_str(&mut s, f.as_str());
                    push_str(&mut s, "': ");
                    push_str(&mut s, message.as_str());
                    s
                },
                None => {
                    let mut s = str_to_string("Validation error: ");
                    push_str(&mut s, message.as_str());
                    s
                },
            },
            OpenMemoryError::NotFound { resource_type, resource_id } => {
                let mut s = resource_type.clone();
                push_str(&mut s, " '");
                push_str(&mut s, resource_id.as_str());
                push_str(&mut s, "' not found");
                s
            },
            OpenMemoryError::RateLimit { message, retry_after } => match retry_after {
                Some(r) => {
                    let mut s = str_to_string("Rate limit exceeded: ");
                    push_str(&mut s, message.as_str());
                    push_str(&mut s, " (retry after ");
                    let d = decimal_string(*r);
                    push_str(&mut s, d.as_str());
                    push_str(&mut s, "s)");
                    s
                },
                None => {
                    let mut s = str_to_string("Rate limit exceeded: ");
                    push_str(&mut s, message.as_str());
                    s
                },
            },
            OpenMemoryError::Network { message, url } => match url {
                Some(u) => {
                    let mut s = str_to_string("Network error for '");
                    push_str(&mut s, u.as_str());
                    push_str(&mut s, "': ");
                    push_str(&mut s, message.as_str());
                    s
                },
                None => {
                    let mut s = str_to_string("Network error: ");
                    push_str(&mut s, message.as_str());
                    s
                },
            },
            OpenMemoryError::Configuration { message, config_key } => match config_key {
                Some(k) => {
                    let mut s = str_to_string("Configuration error for '");
                    push_str(&mut s, k.as_str());
                    push_str(&mut s, "': ");
                    push_str(&mut s, message.as_str());
                    s
                },
                None => {
                    let mut s = str_to_string("Configuration error: ");
                    push_str(&mut s, message.as_str());
                    s
                },
            },
            OpenMemoryError::Internal { message, context } => match context {
                Some(c) => {
                    let mut s = str_to_string("Internal error in '");
                    push_str(&mut s, c.as_str());
                    push_str(&mut s, "': ");
                    push_str(&mut s, message.as_str());
                    s
                },
                None => {
                    let mut s = str_to_string("Internal error: ");
                    push_str(&mut s, message.as_str());
                    s
                },
            },
        }
    }

    /// Sorts a plain message into the taxonomy.
    pub fn from_message(s: String) -> (e: Self)
        ensures
            e@ == classify_message(s@),
    {
        if str_contains(s.as_str(), "not found") || str_contains(s.as_str(), "Not found") {
            OpenMemoryError::NotFound { resource_type: str_to_string("resource"), resource_id: s }
        } else if str_contains(s.as_str(), "auth") || str_contains(s.as_str(), "token")
            || str_contains(s.as_str(), "unauthorized") {
            OpenMemoryError::Authentication { message: s, auth_type: str_to_string("unknown") }
        } else if str_contains(s.as_str(), "storage") || str_contains(s.as_str(), "Storage") {
            OpenMemoryError::Storage { message: s, operation: str_to_string("unknown") }
        } else {
            OpenMemoryError::Internal { message: s, context: None }
        }
    }
}

/// The body of an error response.
pub struct ErrorResponse {
    pub error: String,
    pub code: u16,
    pub category: String,
    pub retry_after: Option<u64>,
    pub context: Option<String>,
}

impl ErrorResponse {
    /// The response body that reports `err`.
    pub fn from_error(err: OpenMemoryError) -> (r: Self)
        ensures
            r.error@ == display_of(err@),
            r.code == status_code_of(err@),
            r.category@ == category_of(err@),
            r.retry_after == retry_after_of(err@),
            opt_view(r.context) == context_of(err@),
    {
        let retry_after = match &err {
            OpenMemoryError::RateLimit { retry_after, .. } => *retry_after,
            _ => None,
        };
        let context = match &err {
            OpenMemoryError::Storage { operation, .. } => Some(operation.clone()),
            OpenMemoryError::Authentication { auth_type, .. } => Some(auth_type.clone()),
            OpenMemoryError::Validation { field, .. } => opt_clone(field),
            OpenMemoryError::NotFound { resource_type, .. } => Some(resource_type.clone()),
            OpenMemoryError::Network { url, .. } => opt_clone(url),
            OpenMemoryError::Configuration { config_key, .. } => opt_clone(config_key),
            OpenMemoryError::Internal { context, .. } => opt_clone(context),
            _ => None,
        };
        ErrorResponse {
            error: err.to_string(),
            code: err.status_code(),
            category: str_to_string(err.category()),
            retry_after,
            context,
        }
    }
}

} // verus!
