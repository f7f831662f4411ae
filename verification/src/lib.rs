//! A multi-tenant memory store: validated ingest, owner-indexed storage over
//! stable regions, ranked vector search, suggestions and clustering.

pub mod assoc;
pub mod auth;
pub mod clustering;
pub mod codec;
pub mod config;
pub mod conversations;
pub mod embedding;
pub mod errors;
pub mod http_handlers;
pub mod internet_identity;
pub mod locks;
pub mod metadata;
pub mod pipeline;
pub mod ranking;
pub mod records;
pub mod region;
pub mod search;
pub mod seqs;
pub mod settings;
pub mod storage;
pub mod suggestions;
pub mod text;
pub mod tokens;
pub mod types;
pub mod utils;
pub mod validation;
pub mod vector_store;
