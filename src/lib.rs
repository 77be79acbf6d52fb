//! A clipboard history service: content hashing, draft normalisation, an
//! in-memory clip store with upsert-by-hash and retention, the self-copy
//! suppressor, and the decisions of the capture loop.
pub mod ai_client;
pub mod clipboard;
pub mod clipboard_watcher;
pub mod commands;
pub mod db;
pub mod hash;
pub mod text;
pub mod runtime_config;
pub mod state;
