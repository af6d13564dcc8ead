//! Secure local credential and project-cache store for a bug-tracking CLI,
//! with a small terminal drawing layer and an issue viewer.
//!
//! The store keeps per-organization bearer tokens in an OS-level secret
//! store, caches project display names encrypted with a locally generated
//! device key, and persists the configuration document as JSON, never
//! writing a secret to the plaintext file.

pub mod b64;
pub mod crypto;
pub mod errors;
pub mod tui;
pub mod issue_viewer;
pub mod config;
pub mod secret_store;
pub mod sentry;
pub mod json;
