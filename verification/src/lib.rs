//! A small, fully verified HTTP service core: a greeting route, a
//! user-creation route that echoes the submitted username with a fixed
//! identifier, and a single-page-application static fallback decision.
//! All responses carry permissive cross-origin headers.
//!
//! The network and filesystem edges live outside this crate; the library
//! works on plain bytes and hands back fully described responses.

pub mod http;
pub mod json;
pub mod user;
