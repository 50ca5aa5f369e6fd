//! Verified core of a WireGuard desktop client: config parsing and
//! validation, tunnel naming, the live status and detail view, how the
//! privileged helper is run, the structured form editor's mapping and its
//! session decisions, key lines, status texts, the QR code image, release
//! checks, start-up decisions, and in-app markdown rendering.
pub mod backend;
pub mod markdown;
pub mod startup;
pub mod text;
pub mod update;
pub mod ui_bridge;
