//! Decisions of a central document store and identity authority.
pub mod allocator;
pub mod allocator_laws;
pub mod arguments;
pub mod authority;
pub mod authority_laws;
pub mod bind_request_laws;
pub mod binding_laws;
pub mod bytes;
pub mod command_laws;
pub mod commands;
pub mod dispatch;
pub mod dispatch_laws;
pub mod document_laws;
pub mod documents;
pub mod error;
pub mod history;
pub mod history_laws;
pub mod identity;
pub mod identity_laws;
pub mod listing_laws;
pub mod number_laws;
pub mod protocol;
pub mod record_laws;
pub mod records;
pub mod request_laws;
pub mod search;
pub mod session;
pub mod session_laws;
pub mod tables;
pub mod text;
pub mod wire;
pub mod wire_laws;
