//! Fleet management.
pub mod auth;
pub mod dispatch;
pub mod error;
pub mod fleet;
pub mod fleet_laws;
pub mod http;
pub mod http_laws;
pub mod json;
pub mod json_laws;
pub mod json_syntax_laws;
pub mod mcp;
pub mod reply_laws;
pub mod recorder;
pub mod server;
pub mod server_laws;
pub mod sfu;
pub mod sfu_laws;
