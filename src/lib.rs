//! Authentication and request-admission core: signed claim tokens,
//! scope-based authorization and per-client token-bucket rate limiting.

pub mod auth;
pub mod claims;
mod clock;
pub mod error;
pub mod formats;
pub mod hex;
mod json;
pub mod mac;
pub mod payload;
pub mod rate_limit;
pub mod server;
pub mod text;
pub mod token;

pub use crate::auth::{AuthConfig, AuthService};
pub use crate::claims::Claims;
pub use crate::error::AuthError;
pub use crate::rate_limit::{RateLimitConfig, RateLimitStatus, RateLimiter};
pub use crate::server::{ServerConfig, ServerState};
