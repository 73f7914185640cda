//! Authentication: session tokens, OIDC key selection, passwords and session context.

pub mod jwt;
pub mod session;
pub mod oidc;
pub mod password;
