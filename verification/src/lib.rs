//! Configuration and authentication logic of a client for the Uptime Kuma
//! monitoring service: the environment source that turns variables into a
//! tree of settings, the TLS settings, the default headers and the Better
//! Auth sign-in sequence, and the decisions of the `login` command.

pub mod text;
pub mod tree;
pub mod env_source;
pub mod json;
pub mod better_auth;
pub mod settings;
pub mod login;
