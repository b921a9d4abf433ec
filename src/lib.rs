//! Module resolution, evaluation planning and builtin bridging for a host
//! that embeds a script engine.
//!
//! - [`resolve`] maps import specifiers to paths.
//! - [`module_map`] holds one record per module identity and enforces its
//!   lifecycle.
//! - [`loader`] plans an import: which modules run, once each, and in which
//!   order.
//! - [`validator`] and [`builtins`] check the arguments of the native
//!   capabilities handed to scripts, and say which host operation a call
//!   asks for.
pub mod builtins;
pub mod loader;
pub mod module_map;
pub mod resolve;
pub mod validator;
