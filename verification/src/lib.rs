//! The logic of `calisto`, a runtime for Ruby programs that keeps a warm
//! daemon, as a verified library: every function states what it computes and
//! Verus proves it.
pub mod appconfig;
pub mod base64;
pub mod child;
pub mod commands;
pub mod daemon;
pub mod hash;
pub mod native;
pub mod number;
pub mod path;
pub mod pg;
pub mod protocol;
pub mod ruby;
pub mod runtime;
pub mod shims;
pub mod sqlite;
pub mod text;
pub mod utf8;
