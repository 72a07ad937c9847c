//! Resolves an editor's configuration from two layered TOML sources, a
//! user-global one and a workspace-local one.
//!
//! `value` holds the configuration tree and its depth-bounded merge; `config`
//! reads a source strictly and resolves the two into one `Config`.

pub mod config;
pub mod value;
