//! Provider synchronisation for Codex session histories.

pub mod apply;
pub mod backup;
pub mod catalog;
pub mod collect;
pub mod digest;
pub mod global_state;
pub mod json;
pub mod lock;
pub mod names;
pub mod paths;
pub mod provider;
pub mod remote;
pub mod repair;
pub mod rollout;
pub mod scan_state;
pub mod session_index;
pub mod source;
pub mod sql;
pub mod sync;
pub mod text;
pub mod threads;
pub mod transaction;
pub mod workspace;
