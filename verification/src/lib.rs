//! Commands of a tool for canisters: the installation of files as the assets of a canister, the
//! build of canisters, and the installation of the tool's cache.
//!
//! The library decides and computes; it neither reads files nor calls canisters. [`install`] is the
//! installation of assets as a machine whose states say what to do next. [`runs`], [`history`] and
//! [`store`] state what holds of it as a whole.

pub mod assets;
pub mod build_command;
pub mod cache_install;
pub mod chunks;
pub mod digest;
pub mod history;
pub mod install;
pub mod keyed_list;
pub mod locations;
pub mod media_type;
pub mod operations;
pub mod protocol;
pub mod runs;
pub mod store;
pub mod text;
pub mod views;
