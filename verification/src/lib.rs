//! The logic of `grass`: keeping a local copy of a GitHub account's gists, and
//! searching that copy.
pub mod auth;
pub mod cli;
pub mod client;
pub mod display;
pub mod json;
pub mod model;
pub mod naming;
pub mod order;
pub mod outline;
pub mod paths;
pub mod search;
pub mod state;
pub mod strmap;
pub mod sync;
pub mod text;
