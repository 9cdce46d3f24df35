//! Full-text search over downloaded gists.
//!
//! The matching itself is delegated to ripgrep (`rg`) when it is installed,
//! falling back to `grep` otherwise. Results are grouped by gist and file and
//! enriched with each gist's description and URL from its metadata sidecar.
pub mod base64;
pub mod group;
pub mod hits;
pub mod info;
pub mod outcome;
pub mod rg;
pub mod sgr;
pub mod tool;

pub use base64::decode_base64;
pub use group::{group, split_path, FileMatches, GistMatches};
pub use hits::{line_match, parse_grep, parse_grep_record, Hit, LineMatch};
pub use info::GistInfo;
pub use outcome::{
    conclude, run, SearchError, SearchEvent, SearchResults, SearchStep, ToolOutput, ToolRun,
};
pub use rg::{parse_rg, read_message};
pub use sgr::strip_sgr;
pub use tool::{command, CommandLine, Engine, Query};
