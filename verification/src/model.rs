//! Data model for the subset of the GitHub Gists API that `grass` consumes.
use vstd::prelude::*;

use crate::strmap::StrMap;

verus! {

/// A single gist as returned by the GitHub REST API list endpoint
/// (`GET /gists`).
#[derive(Debug, Clone)]
pub struct Gist {
    pub id: String,
    pub description: Option<String>,
    pub public: bool,
    pub created_at: String,
    pub updated_at: String,
    pub html_url: Option<String>,
    /// Files keyed by filename. The list endpoint provides metadata (including
    /// `raw_url`) but **not** the file `content`.
    pub files: StrMap<GistFile>,
}

/// One file within a gist.
#[derive(Debug, Clone)]
pub struct GistFile {
    pub filename: String,
    /// URL to the raw bytes of this file at its current revision. `grass`
    /// downloads files from here rather than from the (truncated) API content.
    pub raw_url: Option<String>,
    pub size: u64,
    pub content_type: Option<String>,
    pub language: Option<String>,
}

impl Gist {
    /// The files by ascending key.
    pub open spec fn file_list(self) -> Seq<GistFile> {
        self.files@.map_values(|e: (Seq<char>, GistFile)| e.1)
    }

    /// The name of the first file, if there is one.
    pub open spec fn first_name(self) -> Option<Seq<char>> {
        if self.files@.len() > 0 {
            Some(self.files@[0].1.filename@)
        } else {
            None
        }
    }

    /// The first filename in deterministic (sorted) order, if any.
    pub fn first_filename(&self) -> (r: Option<&str>)
        ensures
            match r {
                Some(s) => self.first_name() == Some(s@),
                None => self.first_name() is None,
            },
    {
        if self.files.len() > 0 {
            let (_, file) = self.files.entry(0);
            Some(file.filename.as_str())
        } else {
            None
        }
    }
}

/// The files of a gist are all that it holds, in the order of their keys, and the
/// first name is that of the first of them.
pub proof fn law_every_file_is_listed(gist: Gist, k: int)
    ensures
        gist.file_list().len() == gist.files@.len(),
        0 <= k < gist.files@.len() ==> gist.file_list()[k] == gist.files@[k].1,
        gist.files@.len() == 0 <==> gist.first_name() is None,
        gist.files@.len() > 0 ==> gist.first_name() == Some(gist.files@[0].1.filename@),
{
}

} // verus!
