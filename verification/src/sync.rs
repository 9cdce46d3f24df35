//! The sync engine: classify gists, plan their downloads, and reconcile the
//! local output directory with what exists on GitHub.
use vstd::prelude::*;

pub mod disk;
pub mod laws;
pub mod meta;
pub mod plan;
pub mod run;

pub use meta::write_meta;
pub use plan::{moves_folder, process_gist, GistPlan, Step};

use crate::model::Gist;
use crate::state::{GistRecord, RecordView};
use crate::text::same;
use plan::prior_view;

verus! {

/// Name of the per-gist metadata sidecar written into each gist folder.
pub const META_FILE: &'static str = ".grass-meta.json";

/// What to do with a single gist on this run.
#[derive(Debug, Clone, Copy, PartialEq, Eq, Structural)]
pub enum Action {
    /// Not seen before — download fresh.
    Create,
    /// Known but changed remotely (or `--force`) — refresh.
    Update,
    /// Unchanged since the last sync — skip.
    Skip,
}

/// Options controlling a sync run.
#[derive(Debug, Clone)]
pub struct SyncOptions {
    pub output: String,
    pub concurrency: usize,
    pub prune: bool,
    pub dry_run: bool,
    pub force: bool,
}

impl SyncOptions {
    /// How many gists to download at a time.
    pub open spec fn worker_count(self) -> int {
        if self.concurrency == 0 {
            1
        } else {
            self.concurrency as int
        }
    }

    /// How many gists to download at a time: at least one.
    pub fn workers(&self) -> (r: usize)
        ensures
            r == if self.concurrency == 0 {
                1
            } else {
                self.concurrency
            },
            r == self.worker_count(),
    {
        if self.concurrency == 0 {
            1
        } else {
            self.concurrency
        }
    }
}

/// Tallies produced by a sync run.
#[derive(Debug, PartialEq, Eq)]
pub struct Summary {
    pub created: usize,
    pub updated: usize,
    pub skipped: usize,
    pub pruned: usize,
    pub files_written: usize,
    pub errors: Vec<String>,
}

impl Default for Summary {
    fn default() -> (r: Self)
        ensures
            r.created == 0,
            r.updated == 0,
            r.skipped == 0,
            r.pruned == 0,
            r.files_written == 0,
            r.errors@.len() == 0,
    {
        Summary {
            created: 0,
            updated: 0,
            skipped: 0,
            pruned: 0,
            files_written: 0,
            errors: Vec::new(),
        }
    }
}

impl Summary {
    /// The status to exit with.
    pub open spec fn status(self) -> int {
        if self.errors@.len() > 0 {
            1
        } else {
            0
        }
    }

    /// The status to exit with: 1 when there were errors.
    pub fn exit_code(&self) -> (r: i32)
        ensures
            r == if self.errors@.len() > 0 {
                1int
            } else {
                0
            },
            r == self.status(),
    {
        if self.errors.is_empty() {
            0
        } else {
            1
        }
    }
}

/// Receives progress notifications during a sync. All methods default to no-ops
/// so callers (and tests) can implement only what they need.
pub trait Reporter {
    fn set_total(&self, _total: usize) {
    }

    fn gist_done(&self, _action: Action, _gist: &Gist) {
    }

    fn finish(&self) {
    }
}

/// A reporter that does nothing.
pub struct NoopReporter;

impl Reporter for NoopReporter {

}

/// What to do with `gist` given what is known of it and the `force` flag.
pub open spec fn action_for(gist: Gist, prior: Option<RecordView>, force: bool) -> Action {
    match prior {
        None => Action::Create,
        Some(rec) => if force || rec.updated_at != gist.updated_at@ {
            Action::Update
        } else {
            Action::Skip
        },
    }
}

/// Decides what to do with `gist` given any `prior` record and the `force` flag.
pub fn classify(gist: &Gist, prior: Option<&GistRecord>, force: bool) -> (r: Action)
    ensures
        r == action_for(*gist, prior_view(prior), force),
        r == Action::Create <==> prior is None,
        r == Action::Skip <==> (prior matches Some(rec) && !force && rec.updated_at@
            == gist.updated_at@),
{
    match prior {
        None => Action::Create,
        Some(rec) => if force || !same(rec.updated_at.as_str(), gist.updated_at.as_str()) {
            Action::Update
        } else {
            Action::Skip
        },
    }
}

} // verus!
