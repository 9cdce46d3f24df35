//! The options of the command line.
use vstd::prelude::*;

use crate::sync::SyncOptions;

verus! {

/// Download and sync all of your GitHub gists to a local directory.
#[derive(Debug, Clone)]
pub struct Cli {
    /// Directory to store gists in (created if missing).
    pub output: String,
    /// GitHub token. Overrides the GITHUB_TOKEN/GH_TOKEN env vars and the
    /// `gh` CLI fallback.
    pub token: Option<String>,
    /// Delete local gist folders that no longer exist on GitHub.
    pub prune: bool,
    /// Show what would happen without writing anything.
    pub dry_run: bool,
    /// Re-download every gist, ignoring saved sync state.
    pub force: bool,
    /// Maximum number of gists to download concurrently.
    pub concurrency: u16,
    /// Print per-gist actions.
    pub verbose: bool,
    /// Suppress all output except errors.
    pub quiet: bool,
}

impl Cli {
    /// Whether `opts` are the options of the sync run that is asked for.
    pub open spec fn asks_for(self, opts: SyncOptions) -> bool {
        &&& opts.output == self.output
        &&& opts.concurrency == self.concurrency
        &&& opts.prune == self.prune
        &&& opts.dry_run == self.dry_run
        &&& opts.force == self.force
    }

    /// Whether to print what is done with each gist.
    pub open spec fn shows_actions(self) -> bool {
        self.verbose && !self.quiet
    }

    /// The options of the sync run that is asked for.
    pub fn sync_options(&self) -> (r: SyncOptions)
        ensures
            r.output == self.output,
            r.concurrency == self.concurrency,
            r.prune == self.prune,
            r.dry_run == self.dry_run,
            r.force == self.force,
            self.asks_for(r),
    {
        SyncOptions {
            output: self.output.clone(),
            concurrency: self.concurrency as usize,
            prune: self.prune,
            dry_run: self.dry_run,
            force: self.force,
        }
    }

    /// Whether to print what is done with each gist.
    pub fn prints_actions(&self) -> (r: bool)
        ensures
            r == (self.verbose && !self.quiet),
            r == self.shows_actions(),
    {
        self.verbose && !self.quiet
    }
}

/// Every option is handed on as it is given, whatever the others are.
pub proof fn law_options_are_handed_on(cli: Cli, r: SyncOptions)
    requires
        cli.asks_for(r),
    ensures
        r.output@ == cli.output@,
        r.concurrency == cli.concurrency,
        r.prune == cli.prune,
        r.dry_run == cli.dry_run,
        r.force == cli.force,
{
}

/// What is done with each gist is printed where that is asked for, unless all
/// output is to be suppressed.
pub proof fn law_quiet_outweighs_verbose(cli: Cli)
    ensures
        cli.quiet ==> !cli.shows_actions(),
        !cli.quiet ==> cli.shows_actions() == cli.verbose,
{
}

} // verus!
