//! The course of a sync run: what is skipped, what is downloaded, how the
//! outcomes are tallied and recorded, and what is pruned.
use vstd::prelude::*;

use super::{action_for, classify, Action, Reporter, Summary, SyncOptions};
use crate::json::json_pretty;
use crate::model::Gist;
use crate::paths::path_join;
use crate::state::{
    known, loaded, record_views, state_json, GistRecord, RecordView, StateWrite, SyncState,
    STATE_FILE,
};
use crate::text::{same, string_views};

verus! {

/// A sync run under way: the state as it is to be saved, and the tallies.
#[derive(Debug)]
pub struct SyncRun {
    pub state: SyncState,
    pub summary: Summary,
}

/// What a [`SyncRun`] holds.
#[verifier::ext_equal]
pub struct RunView {
    pub state: Map<Seq<char>, RecordView>,
    pub created: int,
    pub updated: int,
    pub skipped: int,
    pub pruned: int,
    pub files_written: int,
    pub errors: Seq<Seq<char>>,
}

impl View for SyncRun {
    type V = RunView;

    open spec fn view(&self) -> RunView {
        RunView {
            state: self.state@,
            created: self.summary.created as int,
            updated: self.summary.updated as int,
            skipped: self.summary.skipped as int,
            pruned: self.summary.pruned as int,
            files_written: self.summary.files_written as int,
            errors: string_views(self.summary.errors@),
        }
    }
}

/// A gist to download.
#[derive(Debug)]
pub struct Job {
    /// The position of the gist in the list.
    pub index: usize,
    pub action: Action,
    /// What is known of the gist from before.
    pub prior: Option<GistRecord>,
}

/// What a [`Job`] holds.
#[verifier::ext_equal]
pub struct JobView {
    pub index: int,
    pub action: Action,
    pub prior: Option<RecordView>,
}

impl View for Job {
    type V = JobView;

    open spec fn view(&self) -> JobView {
        JobView {
            index: self.index as int,
            action: self.action,
            prior: match self.prior {
                Some(rec) => Some(rec@),
                None => None,
            },
        }
    }
}

/// What each of `s` holds.
pub open spec fn job_views(s: Seq<Job>) -> Seq<JobView> {
    s.map_values(|j: Job| j@)
}

/// What to do with a gist in a given state.
pub open spec fn action_in(
    state: Map<Seq<char>, RecordView>,
    gist: Gist,
    force: bool,
) -> Action {
    action_for(gist, known(state, gist.id@), force)
}

/// The gists to download, in their order: those that are not skipped.
pub open spec fn jobs_of(
    state: Map<Seq<char>, RecordView>,
    gists: Seq<Gist>,
    force: bool,
) -> Seq<JobView>
    decreases gists.len(),
{
    if gists.len() == 0 {
        seq![]
    } else {
        let rest = jobs_of(state, gists.drop_last(), force);
        let gist = gists.last();
        let action = action_in(state, gist, force);
        if action == Action::Skip {
            rest
        } else {
            rest.push(JobView { index: gists.len() - 1, action, prior: known(state, gist.id@) })
        }
    }
}

/// A run that has only skipped what is unchanged.
pub open spec fn begun(
    state: Map<Seq<char>, RecordView>,
    gists: Seq<Gist>,
    force: bool,
) -> RunView {
    RunView {
        state,
        created: 0,
        updated: 0,
        skipped: gists.len() - jobs_of(state, gists, force).len(),
        pruned: 0,
        files_written: 0,
        errors: seq![],
    }
}

/// What came of downloading a gist: what to record and the number of files
/// written, or an error.
pub type Outcome = Result<(RecordView, int), Seq<char>>;

/// A run after the download of the gist `id` has ended.
pub open spec fn settled(v: RunView, id: Seq<char>, action: Action, outcome: Outcome) -> RunView {
    match outcome {
        Ok((rec, written)) => RunView {
            state: v.state.insert(id, rec),
            created: v.created + if action == Action::Create {
                1int
            } else {
                0
            },
            updated: v.updated + if action == Action::Update {
                1int
            } else {
                0
            },
            files_written: v.files_written + written,
            ..v
        },
        Err(text) => RunView { errors: v.errors.push(id + ": "@ + text), ..v },
    }
}

/// What came of downloading a gist, as text.
pub open spec fn outcome_view(outcome: Result<(GistRecord, usize), String>) -> Outcome {
    match outcome {
        Ok((rec, written)) => Ok((rec@, written as int)),
        Err(text) => Err(text@),
    }
}

/// A local copy of a gist that is gone from GitHub.
#[derive(Debug, Clone, PartialEq, Eq)]
pub struct Stale {
    pub id: String,
    pub folder: String,
    /// Whether to remove the folder, and not only count it (dry run).
    pub remove: bool,
}

/// What came of removing a stale folder.
#[derive(Debug, Clone, PartialEq, Eq)]
pub enum Removal {
    /// Nothing was to be removed (dry run).
    Planned,
    Removed,
    /// It was not there in the first place.
    Missing,
    Failed(String),
}

/// Whether a gist with this id is on GitHub.
pub open spec fn is_remote(gists: Seq<Gist>, id: Seq<char>) -> bool {
    exists|i: int| 0 <= i < gists.len() && (#[trigger] gists[i]).id@ == id
}

/// The records of gists that are gone from GitHub: their ids and folders.
pub open spec fn stale_in(
    records: Seq<(Seq<char>, RecordView)>,
    gists: Seq<Gist>,
) -> Seq<(Seq<char>, Seq<char>)> {
    records.filter_map(
        |e: (Seq<char>, RecordView)|
            if is_remote(gists, e.0) {
                None
            } else {
                Some((e.0, e.1.folder))
            },
    )
}

/// The ids and folders of `s`.
pub open spec fn stale_views(s: Seq<Stale>) -> Seq<(Seq<char>, Seq<char>)> {
    s.map_values(|x: Stale| (x.id@, x.folder@))
}

/// A run after the removal of the stale folder of the gist `id` has ended.
pub open spec fn pruned(v: RunView, id: Seq<char>, folder: Seq<char>, removal: Removal) -> RunView {
    match removal {
        Removal::Planned => RunView { pruned: v.pruned + 1, ..v },
        Removal::Removed => RunView { pruned: v.pruned + 1, state: v.state.remove(id), ..v },
        Removal::Missing => RunView { pruned: v.pruned + 1, state: v.state.remove(id), ..v },
        Removal::Failed(cause) => RunView {
            errors: v.errors.push("pruning "@ + folder + ": "@ + cause@),
            ..v
        },
    }
}

/// Whether a run with `opts` begins with `run` and has `jobs` to do.
pub open spec fn is_beginning(
    state: Map<Seq<char>, RecordView>,
    gists: Seq<Gist>,
    opts: SyncOptions,
    run: RunView,
    jobs: Seq<JobView>,
) -> bool {
    run == begun(state, gists, opts.force) && jobs == jobs_of(state, gists, opts.force)
}

/// Whether a run goes from `before` to `after` when the download of `gist` ends.
pub open spec fn is_settling(
    before: RunView,
    gist: Gist,
    action: Action,
    outcome: Outcome,
    after: RunView,
) -> bool {
    after == settled(before, gist.id@, action, outcome)
}

/// Whether a run goes from `before` to `after` when the removal of `stale` ends.
pub open spec fn is_pruning(
    before: RunView,
    stale: Stale,
    removal: Removal,
    after: RunView,
) -> bool {
    after == pruned(before, stale.id@, stale.folder@, removal)
}

/// Whether `stale` are the local folders to prune: none unless that is asked for,
/// and only to be counted in a dry run.
pub open spec fn is_stale_list(
    records: Seq<(Seq<char>, RecordView)>,
    gists: Seq<Gist>,
    opts: SyncOptions,
    stale: Seq<Stale>,
) -> bool {
    &&& stale_views(stale) == if opts.prune {
        stale_in(records, gists)
    } else {
        seq![]
    }
    &&& forall|i: int| 0 <= i < stale.len() ==> (#[trigger] stale[i]).remove == !opts.dry_run
}

/// Whether `write` is how `state` is saved at the end of a run.
pub open spec fn is_saving(
    state: Map<Seq<char>, RecordView>,
    opts: SyncOptions,
    write: Option<StateWrite>,
) -> bool {
    match write {
        Some(write) => {
            &&& !opts.dry_run
            &&& loaded(Some(write.bytes@)) == state
            &&& write.path@ == path_join(opts.output@, STATE_FILE@)
            &&& write.temp_path@ == path_join(opts.output@, STATE_FILE@ + ".tmp"@)
        },
        None => opts.dry_run,
    }
}

impl SyncRun {
    /// Begins a run: classifies the gists, so that unchanged ones are reported
    /// without a download, and returns the others with what is known of them.
    pub fn begin<R: Reporter>(
        state: SyncState,
        gists: &Vec<Gist>,
        opts: &SyncOptions,
        reporter: &R,
    ) -> (r: (SyncRun, Vec<Job>))
        ensures
            r.0@ == begun(state@, gists@, opts.force),
            job_views(r.1@) == jobs_of(state@, gists@, opts.force),
            is_beginning(state@, gists@, *opts, r.0@, job_views(r.1@)),
    {
        reporter.set_total(gists.len());
        let mut summary = Summary::default();
        let mut jobs: Vec<Job> = Vec::new();
        let mut i: usize = 0;
        assert(job_views(jobs@) == jobs_of(state@, gists@.take(0), opts.force));
        while i < gists.len()
            invariant
                i <= gists@.len(),
                summary.created == 0,
                summary.updated == 0,
                summary.pruned == 0,
                summary.files_written == 0,
                summary.errors@.len() == 0,
                summary.skipped == i - jobs@.len(),
                job_views(jobs@) == jobs_of(state@, gists@.take(i as int), opts.force),
            decreases gists@.len() - i,
        {
            let gist = &gists[i];
            let ghost before = job_views(jobs@);
            proof {
                let next = gists@.take(i + 1);
                assert(next.drop_last() == gists@.take(i as int));
                assert(next.last() == *gist);
            }
            let found = state.get(gist.id.as_str());
            let action = classify(gist, found, opts.force);
            assert(action == action_in(state@, *gist, opts.force));
            match action {
                Action::Skip => {
                    summary.skipped = summary.skipped + 1;
                    reporter.gist_done(Action::Skip, gist);
                },
                _ => {
                    let prior = match found {
                        Some(rec) => Some(rec.clone()),
                        None => None,
                    };
                    let job = Job { index: i, action, prior };
                    jobs.push(job);
                    assert(job_views(jobs@) == before.push(job@));
                },
            }
            i += 1;
        }
        assert(gists@.take(i as int) == gists@);
        let run = SyncRun { state, summary };
        assert(run@.errors == Seq::<Seq<char>>::empty());
        (run, jobs)
    }

    /// Whether the tallies can take another gist with this many files.
    pub open spec fn has_room(self, action: Action, written: int) -> bool {
        &&& action == Action::Create ==> self.summary.created < usize::MAX
        &&& action == Action::Update ==> self.summary.updated < usize::MAX
        &&& self.summary.files_written + written <= usize::MAX
    }

    /// Whether the tallies can take another gist with this many files.
    pub fn room_for(&self, action: Action, written: usize) -> (r: bool)
        ensures
            r == self.has_room(action, written as int),
    {
        let counted = match action {
            Action::Create => self.summary.created < usize::MAX,
            Action::Update => self.summary.updated < usize::MAX,
            Action::Skip => true,
        };
        counted && self.summary.files_written <= usize::MAX - written
    }

    /// Tallies what came of downloading a gist, and records the gist where it
    /// was downloaded. A failure is collected rather than ending the run.
    pub fn settle<R: Reporter>(
        &mut self,
        gist: &Gist,
        action: Action,
        outcome: Result<(GistRecord, usize), String>,
        reporter: &R,
    )
        requires
            outcome matches Ok((_, written)) ==> old(self).has_room(action, written as int),
        ensures
            final(self)@ == settled(old(self)@, gist.id@, action, outcome_view(outcome)),
            is_settling(old(self)@, *gist, action, outcome_view(outcome), final(self)@),
    {
        match outcome {
            Ok((rec, written)) => {
                self.summary.files_written = self.summary.files_written + written;
                match action {
                    Action::Create => self.summary.created = self.summary.created + 1,
                    Action::Update => self.summary.updated = self.summary.updated + 1,
                    Action::Skip => {},
                }
                self.state.insert(gist.id.clone(), rec);
            },
            Err(text) => {
                let mut error = gist.id.clone();
                error.append(": ");
                error.append(text.as_str());
                let ghost before = string_views(self.summary.errors@);
                let ghost added = error@;
                self.summary.errors.push(error);
                assert(string_views(self.summary.errors@) == before.push(added));
            },
        }
        reporter.gist_done(action, gist);
    }

    /// The local folders whose gists no longer exist remotely, if those are to
    /// be pruned.
    pub fn stale(&self, gists: &Vec<Gist>, opts: &SyncOptions) -> (r: Vec<Stale>)
        ensures
            stale_views(r@) == if opts.prune {
                stale_in(record_views(self.state.gists@), gists@)
            } else {
                seq![]
            },
            forall|i: int| 0 <= i < r@.len() ==> (#[trigger] r@[i]).remove == !opts.dry_run,
            is_stale_list(record_views(self.state.gists@), gists@, *opts, r@),
    {
        let mut out: Vec<Stale> = Vec::new();
        assert(stale_views(out@) == Seq::<(Seq<char>, Seq<char>)>::empty());
        if !opts.prune {
            return out;
        }
        let ghost f = |e: (Seq<char>, RecordView)|
            if is_remote(gists@, e.0) {
                None
            } else {
                Some((e.0, e.1.folder))
            };
        let ghost all = record_views(self.state.gists@);
        let n: usize = self.state.gists.len();
        let mut i: usize = 0;
        assert(all.take(0).filter_map(f) =~= Seq::<(Seq<char>, Seq<char>)>::empty());
        while i < n
            invariant
                f == (|e: (Seq<char>, RecordView)|
                    if is_remote(gists@, e.0) {
                        None
                    } else {
                        Some((e.0, e.1.folder))
                    }),
                i <= n == self.state.gists@.len(),
                all == record_views(self.state.gists@),
                stale_views(out@) == all.take(i as int).filter_map(f),
                forall|k: int| 0 <= k < out@.len() ==> (#[trigger] out@[k]).remove == !opts.dry_run,
            decreases n - i,
        {
            let (id, rec) = self.state.gists.entry(i);
            proof {
                all.lemma_filter_map_take_succ(f, i as int);
                assert(all[i as int] == (id@, rec@));
            }
            let ghost before = stale_views(out@);
            if !has_id(gists, id) {
                out.push(
                    Stale {
                        id: id.to_string(),
                        folder: rec.folder.clone(),
                        remove: !opts.dry_run,
                    },
                );
                assert(stale_views(out@) == before + seq![(id@, rec.folder@)]);
            }
            i += 1;
        }
        assert(all.take(i as int) == all);
        out
    }

    /// Tallies what came of removing a stale folder, and forgets the gist
    /// where the folder is gone.
    pub fn settle_removal(&mut self, stale: &Stale, removal: Removal)
        requires
            removal !is Failed ==> old(self).summary.pruned < usize::MAX,
        ensures
            final(self)@ == pruned(old(self)@, stale.id@, stale.folder@, removal),
            is_pruning(old(self)@, *stale, removal, final(self)@),
    {
        match removal {
            Removal::Planned => {
                self.summary.pruned = self.summary.pruned + 1;
            },
            Removal::Removed | Removal::Missing => {
                self.summary.pruned = self.summary.pruned + 1;
                self.state.remove(stale.id.as_str());
            },
            Removal::Failed(cause) => {
                let mut error = "pruning ".to_string();
                error.append(stale.folder.as_str());
                error.append(": ");
                error.append(cause.as_str());
                let ghost before = string_views(self.summary.errors@);
                let ghost added = error@;
                self.summary.errors.push(error);
                assert(string_views(self.summary.errors@) == before.push(added));
            },
        }
    }

    /// How to save the state at the end of the run: not at all in a dry run.
    pub fn save(&self, opts: &SyncOptions) -> (r: Option<StateWrite>)
        ensures
            match r {
                Some(write) => {
                    &&& !opts.dry_run
                    &&& write.bytes@ == json_pretty(state_json(record_views(self.state.gists@)))
                    &&& loaded(Some(write.bytes@)) == self@.state
                    &&& write.path@ == path_join(opts.output@, STATE_FILE@)
                    &&& write.temp_path@ == path_join(opts.output@, STATE_FILE@ + ".tmp"@)
                },
                None => opts.dry_run,
            },
            is_saving(self@.state, *opts, r),
    {
        if opts.dry_run {
            None
        } else {
            Some(self.state.save(opts.output.as_str()))
        }
    }
}

/// Whether a gist with this id is among `gists`.
fn has_id(gists: &Vec<Gist>, id: &str) -> (r: bool)
    ensures
        r == is_remote(gists@, id@),
{
    let mut i: usize = 0;
    while i < gists.len()
        invariant
            i <= gists@.len(),
            forall|k: int| 0 <= k < i ==> (#[trigger] gists@[k]).id@ != id@,
        decreases gists@.len() - i,
    {
        if same(gists[i].id.as_str(), id) {
            assert(gists@[i as int].id@ == id@);
            return true;
        }
        i += 1;
    }
    false
}

} // verus!
