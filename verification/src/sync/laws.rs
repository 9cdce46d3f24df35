//! What holds of a sync run as a whole.
use vstd::prelude::*;

use super::plan::record_of;
use super::run::{
    action_in, begun, is_beginning, is_pruning, is_remote, is_saving, is_settling, is_stale_list,
    job_views, jobs_of, pruned, settled, stale_in, stale_views, Job, JobView, Outcome, Removal,
    RunView, Stale, SyncRun,
};
use super::{action_for, Action, SyncOptions};
use crate::model::Gist;
use crate::paths::path_join;
use crate::state::{known, loaded, RecordView, StateWrite, STATE_FILE};
use crate::strmap::{keys_ascend, lemma_pairs_map, pairs_map};

verus! {

/// A gist whose download has ended.
pub struct Done {
    pub id: Seq<char>,
    pub action: Action,
    pub outcome: Outcome,
}

/// A run after downloads have ended, in the order of `done`.
pub open spec fn settle_all(v: RunView, done: Seq<Done>) -> RunView
    decreases done.len(),
{
    if done.len() == 0 {
        v
    } else {
        let d = done.last();
        settled(settle_all(v, done.drop_last()), d.id, d.action, d.outcome)
    }
}

/// A stale folder whose removal has ended.
pub struct Gone {
    pub id: Seq<char>,
    pub folder: Seq<char>,
    pub removal: Removal,
}

/// A run after removals have ended, in the order of `gone`.
pub open spec fn prune_all(v: RunView, gone: Seq<Gone>) -> RunView
    decreases gone.len(),
{
    if gone.len() == 0 {
        v
    } else {
        let g = gone.last();
        pruned(prune_all(v, gone.drop_last()), g.id, g.folder, g.removal)
    }
}

proof fn lemma_jobs(state: Map<Seq<char>, RecordView>, gists: Seq<Gist>, force: bool)
    ensures
        jobs_of(state, gists, force).len() <= gists.len(),
        forall|i: int|
            0 <= i < jobs_of(state, gists, force).len() ==> (#[trigger] jobs_of(
                state,
                gists,
                force,
            )[i]).action != Action::Skip,
    decreases gists.len(),
{
    if gists.len() > 0 {
        lemma_jobs(state, gists.drop_last(), force);
    }
}

proof fn lemma_settle_counts(v: RunView, done: Seq<Done>)
    requires
        forall|i: int| 0 <= i < done.len() ==> (#[trigger] done[i]).action != Action::Skip,
    ensures
        ({
            let w = settle_all(v, done);
            &&& w.created + w.updated + w.errors.len() == v.created + v.updated + v.errors.len()
                + done.len()
            &&& w.skipped == v.skipped
            &&& w.pruned == v.pruned
        }),
    decreases done.len(),
{
    if done.len() > 0 {
        let init = done.drop_last();
        assert forall|i: int| 0 <= i < init.len() implies (#[trigger] init[i]).action
            != Action::Skip by {
            assert(init[i] == done[i]);
        }
        lemma_settle_counts(v, init);
        assert(done[done.len() - 1].action != Action::Skip);
    }
}

/// Every gist is counted exactly once: as new, updated, unchanged or failed.
pub proof fn law_every_gist_is_counted_once(
    state: Map<Seq<char>, RecordView>,
    gists: Seq<Gist>,
    force: bool,
    done: Seq<Done>,
)
    requires
        done.len() == jobs_of(state, gists, force).len(),
        forall|i: int| 0 <= i < done.len() ==> (#[trigger] done[i]).action != Action::Skip,
    ensures
        ({
            let w = settle_all(begun(state, gists, force), done);
            w.created + w.updated + w.skipped + w.errors.len() == gists.len()
        }),
{
    lemma_jobs(state, gists, force);
    lemma_settle_counts(begun(state, gists, force), done);
}

/// A gist that could not be downloaded keeps the record it had, if any, so the
/// next run tries it again.
pub proof fn law_failed_gist_keeps_its_record(
    v: RunView,
    id: Seq<char>,
    action: Action,
    error: Seq<char>,
)
    ensures
        settled(v, id, action, Err(error)).state == v.state,
        settled(v, id, action, Err(error)).errors.last() == id + ": "@ + error,
        settled(v, id, action, Err(error)).errors.len() == v.errors.len() + 1,
{
}

/// A download touches the record of its own gist only.
pub proof fn law_settling_touches_its_own_gist(v: RunView, done: Seq<Done>, id: Seq<char>)
    requires
        forall|i: int| 0 <= i < done.len() ==> (#[trigger] done[i]).id != id,
    ensures
        known(settle_all(v, done).state, id) == known(v.state, id),
    decreases done.len(),
{
    if done.len() > 0 {
        let init = done.drop_last();
        assert forall|i: int| 0 <= i < init.len() implies (#[trigger] init[i]).id != id by {
            assert(init[i] == done[i]);
        }
        law_settling_touches_its_own_gist(v, init, id);
        assert(done[done.len() - 1].id != id);
    }
}

proof fn lemma_settle_recorded(v: RunView, done: Seq<Done>, k: int, rec: RecordView, written: int)
    requires
        0 <= k < done.len(),
        done[k].outcome == Ok::<(RecordView, int), Seq<char>>((rec, written)),
        forall|i: int| k < i < done.len() ==> (#[trigger] done[i]).id != done[k].id,
    ensures
        known(settle_all(v, done).state, done[k].id) == Some(rec),
    decreases done.len(),
{
    if k < done.len() - 1 {
        let init = done.drop_last();
        assert forall|i: int| k < i < init.len() implies (#[trigger] init[i]).id != init[k].id by {
            assert(init[i] == done[i]);
        }
        lemma_settle_recorded(v, init, k, rec, written);
        assert(done[done.len() - 1].id != done[k].id);
    }
}

proof fn lemma_rerun_skips(
    state: Map<Seq<char>, RecordView>,
    gists: Seq<Gist>,
    force: bool,
    done: Seq<Done>,
    at: Seq<int>,
    g: int,
)
    requires
        forall|i: int, j: int|
            0 <= i < j < gists.len() ==> (#[trigger] gists[i]).id@ != (#[trigger] gists[j]).id@,
        // `done[k]` is the download of the gist at `at[k]`, and each gist that is
        // not skipped is downloaded once.
        done.len() == at.len(),
        forall|k: int|
            0 <= k < done.len() ==> {
                &&& 0 <= #[trigger] at[k] < gists.len()
                &&& action_in(state, gists[at[k]], force) != Action::Skip
                &&& done[k].id == gists[at[k]].id@
                &&& done[k].outcome is Ok
                &&& done[k].outcome->Ok_0.0 == record_of(
                    gists[at[k]],
                    known(state, gists[at[k]].id@),
                )
            },
        forall|i: int, j: int| 0 <= i < j < at.len() ==> #[trigger] at[i] != #[trigger] at[j],
        forall|i: int|
            0 <= i < gists.len() && action_in(state, #[trigger] gists[i], force) != Action::Skip
                ==> at.contains(i),
        0 <= g < gists.len(),
    ensures
        action_in(settle_all(begun(state, gists, force), done).state, gists[g], false)
            == Action::Skip,
{
    let v = begun(state, gists, force);
    let id = gists[g].id@;
    if action_in(state, gists[g], force) == Action::Skip {
        assert forall|i: int| 0 <= i < done.len() implies (#[trigger] done[i]).id != id by {
            assert(0 <= at[i] < gists.len());
            assert(at[i] != g);
            if at[i] < g {
                assert(gists[at[i]].id@ != gists[g].id@);
            } else {
                assert(gists[g].id@ != gists[at[i]].id@);
            }
        }
        law_settling_touches_its_own_gist(v, done, id);
    } else {
        let k = choose|k: int| 0 <= k < at.len() && at[k] == g;
        assert(0 <= at[k] < gists.len());
        assert forall|i: int| k < i < done.len() implies (#[trigger] done[i]).id != done[k].id by {
            assert(0 <= at[i] < gists.len());
            assert(at[k] != at[i]);
            if at[i] < g {
                assert(gists[at[i]].id@ != gists[g].id@);
            } else {
                assert(gists[g].id@ != gists[at[i]].id@);
            }
        }
        let rec = record_of(gists[g], known(state, id));
        lemma_settle_recorded(v, done, k, rec, done[k].outcome->Ok_0.1);
    }
}

proof fn lemma_prune_other(v: RunView, gone: Seq<Gone>, id: Seq<char>)
    requires
        forall|i: int| 0 <= i < gone.len() ==> (#[trigger] gone[i]).id != id,
    ensures
        known(prune_all(v, gone).state, id) == known(v.state, id),
    decreases gone.len(),
{
    if gone.len() > 0 {
        let init = gone.drop_last();
        assert forall|i: int| 0 <= i < init.len() implies (#[trigger] init[i]).id != id by {
            assert(init[i] == gone[i]);
        }
        lemma_prune_other(v, init, id);
        assert(gone[gone.len() - 1].id != id);
    }
}

proof fn lemma_nothing_to_do(state: Map<Seq<char>, RecordView>, gists: Seq<Gist>)
    requires
        forall|g: int|
            0 <= g < gists.len() ==> action_in(state, #[trigger] gists[g], false) == Action::Skip,
    ensures
        jobs_of(state, gists, false).len() == 0,
    decreases gists.len(),
{
    if gists.len() > 0 {
        let init = gists.drop_last();
        assert forall|g: int| 0 <= g < init.len() implies action_in(
            state,
            #[trigger] init[g],
            false,
        ) == Action::Skip by {
            assert(init[g] == gists[g]);
        }
        lemma_nothing_to_do(state, init);
        assert(action_in(state, gists[gists.len() - 1], false) == Action::Skip);
    }
}

/// A run that ends without errors leaves nothing to do: the next one skips
/// every gist, unless it changed in between. Ids are unique, the downloads end
/// in any order, and what is pruned is what is not on GitHub.
pub proof fn law_rerun_skips_everything(
    state: Map<Seq<char>, RecordView>,
    gists: Seq<Gist>,
    force: bool,
    done: Seq<Done>,
    at: Seq<int>,
    gone: Seq<Gone>,
)
    requires
        forall|i: int, j: int|
            0 <= i < j < gists.len() ==> (#[trigger] gists[i]).id@ != (#[trigger] gists[j]).id@,
        // `done[k]` is the download of the gist at `at[k]`, and each gist that is
        // not skipped is downloaded once.
        done.len() == at.len(),
        forall|k: int|
            0 <= k < done.len() ==> {
                &&& 0 <= #[trigger] at[k] < gists.len()
                &&& action_in(state, gists[at[k]], force) != Action::Skip
                &&& done[k].id == gists[at[k]].id@
                &&& done[k].outcome is Ok
                &&& done[k].outcome->Ok_0.0 == record_of(
                    gists[at[k]],
                    known(state, gists[at[k]].id@),
                )
            },
        forall|i: int, j: int| 0 <= i < j < at.len() ==> #[trigger] at[i] != #[trigger] at[j],
        forall|i: int|
            0 <= i < gists.len() && action_in(state, #[trigger] gists[i], force) != Action::Skip
                ==> at.contains(i),
        forall|i: int| 0 <= i < gone.len() ==> !is_remote(gists, (#[trigger] gone[i]).id),
    ensures
        ({
            let end = prune_all(settle_all(begun(state, gists, force), done), gone);
            &&& jobs_of(end.state, gists, false).len() == 0
            &&& begun(end.state, gists, false).skipped == gists.len()
        }),
{
    let v = settle_all(begun(state, gists, force), done);
    let end = prune_all(v, gone);
    assert forall|g: int| 0 <= g < gists.len() implies action_in(
        end.state,
        #[trigger] gists[g],
        false,
    ) == Action::Skip by {
        let id = gists[g].id@;
        lemma_rerun_skips(state, gists, force, done, at, g);
        assert forall|i: int| 0 <= i < gone.len() implies (#[trigger] gone[i]).id != id by {
            assert(!is_remote(gists, gone[i].id));
        }
        lemma_prune_other(v, gone, id);
    }
    lemma_nothing_to_do(end.state, gists);
}

/// A gist that is not known is created. A known one is skipped if and only if
/// nothing is forced and its timestamp is, to the last character, the one that
/// was recorded; otherwise it is updated.
pub proof fn law_action_goes_by_the_timestamp(gist: Gist, prior: Option<RecordView>, force: bool)
    ensures
        prior is None ==> action_for(gist, prior, force) == Action::Create,
        prior is Some && !force && prior->0.updated_at == gist.updated_at@ ==> action_for(
            gist,
            prior,
            force,
        ) == Action::Skip,
        prior is Some && (force || prior->0.updated_at.len() != gist.updated_at@.len() || exists|
            i: int,
        |
            0 <= i < gist.updated_at@.len() && prior->0.updated_at[i]
                != #[trigger] gist.updated_at@[i]) ==> action_for(gist, prior, force)
            == Action::Update,
{
}

/// A gist that was just downloaded is not downloaded again, until its timestamp
/// is another one: then it is.
pub proof fn law_download_settles_a_revision(
    gist: Gist,
    prior: Option<RecordView>,
    later: Gist,
)
    ensures
        action_for(gist, Some(record_of(gist, prior)), false) == Action::Skip,
        later.updated_at@ == gist.updated_at@ <==> action_for(
            later,
            Some(record_of(gist, prior)),
            false,
        ) == Action::Skip,
        later.updated_at@ != gist.updated_at@ <==> action_for(
            later,
            Some(record_of(gist, prior)),
            false,
        ) == Action::Update,
{
}

/// Whether the gist at `i` has to be downloaded: nothing is known of it, or all
/// are forced, or its timestamp is not the one that was recorded.
pub open spec fn is_due(
    state: Map<Seq<char>, RecordView>,
    gists: Seq<Gist>,
    force: bool,
    i: int,
) -> bool {
    ||| force
    ||| !state.contains_key(gists[i].id@)
    ||| state[gists[i].id@].updated_at != gists[i].updated_at@
}

/// The jobs of a run are exactly the gists that are due, in the order of the
/// list and each once, with what is known of them; they are updates where
/// something is.
pub proof fn law_jobs_are_the_gists_that_are_due(
    state: Map<Seq<char>, RecordView>,
    gists: Seq<Gist>,
    force: bool,
)
    ensures
        ({
            let jobs = jobs_of(state, gists, force);
            &&& forall|a: int, b: int|
                0 <= a < b < jobs.len() ==> (#[trigger] jobs[a]).index < (#[trigger] jobs[b]).index
            &&& forall|a: int|
                0 <= a < jobs.len() ==> {
                    let job = #[trigger] jobs[a];
                    let id = gists[job.index].id@;
                    &&& 0 <= job.index < gists.len()
                    &&& is_due(state, gists, force, job.index)
                    &&& job.prior is Some <==> state.contains_key(id)
                    &&& job.prior is Some ==> job.prior->0 == state[id]
                    &&& job.action == if state.contains_key(id) {
                        Action::Update
                    } else {
                        Action::Create
                    }
                }
            &&& forall|i: int|
                0 <= i < gists.len() && #[trigger] is_due(state, gists, force, i) ==> exists|
                    a: int,
                |
                    0 <= a < jobs.len() && (#[trigger] jobs[a]).index == i
            &&& begun(state, gists, force).skipped + jobs.len() == gists.len()
            &&& begun(state, gists, force).state == state
        }),
    decreases gists.len(),
{
    let jobs = jobs_of(state, gists, force);
    if gists.len() > 0 {
        let init = gists.drop_last();
        let before = jobs_of(state, init, force);
        law_jobs_are_the_gists_that_are_due(state, init, force);
        let n = init.len() as int;
        assert forall|a: int| 0 <= a < before.len() implies jobs[a] == #[trigger] before[a]
            && before[a].index < n && is_due(state, gists, force, before[a].index)
            && gists[before[a].index] == init[before[a].index] by {
            assert(is_due(state, init, force, before[a].index));
        }
        assert forall|a: int| 0 <= a < jobs.len() implies {
            let job = #[trigger] jobs[a];
            let id = gists[job.index].id@;
            &&& 0 <= job.index < gists.len()
            &&& is_due(state, gists, force, job.index)
            &&& job.prior is Some <==> state.contains_key(id)
            &&& job.prior is Some ==> job.prior->0 == state[id]
            &&& job.action == if state.contains_key(id) {
                Action::Update
            } else {
                Action::Create
            }
        } by {
            if a < before.len() {
                assert(jobs[a] == before[a]);
            }
        }
        assert forall|i: int|
            0 <= i < gists.len() && #[trigger] is_due(state, gists, force, i) implies exists|a: int|
            0 <= a < jobs.len() && (#[trigger] jobs[a]).index == i by {
            if i < n {
                assert(is_due(state, init, force, i));
                let a = choose|a: int| 0 <= a < before.len() && (#[trigger] before[a]).index == i;
                assert(jobs[a].index == i);
            } else {
                assert(jobs[jobs.len() - 1].index == i);
            }
        }
        assert forall|a: int, b: int| 0 <= a < b < jobs.len() implies (#[trigger] jobs[a]).index < (
        #[trigger] jobs[b]).index by {
            assert(jobs[a] == before[a]);
            if b < before.len() {
                assert(jobs[b] == before[b]);
            }
        }
    }
}

/// How many of `done` ended well, with `action`.
pub open spec fn ended_well(done: Seq<Done>, action: Action) -> nat
    decreases done.len(),
{
    if done.len() == 0 {
        0
    } else {
        ended_well(done.drop_last(), action) + if done.last().outcome is Ok && done.last().action
            == action {
            1nat
        } else {
            0
        }
    }
}

/// How many files were written for all of `done`.
pub open spec fn files_of(done: Seq<Done>) -> int
    decreases done.len(),
{
    if done.len() == 0 {
        0
    } else {
        files_of(done.drop_last()) + match done.last().outcome {
            Ok((_, written)) => written,
            Err(_) => 0,
        }
    }
}

/// How many of `done` failed.
pub open spec fn failed(done: Seq<Done>) -> nat
    decreases done.len(),
{
    if done.len() == 0 {
        0
    } else {
        failed(done.drop_last()) + if done.last().outcome is Err {
            1nat
        } else {
            0
        }
    }
}

/// The tallies are what they say: new and updated gists are those that ended
/// well as such, files are those written for them, and there is one error for
/// each gist that failed, behind the errors from before.
pub proof fn law_tallies_count_the_outcomes(v: RunView, done: Seq<Done>)
    ensures
        ({
            let w = settle_all(v, done);
            &&& w.created == v.created + ended_well(done, Action::Create)
            &&& w.updated == v.updated + ended_well(done, Action::Update)
            &&& w.files_written == v.files_written + files_of(done)
            &&& w.errors.len() == v.errors.len() + failed(done)
            &&& w.errors.take(v.errors.len() as int) == v.errors
            &&& w.skipped == v.skipped
            &&& w.pruned == v.pruned
        }),
    decreases done.len(),
{
    if done.len() > 0 {
        law_tallies_count_the_outcomes(v, done.drop_last());
        let w = settle_all(v, done.drop_last());
        let x = settle_all(v, done);
        assert(x.errors.take(v.errors.len() as int) == w.errors.take(v.errors.len() as int));
    } else {
        assert(v.errors.take(v.errors.len() as int) == v.errors);
    }
}

/// A gist that failed is named by its error, which ends with the reason.
pub proof fn law_error_names_its_gist(v: RunView, id: Seq<char>, action: Action, text: Seq<char>)
    ensures
        ({
            let w = settled(v, id, action, Err(text));
            &&& w.errors.len() == v.errors.len() + 1
            &&& w.errors.drop_last() == v.errors
            &&& id.is_prefix_of(w.errors.last())
            &&& text.is_suffix_of(w.errors.last())
            &&& w.errors.last().len() > id.len() + text.len()
            &&& w.state == v.state
            &&& w.created == v.created
            &&& w.updated == v.updated
            &&& w.files_written == v.files_written
        }),
{
    reveal_strlit(": ");
    let w = settled(v, id, action, Err(text));
    let e = w.errors.last();
    assert(w.errors.drop_last() == v.errors);
    assert(e.take(id.len() as int) == id);
    assert(e.skip(e.len() - text.len()) == text);
}

/// What a gist that ended well is recorded as stands in the state, in the place
/// of what was known of it, until it is downloaded again.
pub proof fn law_last_good_download_is_recorded(v: RunView, done: Seq<Done>, k: int)
    requires
        0 <= k < done.len(),
        done[k].outcome is Ok,
        forall|i: int|
            k < i < done.len() && (#[trigger] done[i]).id == done[k].id ==> done[i].outcome is Err,
    ensures
        known(settle_all(v, done).state, done[k].id) == Some(done[k].outcome->Ok_0.0),
    decreases done.len(),
{
    if k < done.len() - 1 {
        let init = done.drop_last();
        assert forall|i: int|
            k < i < init.len() && (#[trigger] init[i]).id == init[k].id implies init[i].outcome
            is Err by {
            assert(init[i] == done[i]);
        }
        law_last_good_download_is_recorded(v, init, k);
        assert(done[done.len() - 1].id == done[k].id ==> done[done.len() - 1].outcome is Err);
    }
}

/// The stale folders are exactly those of the records whose gists are not on
/// GitHub.
pub proof fn law_stale_is_what_is_gone_from_github(
    records: Seq<(Seq<char>, RecordView)>,
    gists: Seq<Gist>,
    id: Seq<char>,
    folder: Seq<char>,
)
    ensures
        stale_in(records, gists).contains((id, folder)) <==> ((forall|i: int|
            0 <= i < gists.len() ==> (#[trigger] gists[i]).id@ != id) && exists|k: int|
            0 <= k < records.len() && (#[trigger] records[k]).0 == id && records[k].1.folder
                == folder),
        stale_in(records, gists).len() <= records.len(),
    decreases records.len(),
{
    let s = stale_in(records, gists);
    let gone = forall|i: int| 0 <= i < gists.len() ==> (#[trigger] gists[i]).id@ != id;
    assert(is_remote(gists, id) <==> !gone);
    if records.len() > 0 {
        let init = records.drop_last();
        let e = records.last();
        assert(e == records[records.len() - 1]);
        law_stale_is_what_is_gone_from_github(init, gists, id, folder);
        let t = stale_in(init, gists);
        assert(s == if is_remote(gists, e.0) {
            t
        } else {
            t.push((e.0, e.1.folder))
        });
        if s.contains((id, folder)) {
            let i = choose|i: int| 0 <= i < s.len() && s[i] == (id, folder);
            if i < t.len() {
                assert(t[i] == (id, folder));
                let k = choose|k: int|
                    0 <= k < init.len() && (#[trigger] init[k]).0 == id && init[k].1.folder
                        == folder;
                assert(records[k] == init[k]);
            }
        }
        if gone && exists|k: int|
            0 <= k < records.len() && (#[trigger] records[k]).0 == id && records[k].1.folder
                == folder {
            let k = choose|k: int|
                0 <= k < records.len() && (#[trigger] records[k]).0 == id && records[k].1.folder
                    == folder;
            if k < init.len() {
                assert(init[k] == records[k]);
                let i = choose|i: int| 0 <= i < t.len() && t[i] == (id, folder);
                assert(s[i] == (id, folder));
            } else {
                assert(s[s.len() - 1] == (id, folder));
            }
        }
    } else {
        assert(s.len() == 0);
    }
}

/// A folder that could not be removed is still known, and is reported; one that
/// is removed, or was not there, is forgotten and counted; in a dry run it is
/// only counted. No other gist is touched.
pub proof fn law_removal_is_settled(
    v: RunView,
    id: Seq<char>,
    folder: Seq<char>,
    removal: Removal,
    other: Seq<char>,
)
    ensures
        ({
            let w = pruned(v, id, folder, removal);
            &&& w.pruned == v.pruned + if removal is Failed {
                0int
            } else {
                1
            }
            &&& w.errors.len() == v.errors.len() + if removal is Failed {
                1int
            } else {
                0
            }
            &&& removal is Removed || removal is Missing ==> !w.state.contains_key(id)
            &&& removal is Planned || removal is Failed ==> w.state == v.state
            &&& other != id ==> known(w.state, other) == known(v.state, other)
            &&& w.created == v.created
            &&& w.updated == v.updated
            &&& w.skipped == v.skipped
            &&& w.files_written == v.files_written
        }),
{
}

/// With `--force` every gist is downloaded, each in its turn: a known one is
/// updated and any other created.
pub proof fn law_force_skips_nothing(state: Map<Seq<char>, RecordView>, gists: Seq<Gist>)
    ensures
        jobs_of(state, gists, true).len() == gists.len(),
        forall|i: int|
            0 <= i < gists.len() ==> {
                let job = #[trigger] jobs_of(state, gists, true)[i];
                &&& job.index == i
                &&& job.prior == known(state, gists[i].id@)
                &&& job.action == if state.contains_key(gists[i].id@) {
                    Action::Update
                } else {
                    Action::Create
                }
            },
        begun(state, gists, true).skipped == 0,
    decreases gists.len(),
{
    if gists.len() > 0 {
        let init = gists.drop_last();
        law_force_skips_nothing(state, init);
        let jobs = jobs_of(state, gists, true);
        assert forall|i: int| 0 <= i < gists.len() implies {
            let job = #[trigger] jobs[i];
            &&& job.index == i
            &&& job.prior == known(state, gists[i].id@)
            &&& job.action == if state.contains_key(gists[i].id@) {
                Action::Update
            } else {
                Action::Create
            }
        } by {
            if i < init.len() {
                assert(jobs[i] == jobs_of(state, init, true)[i]);
                assert(init[i] == gists[i]);
            }
        }
    }
}

/// The order in which two different gists end makes no difference to the state
/// and the tallies, but for the order of the errors.
pub proof fn law_order_of_downloads_is_irrelevant(v: RunView, a: Done, b: Done)
    requires
        a.id != b.id,
    ensures
        ({
            let x = settled(settled(v, a.id, a.action, a.outcome), b.id, b.action, b.outcome);
            let y = settled(settled(v, b.id, b.action, b.outcome), a.id, a.action, a.outcome);
            &&& x.state == y.state
            &&& x.created == y.created
            &&& x.updated == y.updated
            &&& x.skipped == y.skipped
            &&& x.pruned == y.pruned
            &&& x.files_written == y.files_written
            &&& x.errors.to_multiset() == y.errors.to_multiset()
        }),
{
    let x = settled(settled(v, a.id, a.action, a.outcome), b.id, b.action, b.outcome);
    let y = settled(settled(v, b.id, b.action, b.outcome), a.id, a.action, a.outcome);
    assert(x.state =~= y.state);
    if a.outcome is Err && b.outcome is Err {
        let ea = a.id + ": "@ + a.outcome->Err_0;
        let eb = b.id + ": "@ + b.outcome->Err_0;
        vstd::seq_lib::to_multiset_build(v.errors, ea);
        vstd::seq_lib::to_multiset_build(v.errors, eb);
        vstd::seq_lib::to_multiset_build(v.errors.push(ea), eb);
        vstd::seq_lib::to_multiset_build(v.errors.push(eb), ea);
        assert(x.errors.to_multiset() =~= y.errors.to_multiset());
    }
}

/// Deletions are non-destructive unless pruning: without it a run forgets no
/// gist.
pub proof fn law_without_pruning_nothing_is_forgotten(v: RunView, done: Seq<Done>, id: Seq<char>)
    requires
        v.state.contains_key(id),
    ensures
        settle_all(v, done).state.contains_key(id),
    decreases done.len(),
{
    if done.len() > 0 {
        law_without_pruning_nothing_is_forgotten(v, done.drop_last(), id);
    }
}

/// Pruning only counts what it would remove in a dry run.
pub proof fn law_dry_run_prunes_nothing(v: RunView, gone: Seq<Gone>)
    requires
        forall|i: int| 0 <= i < gone.len() ==> (#[trigger] gone[i]).removal is Planned,
    ensures
        prune_all(v, gone).state == v.state,
        prune_all(v, gone).pruned == v.pruned + gone.len(),
        prune_all(v, gone).errors == v.errors,
    decreases gone.len(),
{
    if gone.len() > 0 {
        let init = gone.drop_last();
        assert forall|i: int| 0 <= i < init.len() implies (
        #[trigger] init[i]).removal is Planned by {
            assert(init[i] == gone[i]);
        }
        law_dry_run_prunes_nothing(v, init);
        assert(gone[gone.len() - 1].removal is Planned);
    }
}

proof fn lemma_prune_state(v: RunView, gone: Seq<Gone>, id: Seq<char>)
    requires
        forall|i: int|
            0 <= i < gone.len() ==> (#[trigger] gone[i]).removal is Removed
                || gone[i].removal is Missing,
    ensures
        known(prune_all(v, gone).state, id) == if exists|i: int|
            0 <= i < gone.len() && (#[trigger] gone[i]).id == id {
            None
        } else {
            known(v.state, id)
        },
        prune_all(v, gone).pruned == v.pruned + gone.len(),
        prune_all(v, gone).errors == v.errors,
    decreases gone.len(),
{
    if gone.len() > 0 {
        let init = gone.drop_last();
        assert forall|i: int| 0 <= i < init.len() implies (#[trigger] init[i]).removal is Removed
            || init[i].removal is Missing by {
            assert(init[i] == gone[i]);
        }
        lemma_prune_state(v, init, id);
        let last = gone[gone.len() - 1];
        assert(last.removal is Removed || last.removal is Missing);
        if last.id == id {
            assert(gone[gone.len() - 1].id == id);
        } else if exists|i: int| 0 <= i < init.len() && (#[trigger] init[i]).id == id {
            let i = choose|i: int| 0 <= i < init.len() && (#[trigger] init[i]).id == id;
            assert(gone[i].id == id);
        } else if exists|i: int| 0 <= i < gone.len() && (#[trigger] gone[i]).id == id {
            let i = choose|i: int| 0 <= i < gone.len() && (#[trigger] gone[i]).id == id;
            assert(init[i].id == id);
        }
    }
}

proof fn lemma_stale(records: Seq<(Seq<char>, RecordView)>, gists: Seq<Gist>, id: Seq<char>)
    ensures
        (exists|i: int|
            0 <= i < stale_in(records, gists).len() && (#[trigger] stale_in(records, gists)[i]).0
                == id) <==> (!is_remote(gists, id) && exists|i: int|
            0 <= i < records.len() && (#[trigger] records[i]).0 == id),
    decreases records.len(),
{
    let s = stale_in(records, gists);
    if records.len() > 0 {
        let init = records.drop_last();
        let t = stale_in(init, gists);
        lemma_stale(init, gists, id);
        let e = records.last();
        if exists|i: int| 0 <= i < s.len() && (#[trigger] s[i]).0 == id {
            let i = choose|i: int| 0 <= i < s.len() && (#[trigger] s[i]).0 == id;
            if i < t.len() {
                assert(t[i].0 == id);
                let j = choose|j: int| 0 <= j < init.len() && (#[trigger] init[j]).0 == id;
                assert(records[j].0 == id);
            } else {
                assert(records[records.len() - 1].0 == id);
            }
        }
        if !is_remote(gists, id) && exists|i: int|
            0 <= i < records.len() && (#[trigger] records[i]).0 == id {
            let i = choose|i: int| 0 <= i < records.len() && (#[trigger] records[i]).0 == id;
            if i < init.len() {
                assert(init[i].0 == id);
                let j = choose|j: int| 0 <= j < t.len() && (#[trigger] t[j]).0 == id;
                assert(s[j].0 == id);
            } else {
                assert(s[s.len() - 1].0 == id);
            }
        }
    }
}

/// Pruning, where the stale folders can be removed, leaves exactly the records
/// of gists that are on GitHub, and these as they were.
pub proof fn law_pruning_leaves_what_is_remote(
    v: RunView,
    records: Seq<(Seq<char>, RecordView)>,
    gists: Seq<Gist>,
    gone: Seq<Gone>,
    id: Seq<char>,
)
    requires
        v.state == pairs_map(records),
        keys_ascend(records),
        gone.len() == stale_in(records, gists).len(),
        forall|i: int|
            0 <= i < gone.len() ==> {
                &&& (#[trigger] gone[i]).id == stale_in(records, gists)[i].0
                &&& gone[i].removal is Removed || gone[i].removal is Missing
            },
    ensures
        known(prune_all(v, gone).state, id) == if is_remote(gists, id) {
            known(v.state, id)
        } else {
            None
        },
        prune_all(v, gone).pruned == v.pruned + gone.len(),
        prune_all(v, gone).errors == v.errors,
{
    let s = stale_in(records, gists);
    lemma_prune_state(v, gone, id);
    lemma_stale(records, gists, id);
    lemma_pairs_map(records);
    if exists|i: int| 0 <= i < gone.len() && (#[trigger] gone[i]).id == id {
        let i = choose|i: int| 0 <= i < gone.len() && (#[trigger] gone[i]).id == id;
        assert(s[i].0 == id);
    }
    if exists|i: int| 0 <= i < s.len() && (#[trigger] s[i]).0 == id {
        let i = choose|i: int| 0 <= i < s.len() && (#[trigger] s[i]).0 == id;
        assert(gone[i].id == id);
    }
    if v.state.contains_key(id) && !is_remote(gists, id) {
        let i = choose|i: int| 0 <= i < records.len() && (#[trigger] records[i]).0 == id;
        assert(records[i].0 == id);
    }
}

/// There is room for an outcome if and only if none of the tallies goes beyond what
/// it can hold.
pub proof fn law_room_is_what_the_tallies_take(
    run: SyncRun,
    id: Seq<char>,
    action: Action,
    rec: RecordView,
    written: int,
)
    requires
        written >= 0,
    ensures
        ({
            let w = settled(run@, id, action, Ok((rec, written)));
            run.has_room(action, written) <==> w.created <= usize::MAX && w.updated <= usize::MAX
                && w.files_written <= usize::MAX
        }),
{
}

/// A run ends with 1 if and only if something failed in it.
pub proof fn law_status_says_whether_something_failed(run: SyncRun)
    ensures
        run.summary.status() == 0 <==> run@.errors.len() == 0,
        run.summary.status() == 1 <==> run@.errors.len() > 0,
{
}

/// Gists are downloaded as many at a time as is asked for, and never none.
pub proof fn law_there_is_a_worker(opts: SyncOptions)
    ensures
        opts.worker_count() >= 1,
        opts.concurrency > 0 ==> opts.worker_count() == opts.concurrency,
        opts.worker_count() <= opts.concurrency + 1,
{
}

/// Nothing is pruned unless that is asked for. If it is, the folders of the gists
/// that are gone from GitHub are, each of them; in a dry run none is removed.
pub proof fn law_pruning_is_asked_for(
    records: Seq<(Seq<char>, RecordView)>,
    gists: Seq<Gist>,
    opts: SyncOptions,
    stale: Seq<Stale>,
    k: int,
)
    requires
        is_stale_list(records, gists, opts, stale),
    ensures
        !opts.prune ==> stale.len() == 0,
        0 <= k < records.len() && opts.prune && (forall|i: int|
            0 <= i < gists.len() ==> (#[trigger] gists[i]).id@ != records[k].0) ==> exists|i: int|
            0 <= i < stale.len() && (#[trigger] stale[i]).id@ == records[k].0 && stale[i].folder@
                == records[k].1.folder,
        forall|i: int|
            0 <= i < stale.len() ==> (#[trigger] stale[i]).remove == !opts.dry_run && !is_remote(
                gists,
                stale[i].id@,
            ),
{
    let views = stale_views(stale);
    assert(views.len() == stale.len());
    if 0 <= k < records.len() && opts.prune && (forall|i: int|
        0 <= i < gists.len() ==> (#[trigger] gists[i]).id@ != records[k].0) {
        let item = (records[k].0, records[k].1.folder);
        law_stale_is_what_is_gone_from_github(records, gists, item.0, item.1);
        let i = choose|i: int| 0 <= i < views.len() && views[i] == item;
        assert(stale[i].id@ == item.0 && stale[i].folder@ == item.1);
    }
    assert forall|i: int| 0 <= i < stale.len() implies (#[trigger] stale[i]).remove
        == !opts.dry_run && !is_remote(gists, stale[i].id@) by {
        let item = (stale[i].id@, stale[i].folder@);
        assert(views[i] == item);
        assert(views.contains(item));
        law_stale_is_what_is_gone_from_github(records, gists, item.0, item.1);
    }
}

/// A run saves its state unless it is a dry run: in the state file of the output
/// dir, by way of another file there, and so that it is loaded as it is.
pub proof fn law_state_is_saved(
    state: Map<Seq<char>, RecordView>,
    opts: SyncOptions,
    write: Option<StateWrite>,
)
    requires
        is_saving(state, opts, write),
    ensures
        write is Some <==> !opts.dry_run,
        write matches Some(w) ==> {
            &&& loaded(Some(w.bytes@)) == state
            &&& w.path@ == path_join(opts.output@, ".grass-state.json"@)
            &&& w.temp_path@ == w.path@ + ".tmp"@
            &&& w.temp_path@ != w.path@
        },
{
    reveal_strlit(".grass-state.json");
    reveal_strlit(".tmp");
    if let Some(w) = write {
        let name = STATE_FILE@;
        assert(name[0] == '.');
        assert((name + ".tmp"@)[0] == '.');
        assert(w.temp_path@ == w.path@ + ".tmp"@);
        assert(".tmp"@.len() == 4);
    }
}

/// A run begins with nothing done: only what is skipped is counted.
pub proof fn law_run_begins_with_nothing_done(
    state: Map<Seq<char>, RecordView>,
    gists: Seq<Gist>,
    force: bool,
)
    ensures
        ({
            let v = begun(state, gists, force);
            &&& v.created == 0 && v.updated == 0 && v.pruned == 0 && v.files_written == 0
            &&& v.errors.len() == 0
            &&& 0 <= v.skipped <= gists.len()
            &&& force ==> v.skipped == 0
        }),
{
    law_jobs_are_the_gists_that_are_due(state, gists, force);
    law_force_skips_nothing(state, gists);
    lemma_jobs(state, gists, force);
}

/// A run has something to do for a gist if and only if it is forced, does not know
/// the gist, or knows another timestamp of it; whether it is a dry run, and whether
/// it prunes, makes no difference.
pub proof fn law_run_does_what_is_due(
    state: Map<Seq<char>, RecordView>,
    gists: Seq<Gist>,
    opts: SyncOptions,
    run: RunView,
    jobs: Seq<JobView>,
    i: int,
)
    requires
        is_beginning(state, gists, opts, run, jobs),
        0 <= i < gists.len(),
    ensures
        (exists|a: int| 0 <= a < jobs.len() && (#[trigger] jobs[a]).index == i) <==> (opts.force
            || !state.contains_key(gists[i].id@) || state[gists[i].id@].updated_at
            != gists[i].updated_at@),
        run.skipped == gists.len() - jobs.len(),
        run.state == state,
{
    law_jobs_are_the_gists_that_are_due(state, gists, opts.force);
    assert(is_due(state, gists, opts.force, i) <==> (opts.force || !state.contains_key(
        gists[i].id@,
    ) || state[gists[i].id@].updated_at != gists[i].updated_at@));
    if exists|a: int| 0 <= a < jobs.len() && (#[trigger] jobs[a]).index == i {
        let a = choose|a: int| 0 <= a < jobs.len() && (#[trigger] jobs[a]).index == i;
        assert(is_due(state, gists, opts.force, jobs[a].index));
    }
}

/// A gist that was downloaded is recorded under its id and no other, and counted as
/// new or updated; of one that was not, only an error that begins with its id is
/// kept.
pub proof fn law_outcome_is_that_of_the_gist(
    before: RunView,
    gist: Gist,
    action: Action,
    outcome: Outcome,
    after: RunView,
    id: Seq<char>,
)
    requires
        is_settling(before, gist, action, outcome, after),
    ensures
        outcome matches Ok((rec, written)) ==> {
            &&& known(after.state, gist.id@) == Some(rec)
            &&& after.files_written == before.files_written + written
            &&& after.created - before.created == if action == Action::Create {
                1int
            } else {
                0
            }
            &&& after.updated - before.updated == if action == Action::Update {
                1int
            } else {
                0
            }
            &&& after.errors == before.errors
        },
        id != gist.id@ ==> known(after.state, id) == known(before.state, id),
        outcome matches Err(text) ==> after.state == before.state && after.errors.drop_last()
            == before.errors && gist.id@.is_prefix_of(after.errors.last()) && text.is_suffix_of(
            after.errors.last(),
        ),
        after.skipped == before.skipped,
        after.pruned == before.pruned,
{
    if let Err(text) = outcome {
        law_error_names_its_gist(before, gist.id@, action, text);
    }
}

/// A stale folder that is gone is forgotten and counted; one that could not be
/// removed is named by an error.
pub proof fn law_pruning_is_of_the_stale_folder(
    before: RunView,
    stale: Stale,
    removal: Removal,
    after: RunView,
    id: Seq<char>,
)
    requires
        is_pruning(before, stale, removal, after),
    ensures
        removal is Removed || removal is Missing ==> known(after.state, stale.id@) is None,
        removal is Planned || removal is Failed ==> after.state == before.state,
        id != stale.id@ ==> known(after.state, id) == known(before.state, id),
        removal !is Failed ==> after.pruned == before.pruned + 1 && after.errors == before.errors,
        removal matches Removal::Failed(cause) ==> after.pruned == before.pruned
            && after.errors.drop_last() == before.errors && after.errors.last() == "pruning "@
            + stale.folder@ + ": "@ + cause@,
{
    if removal is Failed {
        assert(after.errors.drop_last() == before.errors);
    }
}

/// What a run holds is its state and its tallies, each under its own name, with
/// every error.
pub proof fn law_run_is_its_state_and_tallies(run: SyncRun, k: int)
    ensures
        run@.state == run.state@,
        run@.created == run.summary.created,
        run@.updated == run.summary.updated,
        run@.skipped == run.summary.skipped,
        run@.pruned == run.summary.pruned,
        run@.files_written == run.summary.files_written,
        run@.errors.len() == run.summary.errors@.len(),
        0 <= k < run@.errors.len() ==> run@.errors[k] == run.summary.errors@[k]@,
{
}

/// What jobs hold is all of them: each with its gist, its action and what is known.
pub proof fn law_jobs_are_all_of_them(jobs: Seq<Job>, k: int)
    requires
        0 <= k < jobs.len(),
    ensures
        job_views(jobs).len() == jobs.len(),
        job_views(jobs)[k].index == jobs[k].index,
        job_views(jobs)[k].action == jobs[k].action,
        jobs[k].prior is None ==> job_views(jobs)[k].prior is None,
        jobs[k].prior matches Some(rec) ==> job_views(jobs)[k].prior == Some(rec@),
{
}

} // verus!
