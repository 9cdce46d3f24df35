//! What to do on disk for one gist.
use vstd::prelude::*;

use super::meta::{meta_json, write_meta};
use super::META_FILE;
use crate::json::json_pretty;
use crate::model::{Gist, GistFile};
use crate::naming::{folder_name, folder_of, law_folder_is_a_name};
use crate::paths::{
    is_name, join, last_name, law_flat_name_is_kept, law_safe_path_stays_in_the_directory,
    path_join, safe_file_path,
};
use crate::state::{GistRecord, RecordView};
use crate::text::{lemma_filter_map_has, same, string_views};

verus! {

/// One step of downloading a gist. Paths are relative to the output dir.
#[derive(Debug, Clone, PartialEq, Eq)]
pub enum Step {
    /// Rename the folder `from` to `to` where [`moves_folder`] says so, so that
    /// history and untracked files are kept instead of orphaned.
    MoveFolder { from: String, to: String },
    /// Create the folder, with what is above it.
    CreateDir { path: String },
    /// Fetch the raw bytes of a file.
    Fetch { url: String, filename: String },
    /// Write the bytes that were fetched last.
    WriteFetched { path: String },
    /// Give up: the file has no safe name.
    Refuse { filename: String },
    /// Remove a file that is no longer part of the gist.
    RemoveFile { path: String },
    /// Write the metadata sidecar.
    WriteMeta { path: String, bytes: Vec<u8> },
}

/// What a [`Step`] says.
#[verifier::ext_equal]
pub enum StepView {
    MoveFolder { from: Seq<char>, to: Seq<char> },
    CreateDir { path: Seq<char> },
    Fetch { url: Seq<char>, filename: Seq<char> },
    WriteFetched { path: Seq<char> },
    Refuse { filename: Seq<char> },
    RemoveFile { path: Seq<char> },
    WriteMeta { path: Seq<char>, bytes: Seq<u8> },
}

impl View for Step {
    type V = StepView;

    open spec fn view(&self) -> StepView {
        match self {
            Step::MoveFolder { from, to } => StepView::MoveFolder { from: from@, to: to@ },
            Step::CreateDir { path } => StepView::CreateDir { path: path@ },
            Step::Fetch { url, filename } => StepView::Fetch { url: url@, filename: filename@ },
            Step::WriteFetched { path } => StepView::WriteFetched { path: path@ },
            Step::Refuse { filename } => StepView::Refuse { filename: filename@ },
            Step::RemoveFile { path } => StepView::RemoveFile { path: path@ },
            Step::WriteMeta { path, bytes } => StepView::WriteMeta { path: path@, bytes: bytes@ },
        }
    }
}

/// What each of `s` says.
pub open spec fn step_views(s: Seq<Step>) -> Seq<StepView> {
    s.map_values(|x: Step| x@)
}

/// The names of a gist's files.
pub open spec fn file_names(files: Seq<GistFile>) -> Seq<Seq<char>> {
    files.map_values(|f: GistFile| f.filename@)
}

/// How one file is downloaded. A file without a URL is left alone.
pub open spec fn file_steps(folder: Seq<char>, file: GistFile) -> Seq<StepView> {
    match file.raw_url {
        Some(url) => seq![
            StepView::Fetch { url: url@, filename: file.filename@ },
            match last_name(file.filename@) {
                Some(name) => StepView::WriteFetched { path: path_join(folder, name) },
                None => StepView::Refuse { filename: file.filename@ },
            },
        ],
        None => seq![],
    }
}

/// How files are downloaded, one after the other.
pub open spec fn download_steps(folder: Seq<char>, files: Seq<GistFile>) -> Seq<StepView>
    decreases files.len(),
{
    if files.len() == 0 {
        seq![]
    } else {
        download_steps(folder, files.drop_last()) + file_steps(folder, files.last())
    }
}

/// The removal of an old file that is not among `names` any more, if it has a
/// safe name.
pub open spec fn removal_step(
    folder: Seq<char>,
    old: Seq<char>,
    names: Seq<Seq<char>>,
) -> Option<StepView> {
    if names.contains(old) {
        None
    } else {
        match last_name(old) {
            Some(name) => Some(StepView::RemoveFile { path: path_join(folder, name) }),
            None => None,
        }
    }
}

/// How the files of `prior` that are not among `names` any more are removed.
pub open spec fn removal_steps(
    folder: Seq<char>,
    prior: Option<RecordView>,
    names: Seq<Seq<char>>,
) -> Seq<StepView> {
    match prior {
        Some(prev) => prev.files.filter_map(|old: Seq<char>| removal_step(folder, old, names)),
        None => seq![],
    }
}

/// Whether the old folder of a gist is renamed to the new one.
pub open spec fn is_moved(old_exists: bool, new_exists: bool) -> bool {
    old_exists && !new_exists
}

/// Whether the old folder of a gist is renamed to the new one: it is there, and
/// nothing is in its way.
pub fn moves_folder(old_exists: bool, new_exists: bool) -> (r: bool)
    ensures
        r == (old_exists && !new_exists),
        r == is_moved(old_exists, new_exists),
{
    old_exists && !new_exists
}

/// How the folder of `prior` is moved, if the folder is another one now.
pub open spec fn move_steps(folder: Seq<char>, prior: Option<RecordView>) -> Seq<StepView> {
    match prior {
        Some(prev) => if prev.folder != folder {
            seq![StepView::MoveFolder { from: prev.folder, to: folder }]
        } else {
            seq![]
        },
        None => seq![],
    }
}

/// The sidecar of a gist in `folder`.
pub open spec fn meta_step(folder: Seq<char>, gist: Gist) -> StepView {
    StepView::WriteMeta {
        path: path_join(folder, META_FILE@),
        bytes: json_pretty(meta_json(gist)),
    }
}

/// All steps for a gist: none in a dry run.
pub open spec fn gist_steps(gist: Gist, prior: Option<RecordView>, dry_run: bool) -> Seq<StepView> {
    let folder = folder_of(gist);
    if dry_run {
        seq![]
    } else {
        move_steps(folder, prior) + seq![StepView::CreateDir { path: folder }] + download_steps(
            folder,
            gist.file_list(),
        ) + removal_steps(folder, prior, file_names(gist.file_list())) + seq![
            meta_step(folder, gist),
        ]
    }
}

/// The names of the files that are written: those that have a URL.
pub open spec fn written_names(files: Seq<GistFile>) -> Seq<Seq<char>> {
    files.filter_map(
        |f: GistFile|
            match f.raw_url {
                Some(_) => Some(f.filename@),
                None => None,
            },
    )
}

/// Whether `prior` lists a file under `name`.
pub open spec fn was_written(prior: Option<RecordView>, name: Seq<char>) -> bool {
    match prior {
        Some(prev) => prev.files.contains(name),
        None => false,
    }
}

/// The names of the files that are there once the gist is downloaded: those
/// that are written now, and those that were written before and are still part
/// of the gist.
pub open spec fn recorded_names(
    files: Seq<GistFile>,
    prior: Option<RecordView>,
) -> Seq<Seq<char>> {
    files.filter_map(
        |f: GistFile|
            if f.raw_url is Some || was_written(prior, f.filename@) {
                Some(f.filename@)
            } else {
                None
            },
    )
}

/// What is recorded of a gist that was downloaded.
pub open spec fn record_of(gist: Gist, prior: Option<RecordView>) -> RecordView {
    RecordView {
        updated_at: gist.updated_at@,
        folder: folder_of(gist),
        files: recorded_names(gist.file_list(), prior),
    }
}

/// What to do for one gist, and what comes of it when all is done.
#[derive(Debug)]
pub struct GistPlan {
    pub steps: Vec<Step>,
    /// What to record of the gist.
    pub record: GistRecord,
    /// The number of files written (or that would be written, in dry-run mode).
    pub written: usize,
}

/// What is known of a gist from before.
pub open spec fn prior_view(prior: Option<&GistRecord>) -> Option<RecordView> {
    match prior {
        Some(rec) => Some(rec@),
        None => None,
    }
}

/// Whether `name` is one of `names`.
fn has_name(names: &Vec<String>, name: &str) -> (r: bool)
    ensures
        r == string_views(names@).contains(name@),
{
    let ghost all = string_views(names@);
    let mut i: usize = 0;
    while i < names.len()
        invariant
            i <= names@.len(),
            all == string_views(names@),
            forall|k: int| 0 <= k < i ==> all[k] != name@,
        decreases names@.len() - i,
    {
        assert(all[i as int] == names@[i as int]@);
        if same(names[i].as_str(), name) {
            return true;
        }
        i += 1;
    }
    false
}

/// The names of a gist's files.
struct FileNames {
    /// Those of all files.
    all: Vec<String>,
    /// Those to record.
    recorded: Vec<String>,
    /// The number of files written.
    written: usize,
}

/// Appends how the files of `gist` are downloaded.
fn plan_downloads(
    steps: &mut Vec<Step>,
    folder: &str,
    gist: &Gist,
    prior: Option<&GistRecord>,
    dry_run: bool,
) -> (r: FileNames)
    ensures
        step_views(final(steps)@) == step_views(old(steps)@) + if dry_run {
            seq![]
        } else {
            download_steps(folder@, gist.file_list())
        },
        string_views(r.all@) == file_names(gist.file_list()),
        string_views(r.recorded@) == recorded_names(gist.file_list(), prior_view(prior)),
        r.written == written_names(gist.file_list()).len(),
{
    let mut names: Vec<String> = Vec::new();
    let mut recorded: Vec<String> = Vec::new();
    let mut written: usize = 0;
    let ghost before = prior_view(prior);
    let ghost f = |f: GistFile|
        match f.raw_url {
            Some(_) => Some(f.filename@),
            None => None,
        };
    let ghost g = |f: GistFile|
        if f.raw_url is Some || was_written(before, f.filename@) {
            Some(f.filename@)
        } else {
            None
        };
    let ghost files = gist.file_list();
    let ghost start = step_views(steps@);
    let n: usize = gist.files.len();
    let mut i: usize = 0;
    assert(files.take(0) == Seq::<GistFile>::empty());
    assert(files.take(0).filter_map(f).len() == 0);
    assert(files.take(0).filter_map(g) =~= string_views(recorded@));
    while i < n
        invariant
            i <= n == gist.files@.len() == files.len(),
            files == gist.file_list(),
            before == prior_view(prior),
            f == (|f: GistFile|
                match f.raw_url {
                    Some(_) => Some(f.filename@),
                    None => None,
                }),
            g == (|f: GistFile|
                if f.raw_url is Some || was_written(before, f.filename@) {
                    Some(f.filename@)
                } else {
                    None
                }),
            string_views(recorded@) == files.take(i as int).filter_map(g),
            written == files.take(i as int).filter_map(f).len(),
            written <= i,
            string_views(names@) == file_names(files.take(i as int)),
            step_views(steps@) == start + if dry_run {
                seq![]
            } else {
                download_steps(folder@, files.take(i as int))
            },
        decreases n - i,
    {
        let (_, file) = gist.files.entry(i);
        proof {
            assert(files[i as int] == *file);
            assert(files.take(i + 1).drop_last() == files.take(i as int));
            assert(files.take(i + 1).last() == *file);
            files.lemma_filter_map_take_succ(f, i as int);
            files.lemma_filter_map_take_succ(g, i as int);
        }
        let ghost names0 = string_views(names@);
        names.push(file.filename.clone());
        assert(string_views(names@) == names0.push(file.filename@));
        assert(string_views(names@) == file_names(files.take(i + 1)));
        let ghost steps0 = step_views(steps@);
        if let Some(raw_url) = &file.raw_url {
            if !dry_run {
                steps.push(
                    Step::Fetch { url: raw_url.clone(), filename: file.filename.clone() },
                );
                let next = match safe_file_path(folder, file.filename.as_str()) {
                    Ok(path) => Step::WriteFetched { path },
                    Err(e) => Step::Refuse { filename: e.filename },
                };
                steps.push(next);
                assert(step_views(steps@) == steps0 + file_steps(folder@, *file));
            }
            written += 1;
        } else {
            assert(steps0 + file_steps(folder@, *file) == steps0);
        }
        let known = match prior {
            Some(prev) => has_name(&prev.files, file.filename.as_str()),
            None => false,
        };
        if file.raw_url.is_some() || known {
            let ghost recorded0 = string_views(recorded@);
            recorded.push(file.filename.clone());
            assert(string_views(recorded@) == recorded0 + seq![file.filename@]);
        }
        assert(!dry_run ==> step_views(steps@) == start + download_steps(
            folder@,
            files.take(i + 1),
        ));
        i += 1;
    }
    assert(files.take(i as int) == files);
    FileNames { all: names, recorded, written }
}

/// Appends how the old files that are not among `names` any more are removed.
fn plan_removals(steps: &mut Vec<Step>, folder: &str, old_files: &Vec<String>, names: &Vec<String>)
    ensures
        step_views(final(steps)@) == step_views(old(steps)@) + string_views(
            old_files@,
        ).filter_map(|old: Seq<char>| removal_step(folder@, old, string_views(names@))),
{
    let ghost f = |old: Seq<char>| removal_step(folder@, old, string_views(names@));
    let ghost all = string_views(old_files@);
    let ghost start = step_views(steps@);
    let mut i: usize = 0;
    assert(all.take(0).filter_map(f) =~= Seq::<StepView>::empty());
    while i < old_files.len()
        invariant
            f == (|old: Seq<char>| removal_step(folder@, old, string_views(names@))),
            i <= old_files@.len(),
            all == string_views(old_files@),
            step_views(steps@) == start + all.take(i as int).filter_map(f),
        decreases old_files@.len() - i,
    {
        let old_file = old_files[i].as_str();
        proof {
            all.lemma_filter_map_take_succ(f, i as int);
            assert(all[i as int] == old_file@);
        }
        let ghost before = step_views(steps@);
        if !has_name(names, old_file) {
            if let Ok(path) = safe_file_path(folder, old_file) {
                steps.push(Step::RemoveFile { path });
                assert(step_views(steps@) == before + seq![f(old_file@)->0]);
            }
        }
        assert(step_views(steps@) == start + all.take(i + 1).filter_map(f));
        i += 1;
    }
    assert(all.take(i as int) == all);
}

/// Whether `plan` is that of downloading `gist`.
pub open spec fn is_plan_for(
    gist: Gist,
    prior: Option<RecordView>,
    dry_run: bool,
    plan: GistPlan,
) -> bool {
    &&& step_views(plan.steps@) == gist_steps(gist, prior, dry_run)
    &&& plan.record@ == record_of(gist, prior)
    &&& plan.written == written_names(gist.file_list()).len()
}

/// Plans the download of a single gist: its new [`GistRecord`], and the number
/// of files written (or that would be written, in dry-run mode).
pub fn process_gist(gist: &Gist, prior: Option<&GistRecord>, dry_run: bool) -> (r: GistPlan)
    ensures
        step_views(r.steps@) == gist_steps(*gist, prior_view(prior), dry_run),
        r.record@ == record_of(*gist, prior_view(prior)),
        r.written == written_names(gist.file_list()).len(),
        is_plan_for(*gist, prior_view(prior), dry_run, r),
{
    let folder = folder_name(gist);
    let mut steps: Vec<Step> = Vec::new();
    assert(step_views(steps@) == Seq::<StepView>::empty());
    if !dry_run {
        if let Some(prev) = prior {
            if !same(prev.folder.as_str(), folder.as_str()) {
                steps.push(Step::MoveFolder { from: prev.folder.clone(), to: folder.clone() });
            }
        }
        assert(step_views(steps@) == move_steps(folder@, prior_view(prior)));
        steps.push(Step::CreateDir { path: folder.clone() });
        assert(step_views(steps@) == move_steps(folder@, prior_view(prior)) + seq![
            StepView::CreateDir { path: folder@ },
        ]);
    }
    let names = plan_downloads(&mut steps, folder.as_str(), gist, prior, dry_run);
    if !dry_run {
        if let Some(prev) = prior {
            plan_removals(&mut steps, folder.as_str(), &prev.files, &names.all);
        }
        let ghost before = step_views(steps@);
        steps.push(
            Step::WriteMeta { path: join(folder.as_str(), META_FILE), bytes: write_meta(gist) },
        );
        assert(step_views(steps@) == before + seq![meta_step(folder@, *gist)]);
    }
    assert(step_views(steps@) == gist_steps(*gist, prior_view(prior), dry_run));
    let record = GistRecord {
        updated_at: gist.updated_at.clone(),
        folder,
        files: names.recorded,
    };
    GistPlan { steps, record, written: names.written }
}

impl Step {
    /// The error when a step of a gist fails for `cause`, or `None` where that
    /// is no reason to give up on the gist.
    pub open spec fn error(self, output: Seq<char>, cause: Seq<char>) -> Option<Seq<char>> {
        match self {
            Step::MoveFolder { .. } => None,
            Step::RemoveFile { .. } => None,
            Step::CreateDir { path } => Some(
                "creating "@ + path_join(output, path@) + ": "@ + cause,
            ),
            Step::Fetch { filename, .. } => Some("downloading "@ + filename@ + ": "@ + cause),
            Step::WriteFetched { path } => Some(
                "writing "@ + path_join(output, path@) + ": "@ + cause,
            ),
            Step::WriteMeta { path, .. } => Some(
                "writing "@ + path_join(output, path@) + ": "@ + cause,
            ),
            Step::Refuse { .. } => Some(cause),
        }
    }

    /// What to report when the step fails for `cause`, or `None` where that is
    /// no reason to give up on the gist. `output` is the output dir.
    pub fn failure(&self, output: &str, cause: &str) -> (r: Option<String>)
        ensures
            match r {
                Some(text) => self.error(output@, cause@) == Some(text@),
                None => self.error(output@, cause@) is None,
            },
    {
        let (doing, what): (&str, String) = match self {
            Step::MoveFolder { .. } => return None,
            Step::RemoveFile { .. } => return None,
            Step::CreateDir { path } => ("creating ", join(output, path.as_str())),
            Step::Fetch { filename, .. } => ("downloading ", filename.clone()),
            Step::WriteFetched { path } => ("writing ", join(output, path.as_str())),
            Step::WriteMeta { path, .. } => ("writing ", join(output, path.as_str())),
            Step::Refuse { .. } => return Some(cause.to_string()),
        };
        let mut out = doing.to_string();
        out.append(what.as_str());
        out.append(": ");
        out.append(cause);
        Some(out)
    }
}

/// Whether `path` is `folder` with one name behind it.
pub open spec fn is_file_in(folder: Seq<char>, path: Seq<char>) -> bool {
    exists|name: Seq<char>|
        #![trigger is_name(name)]
        is_name(name) && !name.contains('/') && path == folder + seq!['/'] + name
}

/// Whether `step` writes and removes only files right inside `folder`.
pub open spec fn stays_in(folder: Seq<char>, step: StepView) -> bool {
    match step {
        StepView::MoveFolder { to, .. } => to == folder,
        StepView::CreateDir { path } => path == folder,
        StepView::WriteFetched { path } => is_file_in(folder, path),
        StepView::RemoveFile { path } => is_file_in(folder, path),
        StepView::WriteMeta { path, .. } => is_file_in(folder, path),
        _ => true,
    }
}

proof fn lemma_safe_path(folder: Seq<char>, filename: Seq<char>)
    requires
        is_name(folder),
        !folder.contains('/'),
        last_name(filename) is Some,
    ensures
        is_file_in(folder, path_join(folder, last_name(filename)->0)),
{
    law_safe_path_stays_in_the_directory(folder, filename);
    assert(folder.contains(folder[folder.len() - 1]));
    assert(is_name(last_name(filename)->0));
}

proof fn lemma_downloads_stay(folder: Seq<char>, files: Seq<GistFile>)
    requires
        is_name(folder),
        !folder.contains('/'),
    ensures
        forall|i: int|
            0 <= i < download_steps(folder, files).len() ==> stays_in(
                folder,
                #[trigger] download_steps(folder, files)[i],
            ),
    decreases files.len(),
{
    if files.len() > 0 {
        lemma_downloads_stay(folder, files.drop_last());
        let last = file_steps(folder, files.last());
        if last_name(files.last().filename@) is Some {
            lemma_safe_path(folder, files.last().filename@);
        }
        assert forall|i: int| 0 <= i < last.len() implies stays_in(folder, #[trigger] last[i]) by {}
        let init = download_steps(folder, files.drop_last());
        let all = download_steps(folder, files);
        assert forall|i: int| 0 <= i < all.len() implies stays_in(folder, #[trigger] all[i]) by {
            if i < init.len() {
                assert(all[i] == init[i]);
            } else {
                assert(all[i] == last[i - init.len()]);
            }
        }
    }
}

proof fn lemma_removals_stay(
    folder: Seq<char>,
    prior: Option<RecordView>,
    names: Seq<Seq<char>>,
)
    requires
        is_name(folder),
        !folder.contains('/'),
    ensures
        forall|i: int|
            0 <= i < removal_steps(folder, prior, names).len() ==> stays_in(
                folder,
                #[trigger] removal_steps(folder, prior, names)[i],
            ),
{
    if let Some(prev) = prior {
        let f = |old: Seq<char>| removal_step(folder, old, names);
        let steps = removal_steps(folder, prior, names);
        assert forall|i: int| 0 <= i < steps.len() implies stays_in(
            folder,
            #[trigger] steps[i],
        ) by {
            assert(steps.contains(steps[i]));
            prev.files.lemma_filter_map_contains(f, steps[i]);
            let o = choose|o: Seq<char>| #[trigger]
                prev.files.contains(o) && f(o) == Some(steps[i]);
            lemma_safe_path(folder, o);
        }
    }
}

/// Downloading a gist touches nothing but its own folder, and in it only files
/// right inside, whatever the names of its files are. Ids have no slash.
pub proof fn law_steps_stay_in_the_folder(
    gist: Gist,
    prior: Option<RecordView>,
    dry_run: bool,
    i: int,
)
    requires
        !gist.id@.contains('/'),
        0 <= i < gist_steps(gist, prior, dry_run).len(),
    ensures
        stays_in(folder_of(gist), gist_steps(gist, prior, dry_run)[i]),
{
    let folder = folder_of(gist);
    law_folder_is_a_name(gist);
    lemma_downloads_stay(folder, gist.file_list());
    lemma_removals_stay(folder, prior, file_names(gist.file_list()));
    reveal_strlit(".grass-meta.json");
    reveal_strlit(".");
    reveal_strlit("..");
    assert(META_FILE@.len() == 16);
    assert(is_name(META_FILE@));
    law_flat_name_is_kept(META_FILE@);
    lemma_safe_path(folder, META_FILE@);
    if !dry_run {
        let a = move_steps(folder, prior);
        let b = seq![StepView::CreateDir { path: folder }];
        let c = download_steps(folder, gist.file_list());
        let d = removal_steps(folder, prior, file_names(gist.file_list()));
        let e = seq![meta_step(folder, gist)];
        let s = a + b + c + d + e;
        let n1 = a.len() + b.len();
        let n2 = n1 + c.len();
        let n3 = n2 + d.len();
        if i < a.len() {
            assert(s[i] == a[i]);
        } else if i < n1 {
            assert(s[i] == b[i - a.len()]);
        } else if i < n2 {
            assert(s[i] == c[i - n1]);
        } else if i < n3 {
            assert(s[i] == d[i - n2]);
        } else {
            assert(s[i] == e[i - n3]);
        }
    }
}

/// A dry run writes nothing, while it counts what would be written.
pub proof fn law_dry_run_has_no_steps(gist: Gist, prior: Option<RecordView>)
    ensures
        gist_steps(gist, prior, true).len() == 0,
{
}

/// The sidecar is what is written last, so a gist that was not downloaded
/// whole does not get a new one.
pub proof fn law_sidecar_is_written_last(gist: Gist, prior: Option<RecordView>)
    ensures
        gist_steps(gist, prior, false).last() == meta_step(folder_of(gist), gist),
{
}

proof fn lemma_file_is_downloaded(folder: Seq<char>, files: Seq<GistFile>, i: int)
    requires
        0 <= i < files.len(),
        files[i].raw_url is Some,
    ensures
        exists|k: int|
            0 <= k < download_steps(folder, files).len() - 1 && #[trigger] download_steps(
                folder,
                files,
            )[k] == file_steps(folder, files[i])[0] && download_steps(folder, files)[k + 1]
                == file_steps(folder, files[i])[1],
    decreases files.len(),
{
    let init = download_steps(folder, files.drop_last());
    let all = download_steps(folder, files);
    if i == files.len() - 1 {
        let k = init.len() as int;
        assert(all[k] == file_steps(folder, files[i])[0]);
        assert(all[k + 1] == file_steps(folder, files[i])[1]);
    } else {
        lemma_file_is_downloaded(folder, files.drop_last(), i);
        let k = choose|k: int|
            0 <= k < init.len() - 1 && #[trigger] init[k] == file_steps(folder, files[i])[0]
                && init[k + 1] == file_steps(folder, files[i])[1];
        assert(all[k] == init[k]);
        assert(all[k + 1] == init[k + 1]);
    }
}

/// Every file that has a URL is fetched from it, and what was fetched is then
/// written under the file's name.
pub proof fn law_every_file_is_fetched_and_written(gist: Gist, prior: Option<RecordView>, i: int)
    requires
        0 <= i < gist.file_list().len(),
        gist.file_list()[i].raw_url is Some,
        last_name(gist.file_list()[i].filename@) is Some,
    ensures
        exists|k: int|
            0 <= k < gist_steps(gist, prior, false).len() - 1 && #[trigger] gist_steps(
                gist,
                prior,
                false,
            )[k] == (StepView::Fetch {
                url: (gist.file_list()[i].raw_url->0)@,
                filename: gist.file_list()[i].filename@,
            }) && gist_steps(gist, prior, false)[k + 1] == (StepView::WriteFetched {
                path: path_join(folder_of(gist), last_name(gist.file_list()[i].filename@)->0),
            }),
{
    let folder = folder_of(gist);
    let files = gist.file_list();
    let a = move_steps(folder, prior) + seq![StepView::CreateDir { path: folder }];
    let c = download_steps(folder, files);
    lemma_file_is_downloaded(folder, files, i);
    let k = choose|k: int|
        0 <= k < c.len() - 1 && #[trigger] c[k] == file_steps(folder, files[i])[0] && c[k + 1]
            == file_steps(folder, files[i])[1];
    let s = gist_steps(gist, prior, false);
    let n = a.len() as int;
    assert(s[n + k] == c[k]);
    assert(s[n + k + 1] == c[k + 1]);
}

/// A file is recorded if and only if it is part of the gist and was written, now
/// or before, so what is recorded is what is there.
pub proof fn law_record_lists_the_files_written(
    gist: Gist,
    prior: Option<RecordView>,
    name: Seq<char>,
)
    ensures
        record_of(gist, prior).files.contains(name) <==> exists|i: int|
            0 <= i < gist.file_list().len() && (#[trigger] gist.file_list()[i]).filename@ == name
                && (gist.file_list()[i].raw_url is Some || was_written(prior, name)),
{
    let files = gist.file_list();
    let f = |f: GistFile|
        if f.raw_url is Some || was_written(prior, f.filename@) {
            Some(f.filename@)
        } else {
            None
        };
    if files.filter_map(f).contains(name) {
        files.lemma_filter_map_contains(f, name);
        let file = choose|file: GistFile| #[trigger] files.contains(file) && f(file) == Some(name);
        let i = choose|i: int| 0 <= i < files.len() && files[i] == file;
        assert(files[i].filename@ == name);
    }
    if exists|i: int|
        0 <= i < files.len() && (#[trigger] files[i]).filename@ == name && (files[i].raw_url is Some
            || was_written(prior, name)) {
        let i = choose|i: int|
            0 <= i < files.len() && (#[trigger] files[i]).filename@ == name && (
            files[i].raw_url is Some || was_written(prior, name));
        assert(files.contains(files[i]));
        lemma_filter_map_has(files, f, files[i], name);
    }
}

/// Of the first download of a gist, exactly the files that have a URL are
/// recorded.
pub proof fn law_first_record_lists_what_is_written(gist: Gist)
    ensures
        record_of(gist, None).files == written_names(gist.file_list()),
{
    let files = gist.file_list();
    let f = |f: GistFile|
        match f.raw_url {
            Some(_) => Some(f.filename@),
            None => None,
        };
    let g = |f: GistFile|
        if f.raw_url is Some || was_written(None, f.filename@) {
            Some(f.filename@)
        } else {
            None
        };
    lemma_same_filter_map(files, f, g);
}

proof fn lemma_same_filter_map(
    files: Seq<GistFile>,
    f: spec_fn(GistFile) -> Option<Seq<char>>,
    g: spec_fn(GistFile) -> Option<Seq<char>>,
)
    requires
        forall|file: GistFile| #[trigger] f(file) == g(file),
    ensures
        files.filter_map(f) == files.filter_map(g),
{
    assert(f =~= g);
}

/// If the folder of a gist is another one than before, the old one is moved
/// before anything else is done.
pub proof fn law_folder_is_moved_first(gist: Gist, prior: RecordView)
    requires
        prior.folder != folder_of(gist),
    ensures
        gist_steps(gist, Some(prior), false)[0] == (StepView::MoveFolder {
            from: prior.folder,
            to: folder_of(gist),
        }),
{
}

/// A file that is no longer part of the gist is removed.
pub proof fn law_gone_files_are_removed(gist: Gist, prior: RecordView, old_name: Seq<char>)
    requires
        prior.files.contains(old_name),
        !file_names(gist.file_list()).contains(old_name),
        last_name(old_name) is Some,
    ensures
        gist_steps(gist, Some(prior), false).contains(
            StepView::RemoveFile { path: path_join(folder_of(gist), last_name(old_name)->0) },
        ),
{
    let folder = folder_of(gist);
    let names = file_names(gist.file_list());
    let f = |old: Seq<char>| removal_step(folder, old, names);
    let step = StepView::RemoveFile { path: path_join(folder, last_name(old_name)->0) };
    lemma_filter_map_has(prior.files, f, old_name, step);
    let d = removal_steps(folder, Some(prior), names);
    let k = choose|k: int| 0 <= k < d.len() && d[k] == step;
    let front = move_steps(folder, Some(prior)) + seq![StepView::CreateDir { path: folder }]
        + download_steps(folder, gist.file_list());
    assert(gist_steps(gist, Some(prior), false)[front.len() + k] == step);
}

/// What is known of a gist after its `versions` were downloaded one after the
/// other.
pub open spec fn record_after(versions: Seq<Gist>) -> Option<RecordView>
    decreases versions.len(),
{
    if versions.len() == 0 {
        None
    } else {
        Some(record_of(versions.last(), record_after(versions.drop_last())))
    }
}

/// Whether a file of that name is part of the gist.
pub open spec fn has_file(gist: Gist, name: Seq<char>) -> bool {
    file_names(gist.file_list()).contains(name)
}

proof fn lemma_kept_file_is_recorded(gist: Gist, prior: Option<RecordView>, name: Seq<char>)
    requires
        has_file(gist, name),
        was_written(prior, name) || written_names(gist.file_list()).contains(name),
    ensures
        record_of(gist, prior).files.contains(name),
{
    let files = gist.file_list();
    law_record_lists_the_files_written(gist, prior, name);
    if was_written(prior, name) {
        let i = choose|i: int|
            0 <= i < file_names(files).len() && file_names(files)[i] == name;
        assert(files[i].filename@ == name);
    } else {
        law_record_lists_the_files_written(gist, None, name);
        law_first_record_lists_what_is_written(gist);
        assert(record_of(gist, None).files.contains(name));
    }
}

/// From one download of a gist to the next: what was written, then or before,
/// and is gone from the gist is removed. That goes for the first download of
/// the two as for the second.
pub proof fn law_next_download_removes_what_is_gone(
    first: Gist,
    prior: Option<RecordView>,
    second: Gist,
    name: Seq<char>,
)
    requires
        was_written(prior, name) || written_names(first.file_list()).contains(name),
        !has_file(second, name),
        last_name(name) is Some,
    ensures
        has_file(first, name) ==> gist_steps(
            second,
            Some(record_of(first, prior)),
            false,
        ).contains(
            StepView::RemoveFile { path: path_join(folder_of(second), last_name(name)->0) },
        ),
        !has_file(first, name) ==> gist_steps(first, prior, false).contains(
            StepView::RemoveFile { path: path_join(folder_of(first), last_name(name)->0) },
        ),
{
    if has_file(first, name) {
        lemma_kept_file_is_recorded(first, prior, name);
        law_gone_files_are_removed(second, record_of(first, prior), name);
    } else {
        law_first_record_lists_what_is_written(first);
        law_record_lists_the_files_written(first, None, name);
        if written_names(first.file_list()).contains(name) {
            let files = first.file_list();
            let i = choose|i: int|
                0 <= i < files.len() && (#[trigger] files[i]).filename@ == name && (
                files[i].raw_url is Some || was_written(None, name));
            assert(file_names(files)[i] == name);
        }
        law_gone_files_are_removed(first, prior->0, name);
    }
}

/// A file that was written once is removed when it leaves the gist, however
/// many downloads are in between and whether or not it still had a URL in them:
/// written by the download of version `from`, part of each version up to `to`,
/// and gone from that one.
pub proof fn law_written_file_is_removed_when_it_is_gone(
    versions: Seq<Gist>,
    from: int,
    to: int,
    name: Seq<char>,
)
    requires
        0 <= from < to < versions.len(),
        written_names(versions[from].file_list()).contains(name),
        forall|k: int| from <= k < to ==> has_file(#[trigger] versions[k], name),
        !has_file(versions[to], name),
        last_name(name) is Some,
    ensures
        gist_steps(versions[to], record_after(versions.take(to)), false).contains(
            StepView::RemoveFile { path: path_join(folder_of(versions[to]), last_name(name)->0) },
        ),
{
    lemma_stays_recorded(versions, from, to - 1, name);
    law_gone_files_are_removed(versions[to], record_after(versions.take(to))->0, name);
}

proof fn lemma_stays_recorded(versions: Seq<Gist>, from: int, k: int, name: Seq<char>)
    requires
        0 <= from <= k < versions.len(),
        written_names(versions[from].file_list()).contains(name),
        forall|i: int| from <= i <= k ==> has_file(#[trigger] versions[i], name),
    ensures
        was_written(record_after(versions.take(k + 1)), name),
    decreases k,
{
    let done = versions.take(k + 1);
    assert(done.drop_last() == versions.take(k));
    assert(done.last() == versions[k]);
    if k > from {
        lemma_stays_recorded(versions, from, k - 1, name);
    }
    assert(has_file(versions[k], name));
    lemma_kept_file_is_recorded(versions[k], record_after(versions.take(k)), name);
}

/// Removing what is gone from a gist spares the files that are written, where
/// the names are flat, as those of gists are.
pub proof fn law_removal_spares_current_files(
    folder: Seq<char>,
    names: Seq<Seq<char>>,
    old_name: Seq<char>,
    name: Seq<char>,
)
    requires
        is_name(old_name),
        !old_name.contains('/'),
        is_name(name),
        !name.contains('/'),
        names.contains(name),
        removal_step(folder, old_name, names) is Some,
    ensures
        removal_step(folder, old_name, names) != Some(
            StepView::RemoveFile { path: path_join(folder, last_name(name)->0) },
        ),
{
    law_flat_name_is_kept(old_name);
    law_flat_name_is_kept(name);
    assert(old_name != name);
    let a = path_join(folder, old_name);
    let b = path_join(folder, name);
    if old_name[0] == '/' {
        assert(old_name.contains(old_name[0]));
    }
    if name[0] == '/' {
        assert(name.contains(name[0]));
    }
    if a == b {
        assert(a.skip(a.len() - old_name.len()) == old_name);
        assert(b.skip(b.len() - name.len()) == name);
    }
}

/// A folder is moved where it is there and would take the place of nothing.
pub proof fn law_moving_overwrites_nothing(old_exists: bool, new_exists: bool)
    ensures
        is_moved(old_exists, new_exists) ==> old_exists && !new_exists,
        old_exists ==> is_moved(old_exists, new_exists) != new_exists,
{
}

/// What is recorded of a gist is where it was downloaded to: the folder that is
/// made for it, and that the next download moves where it goes elsewhere.
pub proof fn law_record_says_where_the_gist_is(
    gist: Gist,
    prior: Option<RecordView>,
    later: Gist,
)
    ensures
        gist_steps(gist, prior, false).contains(
            StepView::CreateDir { path: record_of(gist, prior).folder },
        ),
        folder_of(later) != folder_of(gist) ==> gist_steps(
            later,
            Some(record_of(gist, prior)),
            false,
        )[0] == (StepView::MoveFolder { from: folder_of(gist), to: folder_of(later) }),
        folder_of(later) == folder_of(gist) ==> gist_steps(
            later,
            Some(record_of(gist, prior)),
            false,
        )[0] == (StepView::CreateDir { path: folder_of(gist) }),
        record_of(gist, prior).updated_at == gist.updated_at@,
{
    let folder = folder_of(gist);
    let steps = gist_steps(gist, prior, false);
    let n = move_steps(folder, prior).len() as int;
    assert(steps[n] == (StepView::CreateDir { path: folder }));
}

/// A folder that cannot be moved and a file that cannot be removed are no reason to
/// give up on a gist. Anything else is, and the error ends with the cause and says
/// what it is about.
pub proof fn law_error_says_what_failed(step: Step, output: Seq<char>, cause: Seq<char>)
    ensures
        step.error(output, cause) is None <==> step is MoveFolder || step is RemoveFile,
        step.error(output, cause) matches Some(text) ==> cause.is_suffix_of(text),
        step matches Step::Fetch { filename, .. } ==> ("downloading "@ + filename@).is_prefix_of(
            step.error(output, cause)->0,
        ),
        step matches Step::CreateDir { path } ==> ("creating "@ + path_join(
            output,
            path@,
        )).is_prefix_of(step.error(output, cause)->0),
        step matches Step::WriteFetched { path } ==> ("writing "@ + path_join(
            output,
            path@,
        )).is_prefix_of(step.error(output, cause)->0),
        step matches Step::WriteMeta { path, .. } ==> ("writing "@ + path_join(
            output,
            path@,
        )).is_prefix_of(step.error(output, cause)->0),
{
    if let Some(text) = step.error(output, cause) {
        assert(text.skip(text.len() - cause.len()) == cause);
        let p = match step {
            Step::Fetch { filename, .. } => "downloading "@ + filename@,
            Step::CreateDir { path } => "creating "@ + path_join(output, path@),
            Step::WriteFetched { path } => "writing "@ + path_join(output, path@),
            Step::WriteMeta { path, .. } => "writing "@ + path_join(output, path@),
            _ => seq![],
        };
        assert(text.take(p.len() as int) == p);
    }
}

/// What is said of steps is all of them, one by one.
pub proof fn law_steps_are_all_of_them(steps: Seq<Step>, k: int)
    requires
        0 <= k < steps.len(),
    ensures
        step_views(steps).len() == steps.len(),
        match (steps[k], step_views(steps)[k]) {
            (Step::MoveFolder { from, to }, StepView::MoveFolder { from: a, to: b }) => from@ == a
                && to@ == b,
            (Step::CreateDir { path }, StepView::CreateDir { path: a }) => path@ == a,
            (Step::Fetch { url, filename }, StepView::Fetch { url: a, filename: b }) => url@ == a
                && filename@ == b,
            (Step::WriteFetched { path }, StepView::WriteFetched { path: a }) => path@ == a,
            (Step::Refuse { filename }, StepView::Refuse { filename: a }) => filename@ == a,
            (Step::RemoveFile { path }, StepView::RemoveFile { path: a }) => path@ == a,
            (Step::WriteMeta { path, bytes }, StepView::WriteMeta { path: a, bytes: b }) => path@
                == a && bytes@ == b,
            _ => false,
        },
{
}

} // verus!
