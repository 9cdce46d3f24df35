//! What the steps for a gist leave on disk.
use vstd::prelude::*;

use super::meta::meta_json;
use super::plan::{
    download_steps, file_names, file_steps, gist_steps, is_plan_for,
    law_record_lists_the_files_written, meta_step, move_steps, record_of, removal_step,
    removal_steps, step_views, written_names, GistPlan, StepView,
};
use super::META_FILE;
use crate::json::json_pretty;
use crate::model::{Gist, GistFile};
use crate::naming::{folder_of, law_folder_is_a_name};
use crate::paths::{is_name, last_name, law_flat_name_is_kept, path_join};
use crate::state::RecordView;

verus! {

/// What is in a file.
pub enum Content {
    /// What the URL gave.
    Fetched(Seq<char>),
    /// These bytes.
    Bytes(Seq<u8>),
}

/// Files by path, and the URL that was fetched last.
#[verifier::ext_equal]
pub struct Disk {
    pub files: Map<Seq<char>, Content>,
    pub fetched: Seq<char>,
}

/// The disk after a step. Moving the folder is taken to be done already.
pub open spec fn after_step(disk: Disk, step: StepView) -> Disk {
    match step {
        StepView::Fetch { url, .. } => Disk { fetched: url, ..disk },
        StepView::WriteFetched { path } => Disk {
            files: disk.files.insert(path, Content::Fetched(disk.fetched)),
            ..disk
        },
        StepView::RemoveFile { path } => Disk { files: disk.files.remove(path), ..disk },
        StepView::WriteMeta { path, bytes } => Disk {
            files: disk.files.insert(path, Content::Bytes(bytes)),
            ..disk
        },
        _ => disk,
    }
}

/// The disk after steps, one after the other.
pub open spec fn after_steps(disk: Disk, steps: Seq<StepView>) -> Disk
    decreases steps.len(),
{
    if steps.len() == 0 {
        disk
    } else {
        after_step(after_steps(disk, steps.drop_last()), steps.last())
    }
}

/// Whether `name` is that of a file right inside a folder.
pub open spec fn is_flat(name: Seq<char>) -> bool {
    is_name(name) && !name.contains('/')
}

/// The path of a file right inside `folder`.
pub open spec fn inside(folder: Seq<char>, name: Seq<char>) -> Seq<char> {
    folder + seq!['/'] + name
}

/// What is in the file at `path`, if there is one.
pub open spec fn content(files: Map<Seq<char>, Content>, path: Seq<char>) -> Option<Content> {
    if files.contains_key(path) {
        Some(files[path])
    } else {
        None
    }
}

proof fn lemma_inside(folder: Seq<char>, a: Seq<char>, b: Seq<char>)
    ensures
        inside(folder, a) == inside(folder, b) <==> a == b,
{
    let n = folder.len() as int + 1;
    assert(inside(folder, a).skip(n) == a);
    assert(inside(folder, b).skip(n) == b);
}

proof fn lemma_flat_path(folder: Seq<char>, name: Seq<char>)
    requires
        is_flat(folder),
        is_flat(name),
    ensures
        last_name(name) == Some(name),
        path_join(folder, name) == inside(folder, name),
{
    law_flat_name_is_kept(name);
    assert(folder.contains(folder[folder.len() - 1]));
    assert(name.contains(name[0]));
}

proof fn lemma_after_concat(disk: Disk, a: Seq<StepView>, b: Seq<StepView>)
    ensures
        after_steps(disk, a + b) == after_steps(after_steps(disk, a), b),
    decreases b.len(),
{
    if b.len() == 0 {
        assert(a + b == a);
    } else {
        lemma_after_concat(disk, a, b.drop_last());
        assert((a + b).drop_last() == a + b.drop_last());
    }
}

/// Whether `file` is written, and to `path`.
spec fn goes_to(folder: Seq<char>, file: GistFile, path: Seq<char>) -> bool {
    file.raw_url is Some && inside(folder, file.filename@) == path
}

proof fn lemma_file_on_disk(folder: Seq<char>, file: GistFile, disk: Disk)
    requires
        is_flat(folder),
        is_flat(file.filename@),
    ensures
        after_steps(disk, file_steps(folder, file)).files == if file.raw_url is Some {
            disk.files.insert(
                inside(folder, file.filename@),
                Content::Fetched((file.raw_url->0)@),
            )
        } else {
            disk.files
        },
{
    lemma_flat_path(folder, file.filename@);
    let steps = file_steps(folder, file);
    reveal_with_fuel(after_steps, 3);
    if file.raw_url is Some {
        assert(steps.drop_last().len() == 1);
        assert(steps.drop_last().drop_last().len() == 0);
        assert(steps.drop_last().last() == steps[0]);
    }
}

proof fn lemma_downloads_on_disk(folder: Seq<char>, files: Seq<GistFile>, disk: Disk)
    requires
        is_flat(folder),
        forall|i: int| 0 <= i < files.len() ==> is_flat((#[trigger] files[i]).filename@),
        forall|i: int, j: int|
            0 <= i < j < files.len() ==> (#[trigger] files[i]).filename@ != (
            #[trigger] files[j]).filename@,
    ensures
        ({
            let end = after_steps(disk, download_steps(folder, files)).files;
            &&& forall|i: int|
                0 <= i < files.len() && (#[trigger] files[i]).raw_url is Some ==> content(
                    end,
                    inside(folder, files[i].filename@),
                ) == Some(Content::Fetched((files[i].raw_url->0)@))
            &&& forall|path: Seq<char>|
                (forall|i: int|
                    0 <= i < files.len() ==> !goes_to(folder, #[trigger] files[i], path))
                    ==> #[trigger] content(end, path) == content(disk.files, path)
        }),
    decreases files.len(),
{
    if files.len() > 0 {
        let init = files.drop_last();
        let last = files.last();
        assert(last == files[files.len() - 1]);
        assert forall|i: int| 0 <= i < init.len() implies is_flat(
            (#[trigger] init[i]).filename@,
        ) by {
            assert(init[i] == files[i]);
        }
        lemma_downloads_on_disk(folder, init, disk);
        let before = download_steps(folder, init);
        let mid = after_steps(disk, before);
        lemma_after_concat(disk, before, file_steps(folder, last));
        lemma_file_on_disk(folder, last, mid);
        let end = after_steps(disk, download_steps(folder, files)).files;
        assert forall|i: int|
            0 <= i < files.len() && (#[trigger] files[i]).raw_url is Some implies content(
            end,
            inside(folder, files[i].filename@),
        ) == Some(Content::Fetched((files[i].raw_url->0)@)) by {
            if i < init.len() {
                assert(init[i] == files[i]);
                lemma_inside(folder, files[i].filename@, last.filename@);
            }
        }
        assert forall|path: Seq<char>|
            (forall|i: int|
                0 <= i < files.len() ==> !goes_to(folder, #[trigger] files[i], path)) implies
        #[trigger] content(end, path) == content(disk.files, path) by {
            assert forall|i: int| 0 <= i < init.len() implies !goes_to(
                folder,
                #[trigger] init[i],
                path,
            ) by {
                assert(init[i] == files[i]);
            }
            assert(content(mid.files, path) == content(disk.files, path));
            assert(!goes_to(folder, files[files.len() - 1], path));
        }
    }
}

/// Whether a name of `old` that is not among `names` stands for `path`.
pub open spec fn is_gone(
    folder: Seq<char>,
    old: Seq<Seq<char>>,
    names: Seq<Seq<char>>,
    path: Seq<char>,
) -> bool {
    exists|k: int|
        0 <= k < old.len() && !names.contains(#[trigger] old[k]) && inside(folder, old[k]) == path
}

proof fn lemma_removals_on_disk(
    folder: Seq<char>,
    old: Seq<Seq<char>>,
    names: Seq<Seq<char>>,
    disk: Disk,
    path: Seq<char>,
)
    requires
        is_flat(folder),
        forall|k: int| 0 <= k < old.len() ==> is_flat(#[trigger] old[k]),
    ensures
        content(
            after_steps(
                disk,
                old.filter_map(|o: Seq<char>| removal_step(folder, o, names)),
            ).files,
            path,
        ) == if is_gone(folder, old, names, path) {
            None
        } else {
            content(disk.files, path)
        },
    decreases old.len(),
{
    let f = |o: Seq<char>| removal_step(folder, o, names);
    let steps = old.filter_map(f);
    if old.len() > 0 {
        let init = old.drop_last();
        let last = old.last();
        assert(last == old[old.len() - 1]);
        assert forall|k: int| 0 <= k < init.len() implies is_flat(#[trigger] init[k]) by {
            assert(init[k] == old[k]);
        }
        lemma_removals_on_disk(folder, init, names, disk, path);
        lemma_flat_path(folder, last);
        let before = init.filter_map(f);
        if f(last) is Some {
            assert(steps == before.push(f(last)->0));
            assert(steps.drop_last() == before);
        } else {
            assert(steps == before);
        }
        if is_gone(folder, init, names, path) {
            let k = choose|k: int|
                0 <= k < init.len() && !names.contains(#[trigger] init[k]) && inside(
                    folder,
                    init[k],
                ) == path;
            assert(old[k] == init[k]);
        } else if is_gone(folder, old, names, path) {
            let k = choose|k: int|
                0 <= k < old.len() && !names.contains(#[trigger] old[k]) && inside(folder, old[k])
                    == path;
            if k < init.len() {
                assert(init[k] == old[k]);
            }
            assert(k == old.len() - 1);
        }
    } else {
        assert(steps.len() == 0);
        assert(!is_gone(folder, old, names, path));
    }
}

/// The names that a record lists.
pub open spec fn old_names(prior: Option<RecordView>) -> Seq<Seq<char>> {
    match prior {
        Some(prev) => prev.files,
        None => seq![],
    }
}

/// Whether names of a gist's files, and of those that were there before, are as
/// gists have them: flat, and no two files of one name.
pub open spec fn has_flat_names(gist: Gist, prior: Option<RecordView>) -> bool {
    &&& !gist.id@.contains('/')
    &&& forall|i: int|
        0 <= i < gist.file_list().len() ==> is_flat((#[trigger] gist.file_list()[i]).filename@)
    &&& forall|i: int, j: int|
        0 <= i < j < gist.file_list().len() ==> (#[trigger] gist.file_list()[i]).filename@ != (
        #[trigger] gist.file_list()[j]).filename@
    &&& forall|k: int| 0 <= k < old_names(prior).len() ==> is_flat(#[trigger] old_names(prior)[k])
}

proof fn lemma_meta_name()
    ensures
        is_flat(META_FILE@),
{
    reveal_strlit(".grass-meta.json");
    reveal_strlit(".");
    reveal_strlit("..");
    assert(META_FILE@.len() == 16);
}

/// The disk before the sidecar is written.
proof fn lemma_before_sidecar(gist: Gist, prior: Option<RecordView>, disk: Disk, path: Seq<char>)
    requires
        has_flat_names(gist, prior),
    ensures
        ({
            let folder = folder_of(gist);
            let names = file_names(gist.file_list());
            let down = after_steps(disk, download_steps(folder, gist.file_list())).files;
            let end = after_steps(disk, gist_steps(gist, prior, false)).files;
            content(end, path) == if path == inside(folder, META_FILE@) {
                Some(Content::Bytes(json_pretty(meta_json(gist))))
            } else if is_gone(folder, old_names(prior), names, path) {
                None
            } else {
                content(down, path)
            }
        }),
{
    let folder = folder_of(gist);
    let names = file_names(gist.file_list());
    law_folder_is_a_name(gist);
    lemma_meta_name();
    lemma_flat_path(folder, META_FILE@);
    let m = move_steps(folder, prior);
    let a = m + seq![StepView::CreateDir { path: folder }];
    let c = download_steps(folder, gist.file_list());
    let d = removal_steps(folder, prior, names);
    let e = seq![meta_step(folder, gist)];
    assert(after_steps(disk, a) == disk) by {
        reveal_with_fuel(after_steps, 3);
        assert(a.drop_last() == m);
        assert(m.len() == 1 ==> m.drop_last().len() == 0);
    }
    lemma_after_concat(disk, a, c);
    lemma_after_concat(disk, a + c, d);
    lemma_after_concat(disk, a + c + d, e);
    assert(gist_steps(gist, prior, false) == a + c + d + e);
    let down = after_steps(disk, c);
    let rest = after_steps(down, d);
    lemma_removals_on_disk(folder, old_names(prior), names, down, path);
    if prior is None {
        assert(old_names(prior).filter_map(|o: Seq<char>| removal_step(folder, o, names)).len()
            == 0);
        assert(d.len() == 0);
    }
    assert(e.drop_last().len() == 0);
    assert(after_steps(rest, e) == after_step(after_steps(rest, e.drop_last()), e.last()));
    assert(after_steps(rest, e.drop_last()) == rest);
}

/// Once all steps are taken, each file of the gist that has a URL is there with
/// what its own URL gave, whatever was there before. A gist's file of the name
/// of the sidecar gives way to that.
pub proof fn law_files_of_the_gist_are_on_disk(
    gist: Gist,
    prior: Option<RecordView>,
    disk: Disk,
    i: int,
)
    requires
        has_flat_names(gist, prior),
        0 <= i < gist.file_list().len(),
        gist.file_list()[i].raw_url is Some,
        gist.file_list()[i].filename@ != META_FILE@,
    ensures
        content(
            after_steps(disk, gist_steps(gist, prior, false)).files,
            inside(folder_of(gist), gist.file_list()[i].filename@),
        ) == Some(Content::Fetched((gist.file_list()[i].raw_url->0)@)),
{
    let folder = folder_of(gist);
    let files = gist.file_list();
    let name = files[i].filename@;
    let path = inside(folder, name);
    law_folder_is_a_name(gist);
    lemma_before_sidecar(gist, prior, disk, path);
    lemma_inside(folder, name, META_FILE@);
    lemma_downloads_on_disk(folder, files, disk);
    let names = file_names(files);
    assert(names[i] == name);
    if is_gone(folder, old_names(prior), names, path) {
        let k = choose|k: int|
            0 <= k < old_names(prior).len() && !names.contains(#[trigger] old_names(prior)[k])
                && inside(folder, old_names(prior)[k]) == path;
        lemma_inside(folder, old_names(prior)[k], name);
    }
}

/// Once all steps are taken, what was written before and is no longer part of
/// the gist is gone.
pub proof fn law_gone_files_are_off_the_disk(
    gist: Gist,
    prior: RecordView,
    disk: Disk,
    name: Seq<char>,
)
    requires
        has_flat_names(gist, Some(prior)),
        prior.files.contains(name),
        forall|i: int|
            0 <= i < gist.file_list().len() ==> (#[trigger] gist.file_list()[i]).filename@ != name,
        name != META_FILE@,
    ensures
        content(
            after_steps(disk, gist_steps(gist, Some(prior), false)).files,
            inside(folder_of(gist), name),
        ) is None,
{
    let folder = folder_of(gist);
    let names = file_names(gist.file_list());
    lemma_before_sidecar(gist, Some(prior), disk, inside(folder, name));
    lemma_inside(folder, name, META_FILE@);
    let k = choose|k: int| 0 <= k < prior.files.len() && prior.files[k] == name;
    assert(old_names(Some(prior))[k] == name);
    if names.contains(name) {
        let i = choose|i: int| 0 <= i < names.len() && names[i] == name;
        assert(gist.file_list()[i].filename@ == name);
    }
}

/// Whatever else is on disk stays as it is: other folders, files in the gist's
/// folder that are not its own, and files of the gist that have no URL.
pub proof fn law_other_files_are_left_alone(
    gist: Gist,
    prior: Option<RecordView>,
    disk: Disk,
    path: Seq<char>,
)
    requires
        has_flat_names(gist, prior),
        path != inside(folder_of(gist), META_FILE@),
        forall|i: int|
            0 <= i < gist.file_list().len() && (#[trigger] gist.file_list()[i]).raw_url is Some
                ==> inside(folder_of(gist), gist.file_list()[i].filename@) != path,
        forall|k: int|
            0 <= k < old_names(prior).len() && inside(
                folder_of(gist),
                #[trigger] old_names(prior)[k],
            ) == path ==> exists|i: int|
                0 <= i < gist.file_list().len() && (#[trigger] gist.file_list()[i]).filename@
                    == old_names(prior)[k],
    ensures
        content(after_steps(disk, gist_steps(gist, prior, false)).files, path) == content(
            disk.files,
            path,
        ),
{
    let folder = folder_of(gist);
    let files = gist.file_list();
    let names = file_names(files);
    law_folder_is_a_name(gist);
    lemma_before_sidecar(gist, prior, disk, path);
    lemma_downloads_on_disk(folder, files, disk);
    assert forall|i: int| 0 <= i < files.len() implies !goes_to(
        folder,
        #[trigger] files[i],
        path,
    ) by {}
    assert(content(after_steps(disk, download_steps(folder, files)).files, path) == content(
        disk.files,
        path,
    ));
    if is_gone(folder, old_names(prior), names, path) {
        let k = choose|k: int|
            0 <= k < old_names(prior).len() && !names.contains(#[trigger] old_names(prior)[k])
                && inside(folder, old_names(prior)[k]) == path;
        let i = choose|i: int|
            0 <= i < files.len() && (#[trigger] files[i]).filename@ == old_names(prior)[k];
        assert(names[i] == old_names(prior)[k]);
    }
}

/// The sidecar is there once all steps are taken, and says what is known of the
/// gist.
pub proof fn law_sidecar_is_on_disk(gist: Gist, prior: Option<RecordView>, disk: Disk)
    requires
        has_flat_names(gist, prior),
    ensures
        content(
            after_steps(disk, gist_steps(gist, prior, false)).files,
            inside(folder_of(gist), META_FILE@),
        ) == Some(Content::Bytes(json_pretty(meta_json(gist)))),
{
    lemma_before_sidecar(gist, prior, disk, inside(folder_of(gist), META_FILE@));
}

/// A file is only ever removed because the record lists it and the gist does not
/// have it any more, whatever the names.
pub proof fn law_only_gone_files_are_removed(
    gist: Gist,
    prior: Option<RecordView>,
    dry_run: bool,
    k: int,
)
    requires
        0 <= k < gist_steps(gist, prior, dry_run).len(),
        gist_steps(gist, prior, dry_run)[k] is RemoveFile,
    ensures
        !dry_run,
        prior is Some,
        exists|name: Seq<char>| #[trigger]
            prior->0.files.contains(name) && (forall|i: int|
                0 <= i < gist.file_list().len() ==> (#[trigger] gist.file_list()[i]).filename@
                    != name) && last_name(name) is Some && gist_steps(gist, prior, dry_run)[k] == (
            StepView::RemoveFile { path: path_join(folder_of(gist), last_name(name)->0) }),
{
    let folder = folder_of(gist);
    let files = gist.file_list();
    let names = file_names(files);
    let a = move_steps(folder, prior) + seq![StepView::CreateDir { path: folder }];
    let c = download_steps(folder, files);
    let d = removal_steps(folder, prior, names);
    let s = gist_steps(gist, prior, dry_run);
    lemma_no_removals(folder, files);
    if k < a.len() {
        assert(s[k] == a[k]);
    } else if k < a.len() + c.len() {
        assert(s[k] == c[k - a.len()]);
    } else {
        assert(k < a.len() + c.len() + d.len());
        assert(s[k] == d[k - a.len() - c.len()]);
        let prev = prior->0;
        let f = |o: Seq<char>| removal_step(folder, o, names);
        assert(prev.files.filter_map(f).contains(s[k]));
        prev.files.lemma_filter_map_contains(f, s[k]);
        let name = choose|o: Seq<char>| #[trigger] prev.files.contains(o) && f(o) == Some(s[k]);
        assert(prev.files.contains(name));
        assert forall|i: int| 0 <= i < files.len() implies (#[trigger] files[i]).filename@
            != name by {
            assert(names[i] == files[i].filename@);
        }
    }
}

proof fn lemma_no_removals(folder: Seq<char>, files: Seq<GistFile>)
    ensures
        forall|k: int|
            0 <= k < download_steps(folder, files).len() ==> {
                let step = #[trigger] download_steps(folder, files)[k];
                step is Fetch || step is WriteFetched || step is Refuse
            },
    decreases files.len(),
{
    if files.len() > 0 {
        let init = download_steps(folder, files.drop_last());
        let last = file_steps(folder, files.last());
        lemma_no_removals(folder, files.drop_last());
        assert forall|k: int| 0 <= k < download_steps(folder, files).len() implies {
            let step = #[trigger] download_steps(folder, files)[k];
            step is Fetch || step is WriteFetched || step is Refuse
        } by {
            if k < init.len() {
                assert(download_steps(folder, files)[k] == init[k]);
            } else {
                assert(download_steps(folder, files)[k] == last[k - init.len()]);
            }
        }
    }
}

/// The folder is moved at most once, before all else and only from where the
/// record says it is, and is created before anything is fetched or written.
pub proof fn law_folder_comes_first(gist: Gist, prior: Option<RecordView>)
    ensures
        ({
            let steps = gist_steps(gist, prior, false);
            let folder = folder_of(gist);
            let moves = prior is Some && prior->0.folder != folder;
            &&& steps.len() > 1
            &&& moves ==> steps[0] == (StepView::MoveFolder {
                from: prior->0.folder,
                to: folder,
            })
            &&& steps[if moves {
                1
            } else {
                0int
            }] == (StepView::CreateDir { path: folder })
            &&& forall|k: int|
                (if moves {
                    1int
                } else {
                    0
                }) < k < steps.len() ==> !((#[trigger] steps[k]) is MoveFolder) && !(steps[k]
                    is CreateDir)
        }),
{
    let folder = folder_of(gist);
    let files = gist.file_list();
    let names = file_names(files);
    let a = move_steps(folder, prior) + seq![StepView::CreateDir { path: folder }];
    let c = download_steps(folder, files);
    let d = removal_steps(folder, prior, names);
    let s = gist_steps(gist, prior, false);
    lemma_no_removals(folder, files);
    assert(s[a.len() - 1] == a[a.len() - 1]);
    assert forall|k: int| a.len() <= k < s.len() implies !((#[trigger] s[k]) is MoveFolder) && !(
    s[k] is CreateDir) by {
        if k < a.len() + c.len() {
            assert(s[k] == c[k - a.len()]);
        } else if k < a.len() + c.len() + d.len() {
            assert(s[k] == d[k - a.len() - c.len()]);
            let prev = prior->0;
            let f = |o: Seq<char>| removal_step(folder, o, names);
            assert(prev.files.filter_map(f).contains(s[k]));
            prev.files.lemma_filter_map_contains(f, s[k]);
        }
    }
}

/// How many files `steps` fetch.
pub open spec fn fetch_count(steps: Seq<StepView>) -> nat
    decreases steps.len(),
{
    if steps.len() == 0 {
        0
    } else {
        fetch_count(steps.drop_last()) + if steps.last() is Fetch {
            1nat
        } else {
            0
        }
    }
}

proof fn lemma_fetch_count_concat(a: Seq<StepView>, b: Seq<StepView>)
    ensures
        fetch_count(a + b) == fetch_count(a) + fetch_count(b),
    decreases b.len(),
{
    if b.len() == 0 {
        assert(a + b == a);
    } else {
        lemma_fetch_count_concat(a, b.drop_last());
        assert((a + b).drop_last() == a + b.drop_last());
    }
}

proof fn lemma_no_fetches(steps: Seq<StepView>)
    requires
        forall|k: int| 0 <= k < steps.len() ==> !((#[trigger] steps[k]) is Fetch),
    ensures
        fetch_count(steps) == 0,
    decreases steps.len(),
{
    if steps.len() > 0 {
        let init = steps.drop_last();
        assert forall|k: int| 0 <= k < init.len() implies !((#[trigger] init[k]) is Fetch) by {
            assert(init[k] == steps[k]);
        }
        lemma_no_fetches(init);
        assert(!(steps[steps.len() - 1] is Fetch));
    }
}

/// How many of `files` have a URL.
pub open spec fn url_count(files: Seq<GistFile>) -> nat
    decreases files.len(),
{
    if files.len() == 0 {
        0
    } else {
        url_count(files.drop_last()) + if files.last().raw_url is Some {
            1nat
        } else {
            0
        }
    }
}

proof fn lemma_download_fetches(folder: Seq<char>, files: Seq<GistFile>)
    ensures
        fetch_count(download_steps(folder, files)) == url_count(files),
        written_names(files).len() == url_count(files),
    decreases files.len(),
{
    if files.len() > 0 {
        let init = files.drop_last();
        let last = file_steps(folder, files.last());
        lemma_download_fetches(folder, init);
        lemma_fetch_count_concat(download_steps(folder, init), last);
        reveal_with_fuel(fetch_count, 3);
        if last.len() == 2 {
            assert(last.drop_last().last() == last[0]);
            assert(last.drop_last().drop_last().len() == 0);
        }
    }
}

/// The number of files that are reported as written is the number of files that
/// have a URL, and that many are fetched.
pub proof fn law_written_files_are_the_ones_fetched(gist: Gist, prior: Option<RecordView>)
    ensures
        fetch_count(gist_steps(gist, prior, false)) == url_count(gist.file_list()),
        written_names(gist.file_list()).len() == url_count(gist.file_list()),
{
    let folder = folder_of(gist);
    let files = gist.file_list();
    let names = file_names(files);
    let a = move_steps(folder, prior) + seq![StepView::CreateDir { path: folder }];
    let c = download_steps(folder, files);
    let d = removal_steps(folder, prior, names);
    let e = seq![meta_step(folder, gist)];
    lemma_download_fetches(folder, files);
    lemma_no_fetches(a);
    assert forall|k: int| 0 <= k < d.len() implies !((#[trigger] d[k]) is Fetch) by {
        let prev = prior->0;
        let f = |o: Seq<char>| removal_step(folder, o, names);
        assert(prev.files.filter_map(f).contains(d[k]));
        prev.files.lemma_filter_map_contains(f, d[k]);
    }
    lemma_no_fetches(d);
    lemma_no_fetches(e);
    lemma_fetch_count_concat(a, c);
    lemma_fetch_count_concat(a + c, d);
    lemma_fetch_count_concat(a + c + d, e);
    assert(gist_steps(gist, prior, false) == a + c + d + e);
}

/// A plan fetches as many files as it says are written, none in a dry run, and
/// records what it leaves on disk; in a dry run it says the same of what it would
/// do.
pub proof fn law_plan_says_what_it_does(
    gist: Gist,
    prior: Option<RecordView>,
    plan: GistPlan,
    dry_run: bool,
)
    requires
        is_plan_for(gist, prior, dry_run, plan),
    ensures
        !dry_run ==> fetch_count(step_views(plan.steps@)) == plan.written,
        dry_run ==> plan.steps@.len() == 0,
        plan.written == url_count(gist.file_list()),
        plan.record@ == record_of(gist, prior),
        plan.record.updated_at@ == gist.updated_at@,
        plan.record.folder@ == folder_of(gist),
        forall|i: int|
            0 <= i < gist.file_list().len() && (#[trigger] gist.file_list()[i]).raw_url is Some
                ==> plan.record@.files.contains(gist.file_list()[i].filename@),
{
    law_written_files_are_the_ones_fetched(gist, prior);
    assert(step_views(plan.steps@).len() == plan.steps@.len());
    assert forall|i: int|
        0 <= i < gist.file_list().len() && (
        #[trigger] gist.file_list()[i]).raw_url is Some implies plan.record@.files.contains(
        gist.file_list()[i].filename@,
    ) by {
        law_record_lists_the_files_written(gist, prior, gist.file_list()[i].filename@);
    }
}

proof fn lemma_downloads_remove_nothing(folder: Seq<char>, files: Seq<GistFile>)
    ensures
        forall|k: int|
            0 <= k < download_steps(folder, files).len() ==> !((#[trigger] download_steps(
                folder,
                files,
            )[k]) is RemoveFile),
    decreases files.len(),
{
    if files.len() > 0 {
        let init = download_steps(folder, files.drop_last());
        let last = file_steps(folder, files.last());
        let all = download_steps(folder, files);
        lemma_downloads_remove_nothing(folder, files.drop_last());
        assert forall|k: int| 0 <= k < all.len() implies !((#[trigger] all[k]) is RemoveFile) by {
            if k < init.len() {
                assert(all[k] == init[k]);
            } else {
                assert(all[k] == last[k - init.len()]);
            }
        }
    }
}

/// Nothing is removed before every file of the gist is fetched and written, so a
/// download that fails costs no file.
pub proof fn law_removals_come_after_the_downloads(
    gist: Gist,
    prior: Option<RecordView>,
    dry_run: bool,
    k: int,
    m: int,
)
    requires
        0 <= k < m < gist_steps(gist, prior, dry_run).len(),
        gist_steps(gist, prior, dry_run)[k] is RemoveFile,
    ensures
        gist_steps(gist, prior, dry_run)[m] is RemoveFile || gist_steps(gist, prior, dry_run)[m]
            is WriteMeta,
{
    let folder = folder_of(gist);
    let names = file_names(gist.file_list());
    let a = move_steps(folder, prior) + seq![StepView::CreateDir { path: folder }];
    let c = download_steps(folder, gist.file_list());
    let d = removal_steps(folder, prior, names);
    let e = seq![meta_step(folder, gist)];
    let s = gist_steps(gist, prior, dry_run);
    assert(s == a + c + d + e);
    lemma_downloads_remove_nothing(folder, gist.file_list());
    if k < a.len() {
        assert(s[k] == a[k]);
    } else if k < a.len() + c.len() {
        assert(s[k] == c[k - a.len()]);
    }
    assert(k >= a.len() + c.len());
    if m < a.len() + c.len() + d.len() {
        let i = m - a.len() - c.len();
        assert(s[m] == d[i]);
        let prev = prior->0;
        let f = |o: Seq<char>| removal_step(folder, o, names);
        assert(prev.files.filter_map(f).contains(d[i]));
        prev.files.lemma_filter_map_contains(f, d[i]);
    } else {
        assert(s[m] == e[0]);
    }
}

} // verus!
