use grass::model::{Gist, GistFile};
use grass::search::GistInfo;
use grass::state::{GistRecord, SyncState};
use grass::strmap::StrMap;
use grass::sync::run::{Job, Removal, Stale, SyncRun};
use grass::sync::{
    classify, moves_folder, process_gist, write_meta, Action, NoopReporter, Reporter, Step, Summary,
    SyncOptions, META_FILE,
};
use std::cell::RefCell;
use std::collections::{BTreeMap, HashMap};

/// Files by path, relative to the output dir. A folder is there if a file is.
#[derive(Default)]
struct Disk {
    files: BTreeMap<String, Vec<u8>>,
    folders: Vec<String>,
}

impl Disk {
    fn has_folder(&self, folder: &str) -> bool {
        self.folders.iter().any(|f| f == folder)
    }

    fn read(&self, path: &str) -> Option<&str> {
        self.files.get(path).map(|b| std::str::from_utf8(b).unwrap())
    }

    fn remove_folder(&mut self, folder: &str) -> bool {
        let there = self.has_folder(folder);
        self.folders.retain(|f| f != folder);
        self.files.retain(|p, _| !p.starts_with(&format!("{folder}/")));
        there
    }

    fn rename_folder(&mut self, from: &str, to: &str) {
        let moved: Vec<(String, Vec<u8>)> = self
            .files
            .iter()
            .filter(|(p, _)| p.starts_with(&format!("{from}/")))
            .map(|(p, b)| (format!("{to}{}", &p[from.len()..]), b.clone()))
            .collect();
        self.remove_folder(from);
        self.folders.push(to.to_string());
        self.files.extend(moved);
    }

    /// Carries out the steps for a gist.
    fn carry_out(
        &mut self,
        steps: &[Step],
        contents: &HashMap<String, Vec<u8>>,
        output: &str,
    ) -> Result<(), String> {
        let mut fetched = Vec::new();
        for step in steps {
            let result = match step {
                Step::MoveFolder { from, to } => {
                    if moves_folder(self.has_folder(from), self.has_folder(to)) {
                        self.rename_folder(from, to);
                    }
                    Ok(())
                }
                Step::CreateDir { path } => {
                    if !self.has_folder(path) {
                        self.folders.push(path.clone());
                    }
                    Ok(())
                }
                Step::Fetch { url, .. } => match contents.get(url) {
                    Some(bytes) => {
                        fetched = bytes.clone();
                        Ok(())
                    }
                    None => Err(format!("no content for {url}")),
                },
                Step::WriteFetched { path } => {
                    self.files.insert(path.clone(), fetched.clone());
                    Ok(())
                }
                Step::Refuse { filename } => {
                    Err(format!("refusing unsafe gist filename {filename:?}"))
                }
                Step::RemoveFile { path } => {
                    self.files.remove(path);
                    Ok(())
                }
                Step::WriteMeta { path, bytes } => {
                    self.files.insert(path.clone(), bytes.clone());
                    Ok(())
                }
            };
            if let Err(cause) = result {
                if let Some(error) = step.failure(output, &cause) {
                    return Err(error);
                }
            }
        }
        Ok(())
    }
}

#[derive(Default, Clone)]
struct FakeSource {
    gists: Vec<Gist>,
    contents: HashMap<String, Vec<u8>>,
}

fn make_gist(id: &str, desc: &str, updated: &str, files: &[(&str, &str)]) -> Gist {
    let mut map = StrMap::new();
    for (name, _content) in files {
        let raw_url = format!("https://raw/{id}/{name}");
        map.insert(
            name.to_string(),
            GistFile {
                filename: name.to_string(),
                raw_url: Some(raw_url),
                size: 0,
                content_type: None,
                language: None,
            },
        );
    }
    Gist {
        id: id.to_string(),
        description: Some(desc.to_string()),
        public: true,
        created_at: "2020-01-01T00:00:00Z".to_string(),
        updated_at: updated.to_string(),
        html_url: Some(format!("https://gist.github.com/{id}")),
        files: map,
    }
}

fn source_from(gists: &[Gist], files: &[(&str, &str, &str)]) -> FakeSource {
    let mut contents = HashMap::new();
    for (id, name, content) in files {
        contents.insert(
            format!("https://raw/{id}/{name}"),
            content.as_bytes().to_vec(),
        );
    }
    FakeSource {
        gists: gists.to_vec(),
        contents,
    }
}

fn opts() -> SyncOptions {
    SyncOptions {
        output: "out".to_string(),
        concurrency: 4,
        prune: false,
        dry_run: false,
        force: false,
    }
}

const STATE_PATH: &str = "out/.grass-state.json";

/// A whole sync run against `disk`.
fn run<R: Reporter>(
    source: &FakeSource,
    opts: &SyncOptions,
    disk: &mut Disk,
    reporter: &R,
) -> Summary {
    let state = SyncState::load(disk.files.get(STATE_PATH).map(|b| b.as_slice()));
    let (mut run, jobs) = SyncRun::begin(state, &source.gists, opts, reporter);
    for Job { index, action, prior } in jobs {
        let gist = &source.gists[index];
        let plan = process_gist(gist, prior.as_ref(), opts.dry_run);
        let outcome = disk
            .carry_out(&plan.steps, &source.contents, &opts.output)
            .map(|()| (plan.record, plan.written));
        assert!(run.room_for(action, plan.written));
        run.settle(gist, action, outcome, reporter);
    }
    for stale in run.stale(&source.gists, opts) {
        let removal = if !stale.remove {
            Removal::Planned
        } else if disk.remove_folder(&stale.folder) {
            Removal::Removed
        } else {
            Removal::Missing
        };
        run.settle_removal(&stale, removal);
    }
    if let Some(write) = run.save(opts) {
        disk.files.insert(write.path, write.bytes);
    }
    run.summary
}

#[test]
fn creates_then_skips_on_rerun() {
    let mut disk = Disk::default();
    let gists = vec![
        make_gist("aaa11111", "First", "t1", &[("a.txt", "AAA")]),
        make_gist("bbb22222", "Second", "t1", &[("b.txt", "BBB")]),
    ];
    let source = source_from(
        &gists,
        &[("aaa11111", "a.txt", "AAA"), ("bbb22222", "b.txt", "BBB")],
    );

    let s1 = run(&source, &opts(), &mut disk, &NoopReporter);
    assert_eq!(s1.created, 2);
    assert_eq!(s1.skipped, 0);
    assert_eq!(s1.files_written, 2);

    assert_eq!(disk.read("first-aaa11111/a.txt").unwrap(), "AAA");
    assert!(disk.read(&format!("first-aaa11111/{META_FILE}")).is_some());
    assert!(disk.read(&SyncState::path("out")).is_some());

    // Re-run with identical data: everything is skipped, nothing written.
    let s2 = run(&source, &opts(), &mut disk, &NoopReporter);
    assert_eq!(s2.created, 0);
    assert_eq!(s2.updated, 0);
    assert_eq!(s2.skipped, 2);
    assert_eq!(s2.files_written, 0);
}

#[test]
fn updates_changed_gist() {
    let mut disk = Disk::default();
    let g1 = vec![make_gist("aaa11111", "First", "t1", &[("a.txt", "AAA")])];
    let src1 = source_from(&g1, &[("aaa11111", "a.txt", "AAA")]);
    run(&src1, &opts(), &mut disk, &NoopReporter);

    // New revision: updated_at changes and content changes.
    let g2 = vec![make_gist("aaa11111", "First", "t2", &[("a.txt", "AAA2")])];
    let src2 = source_from(&g2, &[("aaa11111", "a.txt", "AAA2")]);
    let s = run(&src2, &opts(), &mut disk, &NoopReporter);
    assert_eq!(s.updated, 1);
    assert_eq!(s.created, 0);

    assert_eq!(disk.read("first-aaa11111/a.txt").unwrap(), "AAA2");
}

#[test]
fn removes_deleted_file_within_gist() {
    let mut disk = Disk::default();
    let g1 = vec![make_gist(
        "aaa11111",
        "First",
        "t1",
        &[("a.txt", "A"), ("b.txt", "B")],
    )];
    let src1 = source_from(
        &g1,
        &[("aaa11111", "a.txt", "A"), ("aaa11111", "b.txt", "B")],
    );
    run(&src1, &opts(), &mut disk, &NoopReporter);
    assert!(disk.read("first-aaa11111/b.txt").is_some());

    // b.txt removed from the gist in a new revision.
    let g2 = vec![make_gist("aaa11111", "First", "t2", &[("a.txt", "A")])];
    let src2 = source_from(&g2, &[("aaa11111", "a.txt", "A")]);
    run(&src2, &opts(), &mut disk, &NoopReporter);
    assert!(disk.read("first-aaa11111/a.txt").is_some());
    assert!(disk.read("first-aaa11111/b.txt").is_none());
}

#[test]
fn renames_folder_when_description_changes() {
    let mut disk = Disk::default();
    let g1 = vec![make_gist("aaa11111", "Old Name", "t1", &[("a.txt", "A")])];
    let src1 = source_from(&g1, &[("aaa11111", "a.txt", "A")]);
    run(&src1, &opts(), &mut disk, &NoopReporter);
    assert!(disk.has_folder("old-name-aaa11111"));

    let g2 = vec![make_gist("aaa11111", "New Name", "t2", &[("a.txt", "A")])];
    let src2 = source_from(&g2, &[("aaa11111", "a.txt", "A")]);
    run(&src2, &opts(), &mut disk, &NoopReporter);
    assert!(!disk.has_folder("old-name-aaa11111"));
    assert!(disk.read("new-name-aaa11111/a.txt").is_some());
}

#[test]
fn prune_removes_deleted_gist() {
    let mut disk = Disk::default();
    let g1 = vec![
        make_gist("aaa11111", "Keep", "t1", &[("a.txt", "A")]),
        make_gist("bbb22222", "Drop", "t1", &[("b.txt", "B")]),
    ];
    let src1 = source_from(
        &g1,
        &[("aaa11111", "a.txt", "A"), ("bbb22222", "b.txt", "B")],
    );
    run(&src1, &opts(), &mut disk, &NoopReporter);
    assert!(disk.has_folder("drop-bbb22222"));

    // Second gist is gone from GitHub; prune should delete its folder.
    let g2 = vec![make_gist("aaa11111", "Keep", "t1", &[("a.txt", "A")])];
    let src2 = source_from(&g2, &[("aaa11111", "a.txt", "A")]);
    let mut o = opts();
    o.prune = true;
    let s = run(&src2, &o, &mut disk, &NoopReporter);
    assert_eq!(s.pruned, 1);
    assert!(!disk.has_folder("drop-bbb22222"));
    assert!(disk.has_folder("keep-aaa11111"));

    let state = SyncState::load(disk.files.get(STATE_PATH).map(|b| b.as_slice()));
    assert!(state.get("bbb22222").is_none());
}

#[test]
fn force_redownloads_unchanged() {
    let mut disk = Disk::default();
    let g = vec![make_gist("aaa11111", "First", "t1", &[("a.txt", "A")])];
    let src = source_from(&g, &[("aaa11111", "a.txt", "A")]);
    run(&src, &opts(), &mut disk, &NoopReporter);

    let mut o = opts();
    o.force = true;
    let s = run(&src, &o, &mut disk, &NoopReporter);
    assert_eq!(s.updated, 1);
    assert_eq!(s.skipped, 0);
}

#[test]
fn dry_run_writes_nothing() {
    let mut disk = Disk::default();
    let g = vec![make_gist("aaa11111", "First", "t1", &[("a.txt", "A")])];
    let src = source_from(&g, &[("aaa11111", "a.txt", "A")]);

    let mut o = opts();
    o.dry_run = true;
    let s = run(&src, &o, &mut disk, &NoopReporter);
    assert_eq!(s.created, 1);
    assert_eq!(s.files_written, 1);
    assert!(!disk.has_folder("first-aaa11111"));
    assert!(disk.read(&SyncState::path("out")).is_none());
}

#[test]
fn pruning_a_dry_run_only_counts() {
    let mut disk = Disk::default();
    let g = vec![make_gist("bbb22222", "Drop", "t1", &[("b.txt", "B")])];
    run(
        &source_from(&g, &[("bbb22222", "b.txt", "B")]),
        &opts(),
        &mut disk,
        &NoopReporter,
    );
    let before = disk.files.clone();
    let mut o = opts();
    o.prune = true;
    o.dry_run = true;
    let s = run(&FakeSource::default(), &o, &mut disk, &NoopReporter);
    assert_eq!(s.pruned, 1);
    assert!(disk.has_folder("drop-bbb22222"));
    assert_eq!(disk.files, before);
    // Without pruning, nothing is forgotten.
    let s = run(&FakeSource::default(), &opts(), &mut disk, &NoopReporter);
    assert_eq!(s.pruned, 0);
    assert_eq!(disk.files, before);
}

#[test]
fn failed_gist_is_collected_and_tried_again() {
    let mut disk = Disk::default();
    let g = vec![
        make_gist("aaa11111", "First", "t1", &[("a.txt", "A")]),
        make_gist("bbb22222", "Second", "t1", &[("b.txt", "B")]),
    ];
    let broken = source_from(&g, &[("bbb22222", "b.txt", "B")]);
    let s = run(&broken, &opts(), &mut disk, &NoopReporter);
    assert_eq!(
        s.errors,
        ["aaa11111: downloading a.txt: no content for https://raw/aaa11111/a.txt"]
    );
    assert_eq!((s.created, s.files_written), (1, 1));
    // The sidecar is only written once the files are there.
    assert!(disk.read(&format!("first-aaa11111/{META_FILE}")).is_none());
    let whole = source_from(
        &g,
        &[("aaa11111", "a.txt", "A"), ("bbb22222", "b.txt", "B")],
    );
    let s = run(&whole, &opts(), &mut disk, &NoopReporter);
    assert_eq!((s.created, s.skipped), (1, 1));
    assert!(s.errors.is_empty());
}

#[test]
fn unsafe_names_are_refused() {
    let mut disk = Disk::default();
    let g = vec![make_gist("aaa11111", "First", "t1", &[("..", "A")])];
    let source = source_from(&g, &[("aaa11111", "..", "A")]);
    let s = run(&source, &opts(), &mut disk, &NoopReporter);
    assert_eq!(
        s.errors,
        ["aaa11111: refusing unsafe gist filename \"..\""]
    );
    // A path is cut down to its last name.
    let g = vec![make_gist("aaa11111", "First", "t1", &[("../../evil.sh", "E")])];
    let source = source_from(&g, &[("aaa11111", "../../evil.sh", "E")]);
    run(&source, &opts(), &mut disk, &NoopReporter);
    assert_eq!(disk.read("first-aaa11111/evil.sh"), Some("E"));
}

#[test]
fn steps_come_in_order() {
    let mut gist = make_gist("aaa11111", "New Name", "t2", &[("a.txt", "A"), ("b.txt", "B")]);
    gist.files.insert(
        "c.txt".to_string(),
        GistFile {
            filename: "c.txt".to_string(),
            raw_url: None,
            size: 0,
            content_type: None,
            language: None,
        },
    );
    let prior = GistRecord {
        updated_at: "t1".to_string(),
        folder: "old-name-aaa11111".to_string(),
        files: vec!["a.txt".to_string(), "gone.txt".to_string(), "..".to_string()],
    };
    let plan = process_gist(&gist, Some(&prior), false);
    let folder = "new-name-aaa11111".to_string();
    let text = |s: &str| s.to_string();
    assert_eq!(
        plan.steps,
        vec![
            Step::MoveFolder { from: text("old-name-aaa11111"), to: folder.clone() },
            Step::CreateDir { path: folder.clone() },
            Step::Fetch { url: text("https://raw/aaa11111/a.txt"), filename: text("a.txt") },
            Step::WriteFetched { path: text("new-name-aaa11111/a.txt") },
            Step::Fetch { url: text("https://raw/aaa11111/b.txt"), filename: text("b.txt") },
            Step::WriteFetched { path: text("new-name-aaa11111/b.txt") },
            Step::RemoveFile { path: text("new-name-aaa11111/gone.txt") },
            Step::WriteMeta {
                path: text("new-name-aaa11111/.grass-meta.json"),
                bytes: write_meta(&gist),
            },
        ]
    );
    assert_eq!(plan.written, 2);
    assert_eq!(
        plan.record,
        GistRecord {
            updated_at: text("t2"),
            folder,
            files: vec![text("a.txt"), text("b.txt")],
        }
    );
    let dry = process_gist(&gist, Some(&prior), true);
    assert!(dry.steps.is_empty());
    assert_eq!(dry.written, 2);
    assert_eq!(dry.record, plan.record);
}

#[test]
fn files_without_a_url_are_not_recorded() {
    let mut gist = make_gist("aaa11111", "First", "t1", &[]);
    gist.files.insert(
        "a.txt".to_string(),
        GistFile {
            filename: "a.txt".to_string(),
            raw_url: None,
            size: 0,
            content_type: None,
            language: None,
        },
    );
    let plan = process_gist(&gist, None, false);
    assert!(plan.record.files.is_empty());
    assert_eq!(plan.written, 0);
    assert_eq!(plan.steps.len(), 2);
    assert_eq!(plan.steps[0], Step::CreateDir { path: "first-aaa11111".to_string() });
    assert!(matches!(plan.steps[1], Step::WriteMeta { .. }));
    // The file is still part of the gist, so a copy from before is kept.
    let prior = GistRecord {
        updated_at: "t0".to_string(),
        folder: "first-aaa11111".to_string(),
        files: vec!["a.txt".to_string()],
    };
    let again = process_gist(&gist, Some(&prior), false);
    assert_eq!(again.steps, plan.steps);
    assert_eq!(again.written, 0);
    assert_eq!(again.record.files, vec!["a.txt".to_string()]);
}

#[test]
fn file_that_lost_its_url_is_removed_when_it_is_gone() {
    let contents = HashMap::from([("https://raw/aaa11111/a.txt".to_string(), b"A".to_vec())]);
    let mut disk = Disk::default();
    // Written first, then without a URL, then gone.
    let first = make_gist("aaa11111", "First", "t1", &[("a.txt", "A")]);
    let mut second = make_gist("aaa11111", "First", "t2", &[("a.txt", "A")]);
    let mut file = second.files.get("a.txt").unwrap().clone();
    file.raw_url = None;
    second.files.insert("a.txt".to_string(), file);
    let third = make_gist("aaa11111", "First", "t3", &[]);

    let mut prior: Option<GistRecord> = None;
    for (gist, there) in [(&first, true), (&second, true), (&third, false)] {
        let plan = process_gist(gist, prior.as_ref(), false);
        disk.carry_out(&plan.steps, &contents, "out").unwrap();
        assert_eq!(disk.read("first-aaa11111/a.txt").is_some(), there);
        assert_eq!(plan.record.files.len(), usize::from(there));
        prior = Some(plan.record);
    }
}

#[test]
fn errors_make_the_exit_status() {
    let mut summary = Summary::default();
    assert_eq!(summary.exit_code(), 0);
    summary.errors.push("x: failed".to_string());
    assert_eq!(summary.exit_code(), 1);
}

#[test]
fn folders_are_only_moved_out_of_the_way_of_nothing() {
    assert!(moves_folder(true, false));
    assert!(!moves_folder(true, true));
    assert!(!moves_folder(false, false));
    assert!(!moves_folder(false, true));
    // The new folder is there already: both stay.
    let mut disk = Disk::default();
    disk.folders = vec!["old-name-aaa11111".to_string(), "new-name-aaa11111".to_string()];
    disk.files.insert("old-name-aaa11111/mine".to_string(), b"M".to_vec());
    let gist = make_gist("aaa11111", "New Name", "t2", &[]);
    let prior = GistRecord {
        updated_at: "t1".to_string(),
        folder: "old-name-aaa11111".to_string(),
        files: vec![],
    };
    let plan = process_gist(&gist, Some(&prior), false);
    disk.carry_out(&plan.steps, &HashMap::new(), "out").unwrap();
    assert_eq!(disk.read("old-name-aaa11111/mine"), Some("M"));
    assert!(disk.read("new-name-aaa11111/mine").is_none());
}

#[test]
fn failures_of_steps_say_where() {
    let text = |s: &str| s.to_string();
    let failure = |step: Step| step.failure("out", "disk full");
    assert_eq!(
        failure(Step::CreateDir { path: text("d") }),
        Some(text("creating out/d: disk full"))
    );
    assert_eq!(
        failure(Step::Fetch { url: text("u"), filename: text("a.txt") }),
        Some(text("downloading a.txt: disk full"))
    );
    assert_eq!(
        failure(Step::WriteFetched { path: text("d/a.txt") }),
        Some(text("writing out/d/a.txt: disk full"))
    );
    assert_eq!(
        failure(Step::WriteMeta { path: text("d/m"), bytes: vec![] }),
        Some(text("writing out/d/m: disk full"))
    );
    assert_eq!(failure(Step::Refuse { filename: text("..") }), Some(text("disk full")));
    assert_eq!(failure(Step::RemoveFile { path: text("d/a") }), None);
    assert_eq!(failure(Step::MoveFolder { from: text("a"), to: text("b") }), None);
}

#[test]
fn sidecar_has_this_form() {
    let mut gist = make_gist("aaa11111", "First \"one\"", "t2", &[("a.txt", "A")]);
    gist.files.insert(
        "b.rs".to_string(),
        GistFile {
            filename: "b.rs".to_string(),
            raw_url: None,
            size: u64::MAX,
            content_type: Some("text/plain".to_string()),
            language: Some("Rust".to_string()),
        },
    );
    let bytes = write_meta(&gist);
    assert_eq!(
        std::str::from_utf8(&bytes).unwrap(),
        r#"{
  "id": "aaa11111",
  "description": "First \"one\"",
  "public": true,
  "html_url": "https://gist.github.com/aaa11111",
  "created_at": "2020-01-01T00:00:00Z",
  "updated_at": "t2",
  "files": [
    {
      "filename": "a.txt",
      "size": 0
    },
    {
      "filename": "b.rs",
      "size": 18446744073709551615,
      "language": "Rust",
      "type": "text/plain"
    }
  ]
}"#
    );
    let info = GistInfo::load(Some(&bytes));
    assert_eq!(info.description.as_deref(), Some("First \"one\""));
    assert_eq!(info.html_url.as_deref(), Some("https://gist.github.com/aaa11111"));
    gist.description = None;
    gist.html_url = None;
    let info = GistInfo::load(Some(&write_meta(&gist)));
    assert_eq!(info.description.as_deref(), Some(""));
    assert_eq!(info.html_url, None);
}

#[test]
fn gists_are_classified() {
    let gist = make_gist("a", "x", "t1", &[]);
    let record = |updated: &str| GistRecord {
        updated_at: updated.to_string(),
        folder: "f".to_string(),
        files: vec![],
    };
    assert_eq!(classify(&gist, None, false), Action::Create);
    assert_eq!(classify(&gist, None, true), Action::Create);
    assert_eq!(classify(&gist, Some(&record("t1")), false), Action::Skip);
    assert_eq!(classify(&gist, Some(&record("t1")), true), Action::Update);
    assert_eq!(classify(&gist, Some(&record("t0")), false), Action::Update);
}

#[derive(Default)]
struct Log(RefCell<Vec<String>>);

impl Reporter for Log {
    fn set_total(&self, total: usize) {
        self.0.borrow_mut().push(format!("total {total}"));
    }

    fn gist_done(&self, action: Action, gist: &Gist) {
        self.0.borrow_mut().push(format!("{action:?} {}", gist.id));
    }
}

#[test]
fn progress_is_reported() {
    let mut disk = Disk::default();
    let g1 = vec![make_gist("bbb22222", "Second", "t1", &[("b.txt", "B")])];
    let src1 = source_from(&g1, &[("bbb22222", "b.txt", "B")]);
    run(&src1, &opts(), &mut disk, &NoopReporter);
    let g2 = vec![
        make_gist("aaa11111", "First", "t1", &[]),
        make_gist("bbb22222", "Second", "t1", &[("b.txt", "B")]),
    ];
    let log = Log::default();
    run(&source_from(&g2, &[]), &opts(), &mut disk, &log);
    log.finish();
    assert_eq!(
        *log.0.borrow(),
        ["total 2", "Skip bbb22222", "Create aaa11111"]
    );
}

#[test]
fn stale_folders_that_resist_are_errors() {
    let mut state = SyncState::default();
    for id in ["b", "a", "c"] {
        state.insert(
            id.to_string(),
            GistRecord {
                updated_at: "t".to_string(),
                folder: format!("folder-{id}"),
                files: vec![],
            },
        );
    }
    let gists = vec![make_gist("b", "x", "t", &[])];
    let mut o = opts();
    o.prune = true;
    let (mut run, jobs) = SyncRun::begin(state, &gists, &o, &NoopReporter);
    assert!(jobs.is_empty());
    let stale = run.stale(&gists, &o);
    let expected = |id: &str| Stale {
        id: id.to_string(),
        folder: format!("folder-{id}"),
        remove: true,
    };
    assert_eq!(stale, vec![expected("a"), expected("c")]);
    run.settle_removal(&stale[0], Removal::Missing);
    run.settle_removal(&stale[1], Removal::Failed("busy".to_string()));
    assert_eq!(run.summary.pruned, 1);
    assert_eq!(run.summary.errors, ["pruning folder-c: busy"]);
    assert!(run.state.get("a").is_none());
    assert!(run.state.get("b").is_some());
    assert!(run.state.get("c").is_some());
}

#[test]
fn at_least_one_gist_is_downloaded_at_a_time() {
    let mut o = opts();
    assert_eq!(o.workers(), 4);
    o.concurrency = 0;
    assert_eq!(o.workers(), 1);
}

fn record_for(gist: &Gist) -> GistRecord {
    process_gist(gist, None, true).record
}

#[test]
fn every_gist_is_counted_once() {
    let mut state = SyncState::default();
    let gists: Vec<Gist> = (0..6)
        .map(|i| make_gist(&format!("id{i}"), "x", "t2", &[("a", "A"), ("b", "B")]))
        .collect();
    // Two gists are unchanged and two have changed.
    for (i, updated) in [(0, "t2"), (1, "t1"), (3, "t2"), (5, "t1")] {
        let mut record = record_for(&gists[i]);
        record.updated_at = updated.to_string();
        state.insert(format!("id{i}"), record);
    }
    let (mut run, jobs) = SyncRun::begin(state, &gists, &opts(), &NoopReporter);
    let planned: Vec<(usize, Action)> = jobs.iter().map(|j| (j.index, j.action)).collect();
    assert_eq!(
        planned,
        [
            (1, Action::Update),
            (2, Action::Create),
            (4, Action::Create),
            (5, Action::Update)
        ]
    );
    for job in jobs {
        let gist = &gists[job.index];
        let outcome = if job.index == 4 {
            Err("offline".to_string())
        } else {
            Ok((record_for(gist), 2))
        };
        run.settle(gist, job.action, outcome, &NoopReporter);
    }
    let s = &run.summary;
    assert_eq!((s.created, s.updated, s.skipped), (1, 2, 2));
    assert_eq!(s.errors, ["id4: offline"]);
    assert_eq!(s.created + s.updated + s.skipped + s.errors.len(), gists.len());
    assert_eq!(s.files_written, 6);
}

#[test]
fn order_of_downloads_is_irrelevant() {
    let gists = vec![
        make_gist("a", "x", "t", &[("f", "F")]),
        make_gist("b", "y", "t", &[("g", "G")]),
        make_gist("c", "z", "t", &[]),
    ];
    let settle = |order: [usize; 3]| {
        let (mut run, _) =
            SyncRun::begin(SyncState::default(), &gists, &opts(), &NoopReporter);
        for i in order {
            let outcome = if i == 2 {
                Err("offline".to_string())
            } else {
                Ok((record_for(&gists[i]), 1))
            };
            run.settle(&gists[i], Action::Create, outcome, &NoopReporter);
        }
        run
    };
    let first = settle([0, 1, 2]);
    for order in [[1, 0, 2], [2, 1, 0], [1, 2, 0]] {
        let other = settle(order);
        assert_eq!(other.state, first.state);
        assert_eq!(other.summary, first.summary);
    }
}

#[test]
fn force_skips_nothing() {
    let gists = vec![make_gist("a", "x", "t", &[]), make_gist("b", "y", "t", &[])];
    let mut state = SyncState::default();
    state.insert("a".to_string(), record_for(&gists[0]));
    let mut o = opts();
    o.force = true;
    let (run, jobs) = SyncRun::begin(state, &gists, &o, &NoopReporter);
    assert_eq!(jobs.len(), 2);
    assert_eq!(jobs[0].action, Action::Update);
    assert_eq!(jobs[1].action, Action::Create);
    assert_eq!(run.summary.skipped, 0);
}
