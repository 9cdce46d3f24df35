//! Grouping hits by gist folder and file.
use vstd::prelude::*;

use super::hits::{hit_views, Hit, HitView, LineMatch, LineView};
use crate::order::{
    law_sorting_is_stable, law_sorting_keeps_the_items, lemma_sorted_all, lemma_sorted_ascending,
    lemma_sorted_has, lemma_sorted_map, lemma_str_irreflexive, sort_stable, stable_sorted,
    str_less, Keyed,
};
use crate::paths::{is_name, law_names_are_between_the_slashes, path_names};
use crate::strmap::{keys_ascend, lemma_pairs_map, lemma_pairs_unique, pairs_map, StrMap};
use crate::text::{
    is_white_space, join_from, joined, law_pieces_are_what_is_between,
    law_trimming_leaves_the_core, lemma_filter_all, lemma_filter_map_concat, lemma_filter_map_has,
    lemma_joined_pieces, pieces, same, split_on, string_views, trim, trimmed,
};

verus! {

/// All matching lines within one file of a gist.
#[derive(Debug, Clone, PartialEq, Eq)]
pub struct FileMatches {
    pub filename: String,
    pub lines: Vec<LineMatch>,
}

/// What a [`FileMatches`] holds.
#[verifier::ext_equal]
pub struct FileView {
    pub filename: Seq<char>,
    pub lines: Seq<LineView>,
}

/// What each of `s` holds.
pub open spec fn line_views(s: Seq<LineMatch>) -> Seq<LineView> {
    s.map_values(|l: LineMatch| l@)
}

impl View for FileMatches {
    type V = FileView;

    open spec fn view(&self) -> FileView {
        FileView { filename: self.filename@, lines: line_views(self.lines@) }
    }
}

/// The first name along a path, and the rest of them, if there is any.
pub open spec fn folder_and_file(path: Seq<char>) -> Option<(Seq<char>, Seq<char>)> {
    let names = path_names(path);
    if names.len() > 1 {
        Some((names[0], joined(names.skip(1), "/"@)))
    } else {
        None
    }
}

/// Splits a tool-reported path like `./my-notes-a1b2c3d4/notes.md` into the
/// gist folder and the file path within it. Names are separated by `/` alone, on
/// every system: where `\` separates them too, as on Windows, whoever runs the
/// tool has it report paths with `/`.
pub fn split_path(path: &str) -> (r: Option<(String, String)>)
    ensures
        match r {
            Some((folder, filename)) => folder_and_file(path@) == Some((folder@, filename@)),
            None => folder_and_file(path@) is None,
        },
{
    broadcast use Seq::lemma_filter_push;

    let parts = split_on(path, '/');
    let ghost all = pieces(path@, '/');
    let ghost p = |part: Seq<char>| is_name(part);
    let mut names: Vec<String> = Vec::new();
    let mut i: usize = 0;
    assert(all.take(0).filter(p) =~= string_views(names@)) by {
        reveal(Seq::filter);
    }
    while i < parts.len()
        invariant
            p == (|part: Seq<char>| is_name(part)),
            all == string_views(parts@),
            i <= parts@.len(),
            string_views(names@) == all.take(i as int).filter(p),
        decreases parts@.len() - i,
    {
        broadcast use Seq::lemma_filter_push;

        let part = parts[i].as_str();
        assert(all.take(i + 1) == all.take(i as int).push(part@));
        let ghost before = string_views(names@);
        if part.unicode_len() > 0 && !same(part, ".") && !same(part, "..") {
            names.push(parts[i].clone());
            assert(string_views(names@) == before.push(part@));
        }
        i += 1;
    }
    assert(all.take(i as int) == all);
    if names.len() > 1 {
        Some((names[0].clone(), join_from(&names, 1, "/")))
    } else {
        None
    }
}

/// A path made of names is split behind the first of them, whether or not it
/// begins with `./`.
pub proof fn law_path_is_split_after_the_folder(names: Seq<Seq<char>>)
    requires
        names.len() > 1,
        forall|i: int|
            0 <= i < names.len() ==> is_name(#[trigger] names[i]) && !names[i].contains('/'),
    ensures
        folder_and_file(joined(names, "/"@)) == Some((names[0], joined(names.skip(1), "/"@))),
        folder_and_file("./"@ + joined(names, "/"@)) == Some(
            (names[0], joined(names.skip(1), "/"@)),
        ),
{
    broadcast use Seq::lemma_filter_push;

    let p = |part: Seq<char>| is_name(part);
    reveal_strlit("/");
    reveal_strlit(".");
    reveal_strlit("./");
    assert("/"@ == seq!['/']);
    lemma_joined_pieces(names, '/');
    lemma_filter_all(names, p);
    let dotted = seq!["."@] + names;
    assert forall|i: int| 0 <= i < dotted.len() implies !(#[trigger] dotted[i]).contains('/') by {
        if i > 0 {
            assert(dotted[i] == names[i - 1]);
        }
    }
    lemma_joined_pieces(dotted, '/');
    lemma_joined_first("."@, names, "/"@);
    assert("./"@ == "."@ + "/"@);
    assert(dotted.filter(p) == names) by {
        lemma_filter_behind(seq!["."@], names, p);
        assert(seq!["."@] == Seq::empty().push("."@));
        reveal(Seq::filter);
        assert(seq!["."@].filter(p) == Seq::<Seq<char>>::empty());
        assert(Seq::<Seq<char>>::empty() + names == names);
    }
}

proof fn lemma_filter_behind<T>(a: Seq<T>, b: Seq<T>, p: spec_fn(T) -> bool)
    ensures
        (a + b).filter(p) == a.filter(p) + b.filter(p),
    decreases b.len(),
{
    broadcast use Seq::lemma_filter_push;

    reveal(Seq::filter);
    if b.len() == 0 {
        assert(a + b == a);
        assert(a.filter(p) + b.filter(p) == a.filter(p));
    } else {
        let c = b.drop_last();
        lemma_filter_behind(a, c, p);
        assert(a + b == (a + c).push(b.last()));
        assert(b == c.push(b.last()));
        assert((a + b).filter(p) == a.filter(p) + b.filter(p));
    }
}

proof fn lemma_joined_first(first: Seq<char>, rest: Seq<Seq<char>>, sep: Seq<char>)
    requires
        rest.len() > 0,
    ensures
        joined(seq![first] + rest, sep) == first + sep + joined(rest, sep),
    decreases rest.len(),
{
    let all = seq![first] + rest;
    assert(all.drop_last() == seq![first] + rest.drop_last());
    assert(all.last() == rest.last());
    if rest.len() == 1 {
        assert(all.drop_last() == seq![first]);
        assert(joined(all.drop_last(), sep) == first);
    } else {
        lemma_joined_first(first, rest.drop_last(), sep);
        assert(joined(all, sep) == first + sep + joined(rest, sep));
    }
}

/// All matches within one gist, plus what its metadata says about it.
#[derive(Debug, Clone, PartialEq, Eq)]
pub struct GistMatches {
    /// Local folder name (relative to the output dir).
    pub folder: String,
    pub description: Option<String>,
    pub url: Option<String>,
    pub files: Vec<FileMatches>,
}

/// The folder and the matches that a [`GistMatches`] holds.
#[verifier::ext_equal]
pub struct GistView {
    pub folder: Seq<char>,
    pub files: Seq<FileView>,
}

/// What each of `s` holds.
pub open spec fn file_views(s: Seq<FileMatches>) -> Seq<FileView> {
    s.map_values(|f: FileMatches| f@)
}

impl GistMatches {
    /// What a gist of this description and folder is called.
    pub open spec fn title_of(description: Option<String>, folder: Seq<char>) -> Seq<char> {
        match description {
            Some(d) => if trimmed(d@).len() > 0 {
                trimmed(d@)
            } else {
                folder
            },
            None => folder,
        }
    }

    /// A human-readable title: the description, or the folder name if blank.
    pub fn title(&self) -> (r: &str)
        ensures
            r@ == Self::title_of(self.description, self.folder@),
    {
        match &self.description {
            Some(d) => {
                let desc = trim(d.as_str());
                if desc.unicode_len() > 0 {
                    desc
                } else {
                    self.folder.as_str()
                }
            },
            None => self.folder.as_str(),
        }
    }
}

impl View for GistMatches {
    type V = GistView;

    open spec fn view(&self) -> GistView {
        GistView { folder: self.folder@, files: file_views(self.files@) }
    }
}

/// What each of `s` holds.
pub open spec fn gist_views(s: Seq<GistMatches>) -> Seq<GistView> {
    s.map_values(|g: GistMatches| g@)
}

/// The lines of `hits` in the file `filename` of `folder`, in their order.
pub open spec fn lines_in(
    hits: Seq<HitView>,
    folder: Seq<char>,
    filename: Seq<char>,
) -> Seq<LineView> {
    hits.filter_map(
        |h: HitView|
            if folder_and_file(h.path) == Some((folder, filename)) {
                Some(h.line)
            } else {
                None
            },
    )
}

/// Whether `files` are the files of `folder` with hits: by ascending name,
/// each with its lines by ascending number.
pub open spec fn are_files_of(
    hits: Seq<HitView>,
    folder: Seq<char>,
    files: Seq<FileView>,
) -> bool {
    &&& forall|i: int, j: int|
        0 <= i < j < files.len() ==> str_less(
            (#[trigger] files[i]).filename,
            (#[trigger] files[j]).filename,
        )
    &&& forall|i: int|
        0 <= i < files.len() ==> {
            let lines = lines_in(hits, folder, (#[trigger] files[i]).filename);
            lines.len() > 0 && files[i].lines == stable_sorted(
                lines,
                |l: LineView| l.line_number as int,
            )
        }
    &&& forall|filename: Seq<char>| #[trigger]
        lines_in(hits, folder, filename).len() > 0 ==> exists|i: int|
            0 <= i < files.len() && (#[trigger] files[i]).filename == filename
}

/// Whether `gists` are the folders with hits: by ascending name, each with its
/// files.
pub open spec fn are_gists_of(hits: Seq<HitView>, gists: Seq<GistView>) -> bool {
    &&& forall|i: int, j: int|
        0 <= i < j < gists.len() ==> str_less(
            (#[trigger] gists[i]).folder,
            (#[trigger] gists[j]).folder,
        )
    &&& forall|i: int|
        0 <= i < gists.len() ==> (#[trigger] gists[i]).files.len() > 0 && are_files_of(
            hits,
            gists[i].folder,
            gists[i].files,
        )
    &&& forall|folder: Seq<char>, filename: Seq<char>| #[trigger]
        lines_in(hits, folder, filename).len() > 0 ==> exists|i: int|
            0 <= i < gists.len() && (#[trigger] gists[i]).folder == folder
}

impl Keyed for LineMatch {
    open spec fn key(&self) -> int {
        self.line_number as int
    }

    fn sort_key(&self) -> (r: u64) {
        self.line_number
    }
}

/// Lines by file name by folder.
type Folders = StrMap<StrMap<Vec<LineMatch>>>;

/// Whether `folders` holds the lines of `hits`.
spec fn collected(hits: Seq<HitView>, folders: Folders) -> bool {
    &&& forall|folder: Seq<char>, filename: Seq<char>|
        #![trigger lines_in(hits, folder, filename)]
        {
            let lines = lines_in(hits, folder, filename);
            if folders.map().contains_key(folder) && folders.map()[folder].map().contains_key(
                filename,
            ) {
                lines.len() > 0 && line_views(folders.map()[folder].map()[filename]@) == lines
            } else {
                lines.len() == 0
            }
        }
    &&& forall|folder: Seq<char>| #[trigger]
        folders.map().contains_key(folder) ==> folders.map()[folder]@.len() > 0 && keys_ascend(
            folders.map()[folder]@,
        )
}

/// Adding a hit adds its line to the lines of its file, and to no others.
proof fn lemma_lines_in_push(hits: Seq<HitView>, h: HitView, folder: Seq<char>, filename: Seq<char>)
    ensures
        lines_in(hits.push(h), folder, filename) == if folder_and_file(h.path) == Some(
            (folder, filename),
        ) {
            lines_in(hits, folder, filename).push(h.line)
        } else {
            lines_in(hits, folder, filename)
        },
{
    assert(hits.push(h).drop_last() == hits);
}

/// Adds a line to those of a file.
fn collect_line(
    folders: &mut Folders,
    folder: String,
    filename: String,
    line: LineMatch,
    Ghost(hits): Ghost<Seq<HitView>>,
    Ghost(h): Ghost<HitView>,
)
    requires
        collected(hits, *old(folders)),
        folder_and_file(h.path) == Some((folder@, filename@)),
        line@ == h.line,
    ensures
        collected(hits.push(h), *final(folders)),
{
    let ghost before = *folders;
    let mut files = match folders.remove(folder.as_str()) {
        Some(files) => files,
        None => StrMap::new(),
    };
    let ghost files0 = files;
    let mut lines = match files.remove(filename.as_str()) {
        Some(lines) => lines,
        None => Vec::new(),
    };
    let ghost lines0 = lines@;
    assert(line_views(lines0) == lines_in(hits, folder@, filename@)) by {
        let known = lines_in(hits, folder@, filename@);
        if known.len() == 0 {
            assert(line_views(lines0) == known);
        }
    }
    lines.push(line);
    assert(line_views(lines@) == line_views(lines0).push(line@));
    let ghost f = folder@;
    let ghost n = filename@;
    files.insert(filename, lines);
    assert(files.map() == files0.map().insert(n, lines));
    let ghost files1 = files;
    assert(files1@.len() > 0) by {
        if files1@.len() == 0 {
            assert(files1.map() == Map::<Seq<char>, Vec<LineMatch>>::empty());
            assert(files1.map().contains_key(n));
        }
    }
    folders.insert(folder, files);
    assert(folders.map() == before.map().insert(f, files1));
    proof {
        assert forall|a: Seq<char>, b: Seq<char>|
            #![trigger lines_in(hits.push(h), a, b)]
            {
                let now = lines_in(hits.push(h), a, b);
                if folders.map().contains_key(a) && folders.map()[a].map().contains_key(b) {
                    now.len() > 0 && line_views(folders.map()[a].map()[b]@) == now
                } else {
                    now.len() == 0
                }
            } by {
            lemma_lines_in_push(hits, h, a, b);
            assert(lines_in(hits, a, b).len() >= 0);
        }
    }
}

/// The files that were collected for a folder are its files with hits.
proof fn lemma_files_of(
    hits: Seq<HitView>,
    map: Map<Seq<char>, StrMap<Vec<LineMatch>>>,
    gist: GistView,
    files: Seq<(Seq<char>, Vec<LineMatch>)>,
)
    requires
        map.contains_key(gist.folder),
        map[gist.folder]@ == files,
        keys_ascend(files),
        gist.files.len() == files.len(),
        forall|j: int|
            0 <= j < files.len() ==> (#[trigger] gist.files[j]).filename == files[j].0
                && gist.files[j].lines == stable_sorted(
                line_views(files[j].1@),
                |l: LineView| l.line_number as int,
            ),
        forall|filename: Seq<char>|
            #![trigger lines_in(hits, gist.folder, filename)]
            {
                let lines = lines_in(hits, gist.folder, filename);
                if pairs_map(files).contains_key(filename) {
                    lines.len() > 0 && line_views(pairs_map(files)[filename]@) == lines
                } else {
                    lines.len() == 0
                }
            },
    ensures
        are_files_of(hits, gist.folder, gist.files),
{
    lemma_pairs_map(files);
    assert forall|i: int| 0 <= i < gist.files.len() implies {
        let lines = lines_in(hits, gist.folder, (#[trigger] gist.files[i]).filename);
        lines.len() > 0 && gist.files[i].lines == stable_sorted(
            lines,
            |l: LineView| l.line_number as int,
        )
    } by {
        assert(pairs_map(files).contains_key(files[i].0));
    }
    assert forall|i: int, j: int| 0 <= i < j < gist.files.len() implies str_less(
        (#[trigger] gist.files[i]).filename,
        (#[trigger] gist.files[j]).filename,
    ) by {
        assert(str_less(files[i].0, files[j].0));
    }
    assert forall|filename: Seq<char>| #[trigger]
        lines_in(hits, gist.folder, filename).len() > 0 implies exists|i: int|
        0 <= i < gist.files.len() && (#[trigger] gist.files[i]).filename == filename by {
        assert(pairs_map(files).contains_key(filename));
        let i = choose|i: int| 0 <= i < files.len() && (#[trigger] files[i]).0 == filename;
        assert(gist.files[i].filename == filename);
    }
}

/// The files of a folder, with their lines sorted.
fn sorted_files(files: StrMap<Vec<LineMatch>>) -> (r: Vec<FileMatches>)
    ensures
        r@.len() == files@.len(),
        keys_ascend(files@),
        forall|i: int|
            0 <= i < r@.len() ==> (#[trigger] r@[i]).filename@ == files@[i].0 && line_views(
                r@[i].lines@,
            ) == stable_sorted(
                line_views(files@[i].1@),
                |l: LineView| l.line_number as int,
            ),
{
    let entries = files.into_entries();
    let ghost all = entries@;
    let mut out: Vec<FileMatches> = Vec::new();
    for e in it: entries
        invariant
            it.seq() == all,
            out@.len() == it.index(),
            forall|i: int|
                0 <= i < out@.len() ==> (#[trigger] out@[i]).filename@ == all[i].0@ && line_views(
                    out@[i].lines@,
                ) == stable_sorted(
                    line_views(all[i].1@),
                    |l: LineView| l.line_number as int,
                ),
    {
        let (filename, lines) = e;
        proof {
            lemma_sorted_map(
                lines@,
                |l: LineMatch| l@,
                |l: LineMatch| l.key(),
                |l: LineView| l.line_number as int,
            );
        }
        out.push(FileMatches { filename, lines: sort_stable(lines) });
    }
    proof {
        assert forall|i: int| 0 <= i < out@.len() implies (#[trigger] out@[i]).filename@
            == files@[i].0 && files@[i].1 == all[i].1 by {
            assert(files@[i] == (all[i].0@, all[i].1));
        }
    }
    out
}

/// Groups hits by gist folder and file, in sorted order. Hits outside a gist
/// folder (files at the top of the output dir) are dropped.
pub fn group(hits: Vec<Hit>) -> (r: Vec<GistMatches>)
    ensures
        are_gists_of(hit_views(hits@), gist_views(r@)),
        forall|i: int|
            0 <= i < r@.len() ==> (#[trigger] r@[i]).description is None && r@[i].url is None,
{
    let ghost all = hit_views(hits@);
    let mut folders: Folders = StrMap::new();
    let ghost mut seen = Seq::<HitView>::empty();
    for hit in it: hits
        invariant
            it.seq() == hits@,
            seen == hit_views(hits@.take(it.index())),
            collected(seen, folders),
    {
        let ghost h = hit@;
        match split_path(hit.path.as_str()) {
            Some((folder, filename)) => {
                collect_line(&mut folders, folder, filename, hit.line, Ghost(seen), Ghost(h));
            },
            None => {
                proof {
                    assert forall|a: Seq<char>, b: Seq<char>|
                        #![trigger lines_in(seen.push(h), a, b)]
                        lines_in(seen.push(h), a, b) == lines_in(seen, a, b) by {
                        lemma_lines_in_push(seen, h, a, b);
                    }
                }
            },
        }
        proof {
            seen = seen.push(h);
            assert(seen == hit_views(hits@.take(it.index() + 1)));
        }
    }
    assert(hits@.take(hits@.len() as int) == hits@);
    let ghost map = folders.map();
    let ghost list = folders@;
    let entries = folders.into_entries();
    let ghost pairs = entries@;
    proof {
        lemma_pairs_map(list);
        assert forall|i: int| 0 <= i < list.len() implies #[trigger] list[i] == (
            pairs[i].0@,
            pairs[i].1,
        ) && map.contains_key(list[i].0) && map[list[i].0] == pairs[i].1 by {}
    }
    let mut out: Vec<GistMatches> = Vec::new();
    for e in it: entries
        invariant
            it.seq() == pairs,
            out@.len() == it.index(),
            forall|i: int|
                0 <= i < out@.len() ==> {
                    &&& (#[trigger] out@[i]).folder@ == pairs[i].0@
                    &&& out@[i].description is None
                    &&& out@[i].url is None
                    &&& out@[i].files@.len() == pairs[i].1@.len()
                    &&& forall|j: int|
                        0 <= j < out@[i].files@.len() ==> (#[trigger] out@[i].files@[j]).filename@
                            == pairs[i].1@[j].0 && line_views(out@[i].files@[j].lines@)
                            == stable_sorted(
                            line_views(pairs[i].1@[j].1@),
                            |l: LineView| l.line_number as int,
                        )
                },
    {
        let (folder, files) = e;
        let files = sorted_files(files);
        out.push(GistMatches { folder, description: None, url: None, files });
    }
    proof {
        let gists = gist_views(out@);
        assert forall|i: int| 0 <= i < gists.len() implies (#[trigger] gists[i]).files.len() > 0
            && are_files_of(all, gists[i].folder, gists[i].files) by {
            assert(list[i] == (pairs[i].0@, pairs[i].1));
            assert(gists[i] == out@[i]@);
            assert(map.contains_key(gists[i].folder));
            assert(map[gists[i].folder] == pairs[i].1);
            assert forall|j: int| 0 <= j < pairs[i].1@.len() implies (
            #[trigger] gists[i].files[j]).filename == pairs[i].1@[j].0 && gists[i].files[j].lines
                == stable_sorted(
                line_views(pairs[i].1@[j].1@),
                |l: LineView| l.line_number as int,
            ) by {
                assert(gists[i].files[j] == out@[i].files@[j]@);
            }
            lemma_files_of(all, map, gists[i], pairs[i].1@);
        }
        assert forall|folder: Seq<char>, filename: Seq<char>| #[trigger]
            lines_in(all, folder, filename).len() > 0 implies exists|i: int|
            0 <= i < gists.len() && (#[trigger] gists[i]).folder == folder by {
            assert(map.contains_key(folder));
            let i = choose|i: int| 0 <= i < list.len() && (#[trigger] list[i]).0 == folder;
            assert(gists[i].folder == folder);
        }
        assert forall|i: int, j: int| 0 <= i < j < gists.len() implies str_less(
            (#[trigger] gists[i]).folder,
            (#[trigger] gists[j]).folder,
        ) by {
            assert(str_less(list[i].0, list[j].0));
        }
    }
    out
}

/// Every hit inside a gist folder is listed under its folder and file.
pub proof fn law_every_hit_is_listed(
    hits: Seq<HitView>,
    gists: Seq<GistView>,
    h: HitView,
    folder: Seq<char>,
    filename: Seq<char>,
)
    requires
        are_gists_of(hits, gists),
        hits.contains(h),
        folder_and_file(h.path) == Some((folder, filename)),
    ensures
        exists|i: int, j: int|
            0 <= i < gists.len() && 0 <= j < gists[i].files.len() && gists[i].folder == folder && (
            #[trigger] gists[i].files[j]).filename == filename && gists[i].files[j].lines.contains(
                h.line,
            ),
{
    let lines = lines_in(hits, folder, filename);
    let f = |h: HitView|
        if folder_and_file(h.path) == Some((folder, filename)) {
            Some(h.line)
        } else {
            None
        };
    lemma_filter_map_has(hits, f, h, h.line);
    let i = choose|i: int| 0 <= i < gists.len() && (#[trigger] gists[i]).folder == folder;
    let files = gists[i].files;
    assert(are_files_of(hits, folder, files));
    let j = choose|j: int| 0 <= j < files.len() && (#[trigger] files[j]).filename == filename;
    lemma_sorted_has(lines, |l: LineView| l.line_number as int, h.line);
    assert(gists[i].files[j].filename == filename);
}

/// Every line that is listed is that of a hit in its folder and file.
pub proof fn law_every_listed_line_is_a_hit(
    hits: Seq<HitView>,
    gists: Seq<GistView>,
    i: int,
    j: int,
    line: LineView,
)
    requires
        are_gists_of(hits, gists),
        0 <= i < gists.len(),
        0 <= j < gists[i].files.len(),
        gists[i].files[j].lines.contains(line),
    ensures
        exists|h: HitView| #[trigger]
            hits.contains(h) && h.line == line && folder_and_file(h.path) == Some(
                (gists[i].folder, gists[i].files[j].filename),
            ),
{
    let folder = gists[i].folder;
    let filename = gists[i].files[j].filename;
    let lines = lines_in(hits, folder, filename);
    let f = |h: HitView|
        if folder_and_file(h.path) == Some((folder, filename)) {
            Some(h.line)
        } else {
            None
        };
    assert forall|k: int| 0 <= k < lines.len() implies lines.contains(#[trigger] lines[k]) by {}
    lemma_sorted_all(lines, |l: LineView| l.line_number as int, |l: LineView| lines.contains(l));
    let k = choose|k: int|
        0 <= k < gists[i].files[j].lines.len() && gists[i].files[j].lines[k] == line;
    assert(lines.contains(gists[i].files[j].lines[k]));
    hits.lemma_filter_map_contains(f, line);
    let h = choose|h: HitView| #[trigger] hits.contains(h) && f(h) == Some(line);
    assert(hits.contains(h) && h.line == line);
}

proof fn lemma_files_unique(
    hits: Seq<HitView>,
    folder: Seq<char>,
    a: Seq<FileView>,
    b: Seq<FileView>,
)
    requires
        are_files_of(hits, folder, a),
        are_files_of(hits, folder, b),
    ensures
        a == b,
{
    let pa = a.map_values(|f: FileView| (f.filename, f.lines));
    let pb = b.map_values(|f: FileView| (f.filename, f.lines));
    lemma_pairs_map(pa);
    lemma_pairs_map(pb);
    assert forall|k: Seq<char>|
        #![trigger pairs_map(pa).dom().contains(k)]
        #![trigger pairs_map(pb).dom().contains(k)]
        #![trigger pairs_map(pa)[k]]
        #![trigger pairs_map(pb)[k]]
        pairs_map(pa).contains_key(k) == pairs_map(pb).contains_key(k) && (pairs_map(
            pa,
        ).contains_key(k) ==> pairs_map(pa)[k] == pairs_map(pb)[k]) by {
        if pairs_map(pa).contains_key(k) {
            let i = choose|i: int| 0 <= i < pa.len() && (#[trigger] pa[i]).0 == k;
            assert(a[i].filename == k);
            assert(lines_in(hits, folder, k).len() > 0);
            let j = choose|j: int| 0 <= j < b.len() && (#[trigger] b[j]).filename == k;
            assert(pb[j].0 == k);
        }
        if pairs_map(pb).contains_key(k) {
            let i = choose|i: int| 0 <= i < pb.len() && (#[trigger] pb[i]).0 == k;
            assert(b[i].filename == k);
            assert(lines_in(hits, folder, k).len() > 0);
            let j = choose|j: int| 0 <= j < a.len() && (#[trigger] a[j]).filename == k;
            assert(pa[j].0 == k);
        }
    }
    assert(pairs_map(pa) =~= pairs_map(pb));
    lemma_pairs_unique(pa, pb);
    assert forall|i: int| 0 <= i < a.len() implies a[i] == b[i] by {
        assert(pa[i] == pb[i]);
    }
    assert(a == b);
}

/// The hits determine how they are grouped.
pub proof fn law_grouping_is_unique(hits: Seq<HitView>, a: Seq<GistView>, b: Seq<GistView>)
    requires
        are_gists_of(hits, a),
        are_gists_of(hits, b),
    ensures
        a == b,
{
    let pa = a.map_values(|g: GistView| (g.folder, g.files));
    let pb = b.map_values(|g: GistView| (g.folder, g.files));
    lemma_pairs_map(pa);
    lemma_pairs_map(pb);
    assert forall|k: Seq<char>|
        #![trigger pairs_map(pa).dom().contains(k)]
        #![trigger pairs_map(pb).dom().contains(k)]
        #![trigger pairs_map(pa)[k]]
        #![trigger pairs_map(pb)[k]]
        pairs_map(pa).contains_key(k) == pairs_map(pb).contains_key(k) && (pairs_map(
            pa,
        ).contains_key(k) ==> pairs_map(pa)[k] == pairs_map(pb)[k]) by {
        if pairs_map(pa).contains_key(k) {
            let i = choose|i: int| 0 <= i < pa.len() && (#[trigger] pa[i]).0 == k;
            assert(are_files_of(hits, a[i].folder, a[i].files));
            assert(lines_in(hits, k, a[i].files[0].filename).len() > 0);
            let j = choose|j: int| 0 <= j < b.len() && (#[trigger] b[j]).folder == k;
            assert(pb[j].0 == k);
            lemma_files_unique(hits, k, a[i].files, b[j].files);
        }
        if pairs_map(pb).contains_key(k) {
            let i = choose|i: int| 0 <= i < pb.len() && (#[trigger] pb[i]).0 == k;
            assert(are_files_of(hits, b[i].folder, b[i].files));
            assert(lines_in(hits, k, b[i].files[0].filename).len() > 0);
            let j = choose|j: int| 0 <= j < a.len() && (#[trigger] a[j]).folder == k;
            assert(pa[j].0 == k);
        }
    }
    assert(pairs_map(pa) =~= pairs_map(pb));
    lemma_pairs_unique(pa, pb);
    assert forall|i: int| 0 <= i < a.len() implies a[i] == b[i] by {
        assert(pa[i] == pb[i]);
    }
    assert(a == b);
}

/// The lines of hits go to their files one by one: those of two lists of hits are
/// those of the one and then those of the other, and a hit adds its line to its own
/// file alone.
pub proof fn law_lines_go_to_their_file(
    a: Seq<HitView>,
    b: Seq<HitView>,
    h: HitView,
    folder: Seq<char>,
    filename: Seq<char>,
)
    ensures
        lines_in(a + b, folder, filename) == lines_in(a, folder, filename) + lines_in(
            b,
            folder,
            filename,
        ),
        folder_and_file(h.path) == Some((folder, filename)) ==> lines_in(seq![h], folder, filename)
            == seq![h.line],
        folder_and_file(h.path) != Some((folder, filename)) ==> lines_in(
            seq![h],
            folder,
            filename,
        ).len() == 0,
{
    let f = |h: HitView|
        if folder_and_file(h.path) == Some((folder, filename)) {
            Some(h.line)
        } else {
            None
        };
    lemma_filter_map_concat(a, b, f);
    Seq::lemma_filter_map_singleton(h, f);
}

/// How many of `hits` are in the file `filename` of `folder`.
pub open spec fn hit_count(hits: Seq<HitView>, folder: Seq<char>, filename: Seq<char>) -> nat
    decreases hits.len(),
{
    if hits.len() == 0 {
        0
    } else {
        hit_count(hits.drop_last(), folder, filename) + if folder_and_file(hits.last().path)
            == Some((folder, filename)) {
            1nat
        } else {
            0nat
        }
    }
}

proof fn lemma_hit_count(hits: Seq<HitView>, folder: Seq<char>, filename: Seq<char>)
    ensures
        lines_in(hits, folder, filename).len() == hit_count(hits, folder, filename),
    decreases hits.len(),
{
    if hits.len() > 0 {
        let init = hits.drop_last();
        lemma_hit_count(init, folder, filename);
        lemma_lines_in_push(init, hits.last(), folder, filename);
        assert(hits == init.push(hits.last()));
    }
}

/// A file is listed with a line for each of its hits, no more and no fewer, by
/// ascending number; lines of the same number stay in the order of the hits.
pub proof fn law_each_hit_is_listed_once(
    hits: Seq<HitView>,
    gists: Seq<GistView>,
    i: int,
    j: int,
    number: u64,
)
    requires
        are_gists_of(hits, gists),
        0 <= i < gists.len(),
        0 <= j < gists[i].files.len(),
    ensures
        ({
            let lines = gists[i].files[j].lines;
            let filename = gists[i].files[j].filename;
            let found = lines_in(hits, gists[i].folder, filename);
            &&& lines.len() == hit_count(hits, gists[i].folder, filename)
            &&& lines.len() > 0
            &&& lines.to_multiset() == found.to_multiset()
            &&& forall|m: int, n: int|
                0 <= m < n < lines.len() ==> (#[trigger] lines[m]).line_number <= (
                #[trigger] lines[n]).line_number
            &&& lines.filter(|l: LineView| l.line_number as int == number) == found.filter(
                |l: LineView| l.line_number as int == number,
            )
        }),
{
    broadcast use vstd::seq_lib::group_to_multiset_ensures;

    let folder = gists[i].folder;
    let filename = gists[i].files[j].filename;
    let found = lines_in(hits, folder, filename);
    let by_number = |l: LineView| l.line_number as int;
    assert(are_files_of(hits, folder, gists[i].files));
    let lines = gists[i].files[j].lines;
    assert(lines == stable_sorted(found, by_number));
    law_sorting_keeps_the_items(found, by_number);
    lemma_sorted_ascending(found, by_number);
    law_sorting_is_stable(found, by_number, number as int);
    lemma_hit_count(hits, folder, filename);
    assert(lines.to_multiset().len() == lines.len());
    assert forall|m: int, n: int| 0 <= m < n < lines.len() implies (#[trigger] lines[m]).line_number
        <= (#[trigger] lines[n]).line_number by {
        assert(by_number(lines[m]) <= by_number(lines[n]));
    }
    let p = |l: LineView| by_number(l) == number as int;
    let q = |l: LineView| l.line_number as int == number;
    assert(p =~= q);
}

/// Folders and the files in each of them are listed once, by ascending name, and
/// none without hits.
pub proof fn law_folders_and_files_are_in_order(
    hits: Seq<HitView>,
    gists: Seq<GistView>,
    i: int,
    j: int,
)
    requires
        are_gists_of(hits, gists),
        0 <= i < gists.len(),
    ensures
        i < j < gists.len() ==> str_less(gists[i].folder, gists[j].folder) && gists[i].folder
            != gists[j].folder,
        forall|m: int, n: int|
            0 <= m < n < gists[i].files.len() ==> str_less(
                (#[trigger] gists[i].files[m]).filename,
                (#[trigger] gists[i].files[n]).filename,
            ),
        gists[i].files.len() > 0,
{
    lemma_str_irreflexive(gists[i].folder);
    assert(are_files_of(hits, gists[i].folder, gists[i].files));
}

/// A file that is in no folder has none; what stands before a slash counts only
/// where it has a name in it.
pub proof fn law_folder_takes_a_name(path: Seq<char>, before: Seq<char>)
    ensures
        !path.contains('/') ==> folder_and_file(path) is None,
        path_names(before).len() == 0 ==> folder_and_file(before + seq!['/'] + path)
            == folder_and_file(path),
        folder_and_file(path) is Some <==> path_names(path).len() >= 2,
{
    law_names_are_between_the_slashes(before, path);
    if path_names(before).len() == 0 {
        assert(path_names(before) + path_names(path) == path_names(path));
    }
    if !path.contains('/') {
        law_pieces_are_what_is_between(before, path, '/');
        reveal_strlit(".");
        reveal_strlit("..");
        if !is_name(path) {
            law_names_are_between_the_slashes(before, "."@);
            assert(path =~= Seq::<char>::empty() || path == "."@ || path == ".."@);
        }
    }
}

/// A gist is called by its description without the white space around it, and by
/// its folder where nothing is left of that.
pub proof fn law_title_is_the_description(
    description: String,
    folder: Seq<char>,
    lead: Seq<char>,
    core: Seq<char>,
    tail: Seq<char>,
)
    requires
        description@ == lead + core + tail,
        forall|i: int| 0 <= i < lead.len() ==> is_white_space(#[trigger] lead[i]),
        forall|i: int| 0 <= i < tail.len() ==> is_white_space(#[trigger] tail[i]),
        core.len() > 0 ==> !is_white_space(core[0]) && !is_white_space(core.last()),
    ensures
        core.len() > 0 ==> GistMatches::title_of(Some(description), folder) == core,
        core.len() == 0 ==> GistMatches::title_of(Some(description), folder) == folder,
        GistMatches::title_of(None, folder) == folder,
{
    law_trimming_leaves_the_core(lead, core, tail);
}

/// What is said of matches is all of them: every gist with its folder, every file
/// with its name, and every line.
pub proof fn law_matches_are_all_of_them(gists: Seq<GistMatches>, i: int, j: int, k: int)
    requires
        0 <= i < gists.len(),
    ensures
        gist_views(gists).len() == gists.len(),
        gist_views(gists)[i].folder == gists[i].folder@,
        gist_views(gists)[i].files.len() == gists[i].files@.len(),
        0 <= j < gists[i].files@.len() ==> {
            let file = gist_views(gists)[i].files[j];
            &&& file.filename == gists[i].files@[j].filename@
            &&& file.lines.len() == gists[i].files@[j].lines@.len()
            &&& 0 <= k < file.lines.len() ==> file.lines[k] == gists[i].files@[j].lines@[k]@
        },
{
}

} // verus!
