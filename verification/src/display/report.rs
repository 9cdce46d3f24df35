//! Search results as they are printed.
use vstd::prelude::*;

use super::highlight::{
    can_highlight, highlight_segments, law_line_match_can_be_highlighted, scrolled, segment_views,
    segments_of, Segment,
};
use super::labels::{count, counted};
use crate::search::group::{
    are_gists_of, folder_and_file, gist_views, law_every_listed_line_is_a_hit, FileMatches,
    GistMatches,
};
use crate::search::hits::{HitView, LineMatch};
use crate::search::outcome::{hits_of, law_reported_lines_are_well_formed, SearchResults};
use crate::search::tool::Engine;
use crate::text::{
    align_right, decimal, decimal_of, lemma_decimal_digits, lemma_decimal_len, power_of_ten,
    right_aligned, string_views,
};

verus! {

/// The lines of `files`, one file behind the other.
pub open spec fn lines_of_files(files: Seq<FileMatches>) -> Seq<LineMatch>
    decreases files.len(),
{
    if files.len() == 0 {
        seq![]
    } else {
        lines_of_files(files.drop_last()) + files.last().lines@
    }
}

/// The lines of `gists`, one gist behind the other.
pub open spec fn all_lines(gists: Seq<GistMatches>) -> Seq<LineMatch>
    decreases gists.len(),
{
    if gists.len() == 0 {
        seq![]
    } else {
        all_lines(gists.drop_last()) + lines_of_files(gists.last().files@)
    }
}

/// The number of files of `gists`.
pub open spec fn file_total(gists: Seq<GistMatches>) -> nat
    decreases gists.len(),
{
    if gists.len() == 0 {
        0
    } else {
        file_total(gists.drop_last()) + gists.last().files@.len()
    }
}

/// The number of matches in `lines`. A line whose matches could not be located
/// counts as one.
pub open spec fn match_total(lines: Seq<LineMatch>) -> nat
    decreases lines.len(),
{
    if lines.len() == 0 {
        0
    } else {
        let n = lines.last().ranges@.len();
        match_total(lines.drop_last()) + if n > 1 {
            n
        } else {
            1
        }
    }
}

/// The width of the widest line number.
pub open spec fn number_width(lines: Seq<LineMatch>) -> nat
    decreases lines.len(),
{
    if lines.len() == 0 {
        1
    } else {
        let rest = number_width(lines.drop_last());
        let last = decimal(lines.last().line_number as nat).len();
        if last > rest {
            last
        } else {
            rest
        }
    }
}

/// The room left for the line text after the gutter (indent, number, bar), when
/// printing to a terminal. Piped output is never clipped.
pub open spec fn text_width(cols: Option<u16>, number_width: nat) -> Option<usize> {
    match cols {
        Some(c) => Some(
            if c - (number_width + 7) > 20 {
                (c - (number_width + 7)) as usize
            } else {
                20
            },
        ),
        None => None,
    }
}

/// One line of the printed results.
#[derive(Debug, Clone, PartialEq, Eq)]
pub enum ReportLine {
    /// The title of a gist.
    Title(String),
    /// The URL of a gist.
    Url(String),
    /// The name of a file.
    File(String),
    /// A matching line: its number, and the parts of its text.
    Match { number: String, segments: Vec<(String, bool)> },
    /// An empty line, behind a gist.
    Blank,
}

/// What a [`ReportLine`] says.
#[verifier::ext_equal]
pub enum ReportView {
    Title(Seq<char>),
    Url(Seq<char>),
    File(Seq<char>),
    Match { number: Seq<char>, segments: Seq<Segment> },
    Blank,
}

impl View for ReportLine {
    type V = ReportView;

    open spec fn view(&self) -> ReportView {
        match self {
            ReportLine::Title(s) => ReportView::Title(s@),
            ReportLine::Url(s) => ReportView::Url(s@),
            ReportLine::File(s) => ReportView::File(s@),
            ReportLine::Match { number, segments } => ReportView::Match {
                number: number@,
                segments: segment_views(segments@),
            },
            ReportLine::Blank => ReportView::Blank,
        }
    }
}

/// What each of `s` says.
pub open spec fn report_views(s: Seq<ReportLine>) -> Seq<ReportView> {
    s.map_values(|l: ReportLine| l@)
}

/// How a matching line is printed.
pub open spec fn line_report(
    line: LineMatch,
    number_width: int,
    width: Option<usize>,
) -> ReportView {
    ReportView::Match {
        number: right_aligned(decimal(line.line_number as nat), number_width),
        segments: scrolled(segments_of(line@)->0, width),
    }
}

/// How the matching lines of a file are printed.
pub open spec fn file_report(
    file: FileMatches,
    number_width: int,
    width: Option<usize>,
) -> Seq<ReportView> {
    seq![ReportView::File(file.filename@)] + file.lines@.map_values(
        |l: LineMatch| line_report(l, number_width, width),
    )
}

/// How the files of a gist are printed.
pub open spec fn files_report(
    files: Seq<FileMatches>,
    number_width: int,
    width: Option<usize>,
) -> Seq<ReportView>
    decreases files.len(),
{
    if files.len() == 0 {
        seq![]
    } else {
        files_report(files.drop_last(), number_width, width) + file_report(
            files.last(),
            number_width,
            width,
        )
    }
}

/// How the title and the URL of a gist are printed.
pub open spec fn gist_head(gist: GistMatches) -> Seq<ReportView> {
    seq![ReportView::Title(GistMatches::title_of(gist.description, gist.folder@))]
        + (match gist.url {
        Some(url) => seq![ReportView::Url(url@)],
        None => seq![],
    })
}

/// How a gist is printed: its title and URL, then each matching file with its
/// lines.
pub open spec fn gist_report(
    gist: GistMatches,
    number_width: int,
    width: Option<usize>,
) -> Seq<ReportView> {
    gist_head(gist) + files_report(gist.files@, number_width, width) + seq![ReportView::Blank]
}

/// How gists are printed.
pub open spec fn gists_report(
    gists: Seq<GistMatches>,
    number_width: int,
    width: Option<usize>,
) -> Seq<ReportView>
    decreases gists.len(),
{
    if gists.len() == 0 {
        seq![]
    } else {
        gists_report(gists.drop_last(), number_width, width) + gist_report(
            gists.last(),
            number_width,
            width,
        )
    }
}

/// Whether each of `lines` can be shown.
pub open spec fn can_show(lines: Seq<LineMatch>) -> bool {
    forall|i: int| 0 <= i < lines.len() ==> segments_of((#[trigger] lines[i])@) is Some
}

/// Whether results can be printed: their lines can be shown, and their
/// matches and files can be counted.
pub open spec fn is_reportable(gists: Seq<GistMatches>) -> bool {
    &&& can_show(all_lines(gists))
    &&& match_total(all_lines(gists)) <= usize::MAX
    &&& file_total(gists) <= usize::MAX
}

/// Search results as they are printed.
#[derive(Debug, Clone, PartialEq, Eq)]
pub struct SearchReport {
    pub lines: Vec<ReportLine>,
    /// How wide the text of a line may be.
    pub text_width: Option<usize>,
    /// The numbers of matches, files and gists, in words.
    pub totals: Vec<String>,
    /// The tool that searched.
    pub via: String,
}

/// What the references of `s` point to.
pub open spec fn line_refs(s: Seq<&LineMatch>) -> Seq<LineMatch> {
    s.map_values(|l: &LineMatch| *l)
}

/// The lines of all gists.
fn collect_lines<'a>(gists: &'a Vec<GistMatches>) -> (r: Vec<&'a LineMatch>)
    ensures
        line_refs(r@) == all_lines(gists@),
{
    let mut out: Vec<&'a LineMatch> = Vec::new();
    let mut i: usize = 0;
    assert(line_refs(out@) == all_lines(gists@.take(0)));
    while i < gists.len()
        invariant
            i <= gists@.len(),
            line_refs(out@) == all_lines(gists@.take(i as int)),
        decreases gists@.len() - i,
    {
        let files: &'a Vec<FileMatches> = &gists[i].files;
        let ghost before = line_refs(out@);
        let mut j: usize = 0;
        assert(before + lines_of_files(files@.take(0)) == before);
        while j < files.len()
            invariant
                j <= files@.len(),
                line_refs(out@) == before + lines_of_files(files@.take(j as int)),
            decreases files@.len() - j,
        {
            let lines: &'a Vec<LineMatch> = &files[j].lines;
            let ghost upto = line_refs(out@);
            let mut k: usize = 0;
            assert(upto + lines@.take(0) == upto);
            while k < lines.len()
                invariant
                    k <= lines@.len(),
                    line_refs(out@) == upto + lines@.take(k as int),
                decreases lines@.len() - k,
            {
                let ghost here = line_refs(out@);
                out.push(&lines[k]);
                assert(line_refs(out@) == here.push(lines@[k as int]));
                assert(line_refs(out@) == upto + lines@.take(k + 1));
                k += 1;
            }
            assert(lines@.take(k as int) == lines@);
            assert(files@.take(j + 1).drop_last() == files@.take(j as int));
            assert(line_refs(out@) == before + lines_of_files(files@.take(j + 1)));
            j += 1;
        }
        assert(files@.take(j as int) == files@);
        assert(gists@.take(i + 1).drop_last() == gists@.take(i as int));
        i += 1;
    }
    assert(gists@.take(i as int) == gists@);
    out
}

proof fn lemma_match_total_grows(lines: Seq<LineMatch>, i: int)
    requires
        0 <= i <= lines.len(),
    ensures
        match_total(lines.take(i)) <= match_total(lines),
    decreases lines.len() - i,
{
    if i < lines.len() {
        lemma_match_total_grows(lines, i + 1);
        assert(lines.take(i + 1).drop_last() == lines.take(i));
    } else {
        assert(lines.take(i) == lines);
    }
}

proof fn lemma_file_total_grows(gists: Seq<GistMatches>, i: int)
    requires
        0 <= i <= gists.len(),
    ensures
        file_total(gists.take(i)) <= file_total(gists),
    decreases gists.len() - i,
{
    if i < gists.len() {
        lemma_file_total_grows(gists, i + 1);
        assert(gists.take(i + 1).drop_last() == gists.take(i));
    } else {
        assert(gists.take(i) == gists);
    }
}

/// The number of matches in `lines`, if it can be counted.
fn count_matches(lines: &Vec<&LineMatch>) -> (r: Option<usize>)
    ensures
        match r {
            Some(n) => n == match_total(line_refs(lines@)),
            None => match_total(line_refs(lines@)) > usize::MAX,
        },
{
    let ghost all = line_refs(lines@);
    let mut total: usize = 0;
    let mut i: usize = 0;
    while i < lines.len()
        invariant
            i <= lines@.len(),
            all == line_refs(lines@),
            total == match_total(all.take(i as int)),
        decreases lines@.len() - i,
    {
        proof {
            assert(all.take(i + 1).drop_last() == all.take(i as int));
            assert(all.take(i + 1).last() == *lines@[i as int]);
            lemma_match_total_grows(all, i + 1);
        }
        let n: usize = if lines[i].ranges.len() > 1 {
            lines[i].ranges.len()
        } else {
            1
        };
        if n > usize::MAX - total {
            return None;
        }
        total = total + n;
        i += 1;
    }
    assert(all.take(i as int) == all);
    Some(total)
}

/// The number of files, if they can be counted.
fn count_files(gists: &Vec<GistMatches>) -> (r: Option<usize>)
    ensures
        match r {
            Some(n) => n == file_total(gists@),
            None => file_total(gists@) > usize::MAX,
        },
{
    let mut total: usize = 0;
    let mut i: usize = 0;
    while i < gists.len()
        invariant
            i <= gists@.len(),
            total == file_total(gists@.take(i as int)),
        decreases gists@.len() - i,
    {
        proof {
            assert(gists@.take(i + 1).drop_last() == gists@.take(i as int));
            lemma_file_total_grows(gists@, i + 1);
        }
        let n: usize = gists[i].files.len();
        if n > usize::MAX - total {
            return None;
        }
        total = total + n;
        i += 1;
    }
    assert(gists@.take(i as int) == gists@);
    Some(total)
}

/// The width of the widest line number.
fn widest_number(lines: &Vec<&LineMatch>) -> (r: usize)
    ensures
        r == number_width(line_refs(lines@)),
        r <= 20,
{
    let ghost all = line_refs(lines@);
    let mut width: usize = 1;
    let mut i: usize = 0;
    while i < lines.len()
        invariant
            i <= lines@.len(),
            all == line_refs(lines@),
            width == number_width(all.take(i as int)),
            width <= 20,
        decreases lines@.len() - i,
    {
        let number: u64 = lines[i].line_number;
        proof {
            assert(all.take(i + 1).drop_last() == all.take(i as int));
            assert(all.take(i + 1).last() == *lines@[i as int]);
            reveal_with_fuel(power_of_ten, 21);
            lemma_decimal_len(number as nat, 20);
        }
        let w: usize = decimal_of(number).as_str().unicode_len();
        if w > width {
            width = w;
        }
        i += 1;
    }
    assert(all.take(i as int) == all);
    width
}

/// Whether results can be printed: their lines can be shown, and their
/// matches and files can be counted.
pub fn can_report(results: &SearchResults) -> (r: bool)
    ensures
        r == is_reportable(results.gists@),
{
    let lines = collect_lines(&results.gists);
    let ghost all = line_refs(lines@);
    let mut i: usize = 0;
    while i < lines.len()
        invariant
            i <= lines@.len(),
            all == line_refs(lines@),
            all == all_lines(results.gists@),
            forall|k: int| 0 <= k < i ==> segments_of((#[trigger] all[k])@) is Some,
        decreases lines@.len() - i,
    {
        assert(all[i as int] == *lines@[i as int]);
        if !can_highlight(lines[i]) {
            return false;
        }
        i += 1;
    }
    count_matches(&lines).is_some() && count_files(&results.gists).is_some()
}

/// Appends the lines of a file.
fn push_file(
    out: &mut Vec<ReportLine>,
    file: &FileMatches,
    number_width: usize,
    width: Option<usize>,
)
    requires
        can_show(file.lines@),
    ensures
        report_views(final(out)@) == report_views(old(out)@) + file_report(
            *file,
            number_width as int,
            width,
        ),
{
    let ghost start = report_views(out@);
    let ghost f = |l: LineMatch| line_report(l, number_width as int, width);
    out.push(ReportLine::File(file.filename.clone()));
    let ghost head = seq![ReportView::File(file.filename@)];
    assert(report_views(out@) == start + head + file.lines@.take(0).map_values(f));
    let mut i: usize = 0;
    while i < file.lines.len()
        invariant
            f == (|l: LineMatch| line_report(l, number_width as int, width)),
            can_show(file.lines@),
            i <= file.lines@.len(),
            report_views(out@) == start + head + file.lines@.take(i as int).map_values(f),
        decreases file.lines@.len() - i,
    {
        let line = &file.lines[i];
        let ghost before = report_views(out@);
        assert(segments_of(file.lines@[i as int]@) is Some);
        let item = ReportLine::Match {
            number: align_right(decimal_of(line.line_number).as_str(), number_width),
            segments: highlight_segments(line, width),
        };
        let ghost v = item@;
        out.push(item);
        proof {
            assert(v == f(*line));
            assert(report_views(out@) == before.push(v));
            assert(file.lines@.take(i + 1).map_values(f) == file.lines@.take(i as int).map_values(
                f,
            ).push(v));
        }
        i += 1;
    }
    assert(file.lines@.take(i as int) == file.lines@);
}

proof fn lemma_can_show_part(a: Seq<LineMatch>, b: Seq<LineMatch>)
    requires
        can_show(a + b),
    ensures
        can_show(a),
        can_show(b),
{
    assert forall|i: int| 0 <= i < a.len() implies segments_of((#[trigger] a[i])@) is Some by {
        assert((a + b)[i] == a[i]);
    }
    assert forall|i: int| 0 <= i < b.len() implies segments_of((#[trigger] b[i])@) is Some by {
        assert((a + b)[a.len() + i] == b[i]);
    }
}

proof fn lemma_can_show_file(files: Seq<FileMatches>, i: int)
    requires
        can_show(lines_of_files(files)),
        0 <= i < files.len(),
    ensures
        can_show(files[i].lines@),
    decreases files.len(),
{
    lemma_can_show_part(lines_of_files(files.drop_last()), files.last().lines@);
    if i < files.len() - 1 {
        lemma_can_show_file(files.drop_last(), i);
    }
}

proof fn lemma_can_show_gist(gists: Seq<GistMatches>, i: int)
    requires
        can_show(all_lines(gists)),
        0 <= i < gists.len(),
    ensures
        can_show(lines_of_files(gists[i].files@)),
    decreases gists.len(),
{
    lemma_can_show_part(all_lines(gists.drop_last()), lines_of_files(gists.last().files@));
    if i < gists.len() - 1 {
        lemma_can_show_gist(gists.drop_last(), i);
    }
}

/// Appends the lines of a gist.
fn push_gist(
    out: &mut Vec<ReportLine>,
    gist: &GistMatches,
    number_width: usize,
    width: Option<usize>,
)
    requires
        can_show(lines_of_files(gist.files@)),
    ensures
        report_views(final(out)@) == report_views(old(out)@) + gist_report(
            *gist,
            number_width as int,
            width,
        ),
{
    let ghost start = report_views(out@);
    out.push(ReportLine::Title(gist.title().to_string()));
    if let Some(url) = &gist.url {
        out.push(ReportLine::Url(url.clone()));
    }
    let ghost head = gist_head(*gist);
    assert(report_views(out@) == start + head + files_report(
        gist.files@.take(0),
        number_width as int,
        width,
    ));
    let mut i: usize = 0;
    while i < gist.files.len()
        invariant
            can_show(lines_of_files(gist.files@)),
            i <= gist.files@.len(),
            report_views(out@) == start + head + files_report(
                gist.files@.take(i as int),
                number_width as int,
                width,
            ),
        decreases gist.files@.len() - i,
    {
        proof {
            lemma_can_show_file(gist.files@, i as int);
            assert(gist.files@.take(i + 1).drop_last() == gist.files@.take(i as int));
            assert(gist.files@.take(i + 1).last() == gist.files@[i as int]);
        }
        push_file(out, &gist.files[i], number_width, width);
        assert(report_views(out@) == start + head + files_report(
            gist.files@.take(i + 1),
            number_width as int,
            width,
        ));
        i += 1;
    }
    assert(gist.files@.take(i as int) == gist.files@);
    let ghost before = report_views(out@);
    out.push(ReportLine::Blank);
    assert(report_views(out@) == before.push(ReportView::Blank));
    assert(report_views(out@) == start + gist_report(*gist, number_width as int, width));
}

/// Lays out search results grouped by gist: its title and URL, then each
/// matching file with its highlighted lines, and a one-line summary. `cols` is
/// the width of the terminal, if there is one.
pub fn search_report(results: &SearchResults, cols: Option<u16>) -> (r: SearchReport)
    requires
        is_reportable(results.gists@),
    ensures
        ({
            let lines = all_lines(results.gists@);
            let width = text_width(cols, number_width(lines));
            &&& r.text_width == width
            &&& report_views(r.lines@) == gists_report(
                results.gists@,
                number_width(lines) as int,
                width,
            )
            &&& string_views(r.totals@) == seq![
                counted(match_total(lines) as int, "match"@, "matches"@),
                counted(file_total(results.gists@) as int, "file"@, "files"@),
                counted(results.gists@.len() as int, "gist"@, "gists"@),
            ]
            &&& r.via@ == "(via "@ + results.engine.program_name() + ")"@
        }),
        is_report_of(*results, cols, r),
{
    let all = collect_lines(&results.gists);
    let number_width: usize = widest_number(&all);
    let width: Option<usize> = match cols {
        Some(c) => {
            let c: usize = c as usize;
            Some(
                if c > number_width + 27 {
                    c - (number_width + 7)
                } else {
                    20
                },
            )
        },
        None => None,
    };
    let mut lines: Vec<ReportLine> = Vec::new();
    let gists = &results.gists;
    let mut i: usize = 0;
    assert(report_views(lines@) == gists_report(gists@.take(0), number_width as int, width));
    while i < gists.len()
        invariant
            can_show(all_lines(gists@)),
            i <= gists@.len(),
            report_views(lines@) == gists_report(
                gists@.take(i as int),
                number_width as int,
                width,
            ),
        decreases gists@.len() - i,
    {
        proof {
            lemma_can_show_gist(gists@, i as int);
            assert(gists@.take(i + 1).drop_last() == gists@.take(i as int));
            assert(gists@.take(i + 1).last() == gists@[i as int]);
        }
        push_gist(&mut lines, &gists[i], number_width, width);
        i += 1;
    }
    assert(gists@.take(i as int) == gists@);
    let matches: usize = match count_matches(&all) {
        Some(n) => n,
        None => 0,
    };
    let files: usize = match count_files(gists) {
        Some(n) => n,
        None => 0,
    };
    let totals = vec![
        count(matches, "match", "matches"),
        count(files, "file", "files"),
        count(gists.len(), "gist", "gists"),
    ];
    assert(string_views(totals@) == seq![
        counted(matches as int, "match"@, "matches"@),
        counted(files as int, "file"@, "files"@),
        counted(gists@.len() as int, "gist"@, "gists"@),
    ]);
    let mut via = "(via ".to_string();
    via.append(results.engine.program());
    via.append(")");
    SearchReport { lines, text_width: width, totals, via }
}

proof fn lemma_file_lines(files: Seq<FileMatches>, k: int) -> (r: (int, int))
    requires
        0 <= k < lines_of_files(files).len(),
    ensures
        0 <= r.0 < files.len(),
        0 <= r.1 < files[r.0].lines@.len(),
        lines_of_files(files)[k] == files[r.0].lines@[r.1],
    decreases files.len(),
{
    let init = lines_of_files(files.drop_last());
    if k < init.len() {
        lemma_file_lines(files.drop_last(), k)
    } else {
        (files.len() - 1, k - init.len())
    }
}

proof fn lemma_gist_lines(gists: Seq<GistMatches>, k: int) -> (r: (int, int, int))
    requires
        0 <= k < all_lines(gists).len(),
    ensures
        0 <= r.0 < gists.len(),
        0 <= r.1 < gists[r.0].files@.len(),
        0 <= r.2 < gists[r.0].files@[r.1].lines@.len(),
        all_lines(gists)[k] == gists[r.0].files@[r.1].lines@[r.2],
    decreases gists.len(),
{
    let init = all_lines(gists.drop_last());
    if k < init.len() {
        lemma_gist_lines(gists.drop_last(), k)
    } else {
        let (j, l) = lemma_file_lines(gists.last().files@, k - init.len());
        (gists.len() - 1, j, l)
    }
}

/// What a search finds can be shown.
pub proof fn law_search_results_can_be_shown(
    engine: Engine,
    stdout: Seq<u8>,
    gists: Seq<GistMatches>,
)
    requires
        are_gists_of(hits_of(engine, stdout), gist_views(gists)),
    ensures
        can_show(all_lines(gists)),
{
    let hits = hits_of(engine, stdout);
    let views = gist_views(gists);
    let lines = all_lines(gists);
    assert forall|k: int| 0 <= k < lines.len() implies segments_of(
        (#[trigger] lines[k])@,
    ) is Some by {
        let (i, j, l) = lemma_gist_lines(gists, k);
        let line = lines[k]@;
        assert(views[i] == gists[i]@);
        assert(views[i].files[j] == gists[i].files@[j]@);
        assert(views[i].files[j].lines[l] == line);
        assert(views[i].files[j].lines.contains(line));
        law_every_listed_line_is_a_hit(hits, views, i, j, line);
        let h = choose|h: HitView| #[trigger]
            hits.contains(h) && h.line == line && folder_and_file(h.path) == Some(
                (views[i].folder, views[i].files[j].filename),
            );
        law_reported_lines_are_well_formed(engine, stdout, h);
        law_line_match_can_be_highlighted(line);
    }
}

/// How many rows the files before the one at `j` take: one for the name and one
/// for each line.
pub open spec fn rows_before_file(files: Seq<FileMatches>, j: int) -> int
    decreases j,
{
    if j <= 0 {
        0
    } else {
        rows_before_file(files, j - 1) + 1 + files[j - 1].lines@.len()
    }
}

/// How many rows the title and the URL of a gist take.
pub open spec fn head_rows(gist: GistMatches) -> int {
    if gist.url is Some {
        2
    } else {
        1
    }
}

/// How many rows the gists before the one at `i` take: the title and the URL, the
/// files, and an empty one.
pub open spec fn rows_before_gist(gists: Seq<GistMatches>, i: int) -> int
    decreases i,
{
    if i <= 0 {
        0
    } else {
        rows_before_gist(gists, i - 1) + head_rows(gists[i - 1]) + rows_before_file(
            gists[i - 1].files@,
            gists[i - 1].files@.len() as int,
        ) + 1
    }
}

/// The row in which the name of the file at `j` of the gist at `i` stands.
pub open spec fn file_row(gists: Seq<GistMatches>, i: int, j: int) -> int {
    rows_before_gist(gists, i) + head_rows(gists[i]) + rows_before_file(gists[i].files@, j)
}

proof fn lemma_rows_of_init(files: Seq<FileMatches>, j: int)
    requires
        0 <= j < files.len(),
    ensures
        rows_before_file(files.drop_last(), j) == rows_before_file(files, j),
        rows_before_file(files, j) >= 0,
    decreases j,
{
    if j > 0 {
        lemma_rows_of_init(files, j - 1);
    }
}

proof fn lemma_files_rows(files: Seq<FileMatches>, number_width: int, width: Option<usize>)
    ensures
        ({
            let rows = files_report(files, number_width, width);
            &&& rows.len() == rows_before_file(files, files.len() as int)
            &&& forall|j: int|
                0 <= j < files.len() ==> 0 <= rows_before_file(files, j) < rows.len()
                    && rows[#[trigger] rows_before_file(files, j)] == ReportView::File(
                    files[j].filename@,
                )
            &&& forall|j: int, k: int|
                0 <= j < files.len() && 0 <= k < files[j].lines@.len() ==> rows_before_file(
                    files,
                    j,
                ) + 1 + k < rows.len() && rows[rows_before_file(files, j) + 1 + k]
                    == line_report(#[trigger] files[j].lines@[k], number_width, width)
        }),
    decreases files.len(),
{
    let rows = files_report(files, number_width, width);
    if files.len() > 0 {
        let init = files.drop_last();
        let n = init.len() as int;
        let before = files_report(init, number_width, width);
        let last = file_report(files.last(), number_width, width);
        lemma_files_rows(init, number_width, width);
        lemma_rows_of_init(files, n);
        assert(rows == before + last);
        assert forall|j: int| 0 <= j < files.len() implies 0 <= rows_before_file(files, j)
            < rows.len() && rows[#[trigger] rows_before_file(files, j)] == ReportView::File(
            files[j].filename@,
        ) by {
            lemma_rows_of_init(files, j);
            if j < n {
                assert(before[rows_before_file(init, j)] == ReportView::File(init[j].filename@));
            } else {
                assert(rows[before.len() as int] == last[0]);
            }
        }
        assert forall|j: int, k: int|
            0 <= j < files.len() && 0 <= k < files[j].lines@.len() implies rows_before_file(
            files,
            j,
        ) + 1 + k < rows.len() && rows[rows_before_file(files, j) + 1 + k] == line_report(
            #[trigger] files[j].lines@[k],
            number_width,
            width,
        ) by {
            lemma_rows_of_init(files, j);
            if j < n {
                assert(init[j] == files[j]);
                assert(before[rows_before_file(init, j) + 1 + k] == line_report(
                    init[j].lines@[k],
                    number_width,
                    width,
                ));
            } else {
                assert(rows[before.len() + 1 + k] == last[1 + k]);
            }
        }
    }
}

proof fn lemma_gist_rows_of_init(gists: Seq<GistMatches>, i: int)
    requires
        0 <= i < gists.len(),
    ensures
        rows_before_gist(gists.drop_last(), i) == rows_before_gist(gists, i),
    decreases i,
{
    if i > 0 {
        lemma_gist_rows_of_init(gists, i - 1);
    }
}

proof fn lemma_rows_of_gist(
    gists: Seq<GistMatches>,
    number_width: int,
    width: Option<usize>,
    i: int,
)
    requires
        0 <= i < gists.len(),
    ensures
        ({
            let rows = gists_report(gists, number_width, width);
            let one = gist_report(gists[i], number_width, width);
            let p = rows_before_gist(gists, i);
            &&& gists_report(gists, number_width, width).len() == rows_before_gist(
                gists,
                gists.len() as int,
            )
            &&& 0 <= p
            &&& p + one.len() <= rows.len()
            &&& rows.subrange(p, p + one.len()) == one
            &&& one.len() == head_rows(gists[i]) + rows_before_file(
                gists[i].files@,
                gists[i].files@.len() as int,
            ) + 1
        }),
    decreases gists.len(),
{
    let init = gists.drop_last();
    let n = init.len() as int;
    let rows = gists_report(gists, number_width, width);
    let before = gists_report(init, number_width, width);
    let last = gist_report(gists.last(), number_width, width);
    lemma_files_rows(gists[i].files@, number_width, width);
    lemma_files_rows(gists.last().files@, number_width, width);
    lemma_gist_rows_of_init(gists, n);
    lemma_gist_rows_of_init(gists, i);
    if n > 0 {
        lemma_rows_of_gist(init, number_width, width, if i < n {
            i
        } else {
            0
        });
    }
    assert(before.len() == rows_before_gist(init, n));
    assert(rows == before + last);
    if i < n {
        let one = gist_report(gists[i], number_width, width);
        let p = rows_before_gist(gists, i);
        assert(rows.subrange(p, p + one.len()) == before.subrange(p, p + one.len()));
    } else {
        assert(rows.subrange(before.len() as int, rows.len() as int) == last);
    }
}

/// Every gist, every file of it and every line of that is printed, in this order
/// and nothing else: the title of the gist, its URL if it has one, then for each
/// file its name, followed by each of its lines, and an empty row in the end.
pub proof fn law_everything_is_printed(
    gists: Seq<GistMatches>,
    number_width: int,
    width: Option<usize>,
    i: int,
)
    requires
        0 <= i < gists.len(),
    ensures
        ({
            let rows = gists_report(gists, number_width, width);
            let gist = gists[i];
            let p = rows_before_gist(gists, i);
            let end = file_row(gists, i, gist.files@.len() as int);
            &&& rows.len() == rows_before_gist(gists, gists.len() as int)
            &&& 0 <= p && end < rows.len()
            &&& rows[p] == ReportView::Title(
                GistMatches::title_of(gist.description, gist.folder@),
            )
            &&& gist.url is Some ==> rows[p + 1] == ReportView::Url((gist.url->0)@)
            &&& forall|j: int|
                0 <= j < gist.files@.len() ==> rows[#[trigger] file_row(gists, i, j)]
                    == ReportView::File(gist.files@[j].filename@)
            &&& forall|j: int, k: int|
                0 <= j < gist.files@.len() && 0 <= k < gist.files@[j].lines@.len() ==> {
                    let line = #[trigger] gist.files@[j].lines@[k];
                    rows[file_row(gists, i, j) + 1 + k] == (ReportView::Match {
                        number: right_aligned(decimal(line.line_number as nat), number_width),
                        segments: scrolled(segments_of(line@)->0, width),
                    })
                }
            &&& rows[end] == ReportView::Blank
        }),
{
    let rows = gists_report(gists, number_width, width);
    let gist = gists[i];
    let p = rows_before_gist(gists, i);
    let one = gist_report(gist, number_width, width);
    let files = gist.files@;
    let inner = files_report(files, number_width, width);
    let h = head_rows(gist);
    lemma_rows_of_gist(gists, number_width, width, i);
    lemma_files_rows(files, number_width, width);
    assert(gist_head(gist).len() == h);
    assert forall|x: int| 0 <= x < one.len() implies rows[p + x] == #[trigger] one[x] by {
        assert(rows.subrange(p, p + one.len())[x] == rows[p + x]);
    }
    assert(rows[p] == one[0]);
    if gist.url is Some {
        assert(rows[p + 1] == one[1]);
    }
    assert forall|x: int| 0 <= x < inner.len() implies one[h + x] == #[trigger] inner[x] by {}
    assert forall|j: int| 0 <= j < files.len() implies rows[#[trigger] file_row(gists, i, j)]
        == ReportView::File(files[j].filename@) by {
        let x = rows_before_file(files, j);
        assert(inner[x] == one[h + x]);
        assert(rows[p + (h + x)] == one[h + x]);
    }
    assert forall|j: int, k: int| 0 <= j < files.len() && 0 <= k < files[j].lines@.len() implies {
        let line = #[trigger] files[j].lines@[k];
        rows[file_row(gists, i, j) + 1 + k] == (ReportView::Match {
            number: right_aligned(decimal(line.line_number as nat), number_width),
            segments: scrolled(segments_of(line@)->0, width),
        })
    } by {
        let x = rows_before_file(files, j) + 1 + k;
        assert(inner[x] == line_report(files[j].lines@[k], number_width, width));
        assert(inner[x] == one[h + x]);
        assert(rows[p + (h + x)] == one[h + x]);
        lemma_rows_of_init(files, j);
    }
    assert(one[h + inner.len()] == ReportView::Blank);
    assert(rows[p + (h + inner.len())] == one[h + inner.len()]);
}

/// How many of `rows` are the names of files.
pub open spec fn file_rows(rows: Seq<ReportView>) -> nat
    decreases rows.len(),
{
    if rows.len() == 0 {
        0
    } else {
        file_rows(rows.drop_last()) + if rows.last() is File {
            1nat
        } else {
            0
        }
    }
}

/// How many of `rows` are matching lines.
pub open spec fn match_rows(rows: Seq<ReportView>) -> nat
    decreases rows.len(),
{
    if rows.len() == 0 {
        0
    } else {
        match_rows(rows.drop_last()) + if rows.last() is Match {
            1nat
        } else {
            0
        }
    }
}

proof fn lemma_row_counts_add(a: Seq<ReportView>, b: Seq<ReportView>)
    ensures
        file_rows(a + b) == file_rows(a) + file_rows(b),
        match_rows(a + b) == match_rows(a) + match_rows(b),
    decreases b.len(),
{
    if b.len() == 0 {
        assert(a + b == a);
    } else {
        lemma_row_counts_add(a, b.drop_last());
        assert((a + b).drop_last() == a + b.drop_last());
    }
}

proof fn lemma_line_rows(lines: Seq<LineMatch>, number_width: int, width: Option<usize>)
    ensures
        file_rows(lines.map_values(|l: LineMatch| line_report(l, number_width, width))) == 0,
        match_rows(lines.map_values(|l: LineMatch| line_report(l, number_width, width)))
            == lines.len(),
    decreases lines.len(),
{
    let f = |l: LineMatch| line_report(l, number_width, width);
    if lines.len() > 0 {
        lemma_line_rows(lines.drop_last(), number_width, width);
        assert(lines.map_values(f).drop_last() == lines.drop_last().map_values(f));
    }
}

proof fn lemma_file_row_counts(files: Seq<FileMatches>, number_width: int, width: Option<usize>)
    ensures
        file_rows(files_report(files, number_width, width)) == files.len(),
        match_rows(files_report(files, number_width, width)) == lines_of_files(files).len(),
    decreases files.len(),
{
    if files.len() > 0 {
        let init = files_report(files.drop_last(), number_width, width);
        let last = files.last();
        let head = seq![ReportView::File(last.filename@)];
        let lines = last.lines@.map_values(|l: LineMatch| line_report(l, number_width, width));
        lemma_file_row_counts(files.drop_last(), number_width, width);
        lemma_line_rows(last.lines@, number_width, width);
        lemma_row_counts_add(head, lines);
        lemma_row_counts_add(init, head + lines);
        reveal_with_fuel(file_rows, 2);
        reveal_with_fuel(match_rows, 2);
        assert(head.drop_last().len() == 0);
        assert(file_rows(head) == 1 && match_rows(head) == 0);
    }
}

/// The totals are those of what is printed: as many files as there are rows with
/// the name of one, and as many lines as there are rows with a match.
pub proof fn law_totals_are_of_what_is_printed(
    gists: Seq<GistMatches>,
    number_width: int,
    width: Option<usize>,
)
    ensures
        file_rows(gists_report(gists, number_width, width)) == file_total(gists),
        match_rows(gists_report(gists, number_width, width)) == all_lines(gists).len(),
    decreases gists.len(),
{
    if gists.len() > 0 {
        let init = gists_report(gists.drop_last(), number_width, width);
        let gist = gists.last();
        let head = gist_head(gist);
        let files = files_report(gist.files@, number_width, width);
        let end = seq![ReportView::Blank];
        law_totals_are_of_what_is_printed(gists.drop_last(), number_width, width);
        lemma_file_row_counts(gist.files@, number_width, width);
        lemma_row_counts_add(head, files);
        lemma_row_counts_add(head + files, end);
        lemma_row_counts_add(init, head + files + end);
        reveal_with_fuel(file_rows, 3);
        reveal_with_fuel(match_rows, 3);
        assert(end.drop_last().len() == 0);
        assert(head.len() == 2 ==> head.drop_last().drop_last().len() == 0);
        assert(head.len() == 2 ==> head.drop_last().last() == head[0]);
        assert(head.len() == 1 ==> head.drop_last().len() == 0);
        assert(file_rows(head) == 0 && match_rows(head) == 0);
    }
}

/// Each line counts with all of its matches, and with one where none could be
/// located; lines of two lists count as one list.
pub proof fn law_matches_add_up(a: Seq<LineMatch>, b: Seq<LineMatch>, line: LineMatch)
    ensures
        match_total(a + b) == match_total(a) + match_total(b),
        match_total(seq![line]) >= 1,
        match_total(seq![line]) >= line.ranges@.len(),
        match_total(seq![line]) == 1 || match_total(seq![line]) == line.ranges@.len(),
        match_total(seq![]) == 0,
    decreases b.len(),
{
    reveal_with_fuel(match_total, 2);
    assert(seq![line].drop_last().len() == 0);
    assert(match_total(seq![]) == 0);
    if b.len() == 0 {
        assert(a + b == a);
    } else {
        law_matches_add_up(a, b.drop_last(), line);
        assert((a + b).drop_last() == a + b.drop_last());
    }
}

/// All lines of all files of all gists are counted and measured, in their order.
pub proof fn law_all_lines_are_all_there_are(gists: Seq<GistMatches>, i: int, j: int, k: int)
    requires
        0 <= i < gists.len(),
        0 <= j < gists[i].files@.len(),
        0 <= k < gists[i].files@[j].lines@.len(),
    ensures
        all_lines(gists).contains(gists[i].files@[j].lines@[k]),
    decreases gists.len(),
{
    let line = gists[i].files@[j].lines@[k];
    let init = all_lines(gists.drop_last());
    let last = lines_of_files(gists.last().files@);
    if i < gists.len() - 1 {
        law_all_lines_are_all_there_are(gists.drop_last(), i, j, k);
        let x = choose|x: int| 0 <= x < init.len() && init[x] == line;
        assert(all_lines(gists)[x] == line);
    } else {
        lemma_lines_have(gists.last().files@, j, k);
        let x = choose|x: int| 0 <= x < last.len() && last[x] == line;
        assert(all_lines(gists)[init.len() + x] == line);
    }
}

proof fn lemma_lines_have(files: Seq<FileMatches>, j: int, k: int)
    requires
        0 <= j < files.len(),
        0 <= k < files[j].lines@.len(),
    ensures
        lines_of_files(files).contains(files[j].lines@[k]),
    decreases files.len(),
{
    let line = files[j].lines@[k];
    let init = lines_of_files(files.drop_last());
    if j < files.len() - 1 {
        lemma_lines_have(files.drop_last(), j, k);
        let x = choose|x: int| 0 <= x < init.len() && init[x] == line;
        assert(lines_of_files(files)[x] == line);
    } else {
        assert(lines_of_files(files)[init.len() + k] == line);
    }
}

/// The gutter is as wide as the widest line number, and no wider: every number
/// fits, and one of them fills it, unless there are no lines.
pub proof fn law_gutter_fits_the_numbers(lines: Seq<LineMatch>)
    ensures
        forall|i: int|
            0 <= i < lines.len() ==> decimal((#[trigger] lines[i]).line_number as nat).len()
                <= number_width(lines),
        lines.len() == 0 ==> number_width(lines) == 1,
        lines.len() > 0 ==> exists|i: int|
            0 <= i < lines.len() && decimal((#[trigger] lines[i]).line_number as nat).len()
                == number_width(lines),
    decreases lines.len(),
{
    if lines.len() > 0 {
        let init = lines.drop_last();
        let last = lines.last();
        assert(last == lines[lines.len() - 1]);
        law_gutter_fits_the_numbers(init);
        lemma_decimal_digits(last.line_number as nat);
        assert forall|i: int| 0 <= i < lines.len() implies decimal(
            (#[trigger] lines[i]).line_number as nat,
        ).len() <= number_width(lines) by {
            if i < init.len() {
                assert(init[i] == lines[i]);
            }
        }
        if decimal(last.line_number as nat).len() < number_width(lines) {
            let i = choose|i: int|
                0 <= i < init.len() && decimal((#[trigger] init[i]).line_number as nat).len()
                    == number_width(init);
            assert(lines[i] == init[i]);
        }
    }
}

/// The text of a line takes what the gutter leaves of the terminal: a match line
/// is an indent of four, the number, a bar between two spaces, and the text. On a
/// narrow terminal it still takes twenty columns, and without one it is not
/// clipped.
pub proof fn law_text_takes_what_the_gutter_leaves(cols: Option<u16>, number_width: nat)
    ensures
        text_width(cols, number_width) is Some <==> cols is Some,
        cols is Some ==> (text_width(cols, number_width)->0) >= 20,
        cols is Some && cols->0 >= 4 + number_width + 3 + 20 ==> 4 + number_width + 3 + (text_width(
            cols,
            number_width,
        )->0) == cols->0,
        cols is Some && cols->0 < 4 + number_width + 3 + 20 ==> (text_width(cols, number_width)->0)
            == 20,
{
}

/// How many of `rows` are the titles of gists.
pub open spec fn title_rows(rows: Seq<ReportView>) -> nat
    decreases rows.len(),
{
    if rows.len() == 0 {
        0
    } else {
        title_rows(rows.drop_last()) + if rows.last() is Title {
            1nat
        } else {
            0
        }
    }
}

proof fn lemma_title_rows_add(a: Seq<ReportView>, b: Seq<ReportView>)
    ensures
        title_rows(a + b) == title_rows(a) + title_rows(b),
    decreases b.len(),
{
    if b.len() == 0 {
        assert(a + b == a);
    } else {
        lemma_title_rows_add(a, b.drop_last());
        assert((a + b).drop_last() == a + b.drop_last());
    }
}

proof fn lemma_no_titles(rows: Seq<ReportView>)
    requires
        forall|i: int| 0 <= i < rows.len() ==> (#[trigger] rows[i]) !is Title,
    ensures
        title_rows(rows) == 0,
    decreases rows.len(),
{
    if rows.len() > 0 {
        let init = rows.drop_last();
        assert forall|i: int| 0 <= i < init.len() implies (#[trigger] init[i]) !is Title by {
            assert(init[i] == rows[i]);
        }
        lemma_no_titles(init);
        assert(rows[rows.len() - 1] !is Title);
    }
}

proof fn lemma_file_titles(files: Seq<FileMatches>, number_width: int, width: Option<usize>)
    ensures
        title_rows(files_report(files, number_width, width)) == 0,
    decreases files.len(),
{
    if files.len() > 0 {
        let init = files_report(files.drop_last(), number_width, width);
        lemma_file_titles(files.drop_last(), number_width, width);
        lemma_no_titles(file_report(files.last(), number_width, width));
        lemma_title_rows_add(init, file_report(files.last(), number_width, width));
    }
}

proof fn lemma_gist_titles(gists: Seq<GistMatches>, number_width: int, width: Option<usize>)
    ensures
        title_rows(gists_report(gists, number_width, width)) == gists.len(),
    decreases gists.len(),
{
    if gists.len() > 0 {
        let gist = gists.last();
        let init = gists_report(gists.drop_last(), number_width, width);
        let inner = files_report(gist.files@, number_width, width);
        let title = seq![
            ReportView::Title(GistMatches::title_of(gist.description, gist.folder@)),
        ];
        let url = gist_head(gist).skip(1);
        let blank = seq![ReportView::Blank];
        lemma_gist_titles(gists.drop_last(), number_width, width);
        lemma_file_titles(gist.files@, number_width, width);
        lemma_no_titles(url);
        lemma_no_titles(blank);
        assert(gist_head(gist) == title + url);
        lemma_title_rows_add(title, url);
        lemma_title_rows_add(gist_head(gist), inner);
        lemma_title_rows_add(gist_head(gist) + inner, blank);
        lemma_title_rows_add(init, gist_report(gist, number_width, width));
        reveal_with_fuel(title_rows, 2);
        assert(title.drop_last().len() == 0);
        assert(title_rows(title) == 1);
    }
}

/// Whether `r` is how `results` are printed on a terminal of `cols` columns, if
/// there is one.
pub open spec fn is_report_of(results: SearchResults, cols: Option<u16>, r: SearchReport) -> bool {
    let lines = all_lines(results.gists@);
    let width = text_width(cols, number_width(lines));
    &&& r.text_width == width
    &&& report_views(r.lines@) == gists_report(results.gists@, number_width(lines) as int, width)
    &&& string_views(r.totals@) == seq![
        counted(match_total(lines) as int, "match"@, "matches"@),
        counted(file_total(results.gists@) as int, "file"@, "files"@),
        counted(results.gists@.len() as int, "gist"@, "gists"@),
    ]
    &&& r.via@ == "(via "@ + results.engine.program_name() + ")"@
}

/// A report says how many matches, files and gists there are: as many files and
/// gists as are printed, and the matches of all lines; and it names the tool.
pub proof fn law_report_says_what_it_prints(
    results: SearchResults,
    cols: Option<u16>,
    r: SearchReport,
)
    requires
        is_report_of(results, cols, r),
    ensures
        ({
            let rows = report_views(r.lines@);
            let totals = string_views(r.totals@);
            &&& totals.len() == 3
            &&& totals[0] == counted(
                match_total(all_lines(results.gists@)) as int,
                "match"@,
                "matches"@,
            )
            &&& totals[1] == counted(file_rows(rows) as int, "file"@, "files"@)
            &&& totals[2] == counted(title_rows(rows) as int, "gist"@, "gists"@)
            &&& title_rows(rows) == results.gists@.len()
            &&& match_rows(rows) == all_lines(results.gists@).len()
            &&& r.text_width is Some <==> cols is Some
            &&& results.engine == Engine::Ripgrep ==> r.via@ == "(via rg)"@
            &&& results.engine == Engine::Grep ==> r.via@ == "(via grep)"@
        }),
{
    let lines = all_lines(results.gists@);
    let width = text_width(cols, number_width(lines));
    law_totals_are_of_what_is_printed(results.gists@, number_width(lines) as int, width);
    lemma_gist_titles(results.gists@, number_width(lines) as int, width);
    reveal_strlit("(via ");
    reveal_strlit(")");
    reveal_strlit("rg");
    reveal_strlit("grep");
    reveal_strlit("(via rg)");
    reveal_strlit("(via grep)");
    assert("(via "@ + "rg"@ + ")"@ == "(via rg)"@);
    assert("(via "@ + "grep"@ + ")"@ == "(via grep)"@);
}

/// What a search finds can be printed, as long as it can be counted.
pub proof fn law_search_results_can_be_reported(
    engine: Engine,
    stdout: Seq<u8>,
    gists: Seq<GistMatches>,
)
    requires
        are_gists_of(hits_of(engine, stdout), gist_views(gists)),
        match_total(all_lines(gists)) <= usize::MAX,
        file_total(gists) <= usize::MAX,
    ensures
        is_reportable(gists),
{
    law_search_results_can_be_shown(engine, stdout, gists);
}

/// What is said of the lines of a report is all of them, and of a match its number
/// and every part.
pub proof fn law_rows_are_all_of_them(lines: Seq<ReportLine>, i: int, k: int)
    requires
        0 <= i < lines.len(),
    ensures
        report_views(lines).len() == lines.len(),
        match (lines[i], report_views(lines)[i]) {
            (ReportLine::Title(a), ReportView::Title(b)) => a@ == b,
            (ReportLine::Url(a), ReportView::Url(b)) => a@ == b,
            (ReportLine::File(a), ReportView::File(b)) => a@ == b,
            (ReportLine::Blank, ReportView::Blank) => true,
            (ReportLine::Match { number, segments }, ReportView::Match { number: n, segments: s })
                => {
                &&& number@ == n
                &&& s.len() == segments@.len()
                &&& 0 <= k < s.len() ==> s[k].0 == segments@[k].0@ && s[k].1 == segments@[k].1
            },
            _ => false,
        },
{
}

} // verus!
