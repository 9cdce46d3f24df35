//! The course of a search: which tool to run, and what comes of it.
use vstd::prelude::*;

use super::group::{
    are_gists_of, folder_and_file, gist_views, group, law_every_hit_is_listed, GistMatches,
};
use super::hits::{grep_hit, grep_hits, hit_views, lemma_grep_hit_wf, parse_grep, Hit, HitView};
use super::rg::{lemma_rg_hit_wf, parse_rg, rg_hit, rg_hits};
use super::tool::{command, command_of, CommandLine, Engine, Query};
use crate::text::{lossy_text, pieces, text_of, trim, trimmed};

verus! {

/// The outcome of a search.
#[derive(Debug)]
pub struct SearchResults {
    pub engine: Engine,
    /// Matches grouped by gist, sorted by folder name.
    pub gists: Vec<GistMatches>,
    /// Diagnostics from a search that failed partway (e.g. an unreadable file)
    /// but still produced matches.
    pub warning: Option<String>,
}

impl SearchResults {
    /// The status to exit with.
    pub open spec fn status(self) -> int {
        if self.gists@.len() == 0 {
            1
        } else {
            0
        }
    }

    /// The status to exit with: 1 (like grep) when nothing matched.
    pub fn exit_code(&self) -> (r: i32)
        ensures
            r == if self.gists@.len() == 0 {
                1int
            } else {
                0
            },
            r == self.status(),
    {
        if self.gists.is_empty() {
            1
        } else {
            0
        }
    }
}

/// Why a search could not be done.
#[derive(Debug, Clone, PartialEq, Eq)]
pub enum SearchError {
    /// There is no directory of gists at the given path.
    NoGists(String),
    /// Neither tool is installed.
    NoTool,
    /// The tool is there but could not be run, for the given reason.
    NotRun(Engine, String),
    /// The tool failed with the given diagnostics.
    Diagnosed(String),
    /// The tool failed without saying why, with the given exit status.
    Failed(Engine, String),
}

impl SearchError {
    /// The wording of an error.
    pub open spec fn words(self) -> Seq<char> {
        match self {
            SearchError::NoGists(dir) => "no gists found at "@ + dir@
                + " — run `grass` to download them first, or pass --output"@,
            SearchError::NoTool => "searching requires ripgrep (`rg`) or `grep` on your PATH"@,
            SearchError::NotRun(engine, reason) => "running "@ + engine.program_name() + ": "@
                + reason@,
            SearchError::Diagnosed(text) => text@,
            SearchError::Failed(engine, status) => engine.program_name() + " failed ("@ + status@
                + ")"@,
        }
    }

    /// The error in words.
    pub fn message(&self) -> (r: String)
        ensures
            r@ == self.words(),
    {
        let mut out = String::new();
        assert(out@ == Seq::<char>::empty());
        match self {
            SearchError::NoGists(dir) => {
                out.append("no gists found at ");
                out.append(dir.as_str());
                out.append(" — run `grass` to download them first, or pass --output");
            },
            SearchError::NoTool => {
                out.append("searching requires ripgrep (`rg`) or `grep` on your PATH");
            },
            SearchError::NotRun(engine, reason) => {
                out.append("running ");
                out.append(engine.program());
                out.append(": ");
                out.append(reason.as_str());
            },
            SearchError::Diagnosed(text) => {
                out.append(text.as_str());
            },
            SearchError::Failed(engine, status) => {
                out.append(engine.program());
                out.append(" failed (");
                out.append(status.as_str());
                out.append(")");
            },
        }
        assert(out@ == self.words());
        out
    }
}

/// What a tool that ran left behind.
#[derive(Debug, Clone, PartialEq, Eq)]
pub struct ToolOutput {
    /// The exit code, if the tool was not ended by a signal.
    pub code: Option<i32>,
    /// The exit status in words.
    pub status: String,
    pub stdout: Vec<u8>,
    pub stderr: Vec<u8>,
}

/// What came of running a tool.
#[derive(Debug, Clone, PartialEq, Eq)]
pub enum ToolRun {
    /// The tool isn't installed.
    Missing,
    /// The tool could not be run, for the given reason.
    NotRun(String),
    Finished(ToolOutput),
}

/// What a search goes by.
#[derive(Debug)]
pub enum SearchEvent {
    /// The search begins, and the gists dir is there or not.
    Begin { is_dir: bool },
    /// A tool was run.
    Ran(Engine, ToolRun),
}

/// What a search does next.
#[derive(Debug)]
pub enum SearchStep {
    /// Run this tool by this command, in the gists dir.
    Execute(Engine, CommandLine),
    Fail(SearchError),
    Done(SearchResults),
}

/// Whether a tool failed. Both tools exit 0 when something matched, 1 when
/// nothing did, and 2 on error, which can still come with matches if only some
/// files failed.
pub open spec fn is_failure(code: Option<i32>) -> bool {
    code != Some(0i32) && code != Some(1i32)
}

/// Whether `r` is what comes of a tool that reported `hits`, ended with `code`
/// and wrote `stderr`. The gists' metadata is not attached yet.
pub open spec fn is_conclusion(
    engine: Engine,
    hits: Seq<HitView>,
    code: Option<i32>,
    status: Seq<char>,
    stderr: Seq<char>,
    r: Result<SearchResults, SearchError>,
) -> bool {
    if is_failure(code) && hits.len() == 0 {
        match r {
            Err(SearchError::Failed(e, s)) => stderr.len() == 0 && e == engine && s@ == status,
            Err(SearchError::Diagnosed(text)) => stderr.len() > 0 && text@ == stderr,
            _ => false,
        }
    } else {
        match r {
            Ok(results) => {
                &&& results.engine == engine
                &&& are_gists_of(hits, gist_views(results.gists@))
                &&& forall|i: int|
                    0 <= i < results.gists@.len() ==> (
                    #[trigger] results.gists@[i]).description is None && results.gists@[i].url
                        is None
                &&& match results.warning {
                    Some(text) => is_failure(code) && stderr.len() > 0 && text@ == stderr,
                    None => !is_failure(code) || stderr.len() == 0,
                }
            },
            Err(_) => false,
        }
    }
}

/// What comes of a tool that reported `hits`, ended with `code` and wrote
/// `stderr`, once the white space around that is gone.
pub fn conclude(
    engine: Engine,
    hits: Vec<Hit>,
    code: Option<i32>,
    status: String,
    stderr: String,
) -> (r: Result<SearchResults, SearchError>)
    ensures
        is_conclusion(engine, hit_views(hits@), code, status@, stderr@, r),
{
    let failed = match code {
        Some(c) => c != 0 && c != 1,
        None => true,
    };
    let silent = stderr.as_str().unicode_len() == 0;
    if failed && hits.len() == 0 {
        if silent {
            return Err(SearchError::Failed(engine, status));
        }
        return Err(SearchError::Diagnosed(stderr));
    }
    let warning = if failed && !silent {
        Some(stderr)
    } else {
        None
    };
    Ok(SearchResults { engine, gists: group(hits), warning })
}

/// The hits that a tool's output lists.
pub open spec fn hits_of(engine: Engine, stdout: Seq<u8>) -> Seq<HitView> {
    match engine {
        Engine::Ripgrep => rg_hits(stdout),
        Engine::Grep => grep_hits(stdout),
    }
}

/// What comes of a tool's output.
fn finish(engine: Engine, output: ToolOutput) -> (r: Result<SearchResults, SearchError>)
    ensures
        is_conclusion(
            engine,
            hits_of(engine, output.stdout@),
            output.code,
            output.status@,
            trimmed(lossy_text(output.stderr@)),
            r,
        ),
{
    let hits = match engine {
        Engine::Ripgrep => parse_rg(output.stdout.as_slice()),
        Engine::Grep => parse_grep(output.stdout.as_slice()),
    };
    let stderr = text_of(output.stderr.as_slice());
    let stderr = trim(stderr.as_str()).to_string();
    conclude(engine, hits, output.code, output.status, stderr)
}

/// Whether `step` is what a search of `dir` for `query` does on `event`. It
/// tries rg first, and grep where rg is not installed.
pub open spec fn is_next_step(
    dir: Seq<char>,
    query: Query,
    event: SearchEvent,
    step: SearchStep,
) -> bool {
    match event {
        SearchEvent::Begin { is_dir } => if is_dir {
            step matches SearchStep::Execute(e, c) && e == Engine::Ripgrep && c@ == command_of(
                e,
                query,
            )
        } else {
            step matches SearchStep::Fail(SearchError::NoGists(d)) && d@ == dir
        },
        SearchEvent::Ran(engine, ToolRun::Missing) => match engine {
            Engine::Ripgrep => step matches SearchStep::Execute(e, c) && e == Engine::Grep && c@
                == command_of(e, query),
            Engine::Grep => step matches SearchStep::Fail(SearchError::NoTool),
        },
        SearchEvent::Ran(engine, ToolRun::NotRun(reason)) => step matches SearchStep::Fail(
            SearchError::NotRun(e, r),
        ) && e == engine && r == reason,
        SearchEvent::Ran(engine, ToolRun::Finished(output)) => {
            let hits = hits_of(engine, output.stdout@);
            let stderr = trimmed(lossy_text(output.stderr@));
            match step {
                SearchStep::Execute(_, _) => false,
                SearchStep::Fail(e) => is_conclusion(
                    engine,
                    hits,
                    output.code,
                    output.status@,
                    stderr,
                    Err(e),
                ),
                SearchStep::Done(r) => is_conclusion(
                    engine,
                    hits,
                    output.code,
                    output.status@,
                    stderr,
                    Ok(r),
                ),
            }
        },
    }
}

/// Searches every gist under `dir` for `query`, step by step: returns what to
/// do on `event`. The search begins with [`SearchEvent::Begin`]; whoever runs
/// a tool as told by [`SearchStep::Execute`] hands back what came of it.
pub fn run(dir: &str, query: &Query, event: SearchEvent) -> (r: SearchStep)
    ensures
        is_next_step(dir@, *query, event, r),
{
    match event {
        SearchEvent::Begin { is_dir } => if is_dir {
            SearchStep::Execute(Engine::Ripgrep, command(Engine::Ripgrep, query))
        } else {
            SearchStep::Fail(SearchError::NoGists(dir.to_string()))
        },
        SearchEvent::Ran(engine, ToolRun::Missing) => match engine {
            Engine::Ripgrep => SearchStep::Execute(Engine::Grep, command(Engine::Grep, query)),
            Engine::Grep => SearchStep::Fail(SearchError::NoTool),
        },
        SearchEvent::Ran(engine, ToolRun::NotRun(reason)) => SearchStep::Fail(
            SearchError::NotRun(engine, reason),
        ),
        SearchEvent::Ran(engine, ToolRun::Finished(output)) => match finish(engine, output) {
            Ok(results) => SearchStep::Done(results),
            Err(e) => SearchStep::Fail(e),
        },
    }
}

/// A tool that failed but still found something gives its matches, with a
/// warning; one that failed and found nothing gives an error.
pub proof fn law_failure_with_matches_is_a_warning(
    engine: Engine,
    hits: Seq<HitView>,
    code: Option<i32>,
    status: Seq<char>,
    stderr: Seq<char>,
    r: Result<SearchResults, SearchError>,
)
    requires
        is_conclusion(engine, hits, code, status, stderr, r),
        is_failure(code),
    ensures
        r is Ok <==> hits.len() > 0,
        r is Ok ==> (r->Ok_0.warning is Some <==> stderr.len() > 0),
{
}

/// Ending with 0 or 1 is a success, whatever the tool wrote to its diagnostics.
pub proof fn law_exit_codes_zero_and_one_succeed(
    engine: Engine,
    hits: Seq<HitView>,
    code: i32,
    status: Seq<char>,
    stderr: Seq<char>,
    r: Result<SearchResults, SearchError>,
)
    requires
        is_conclusion(engine, hits, Some(code), status, stderr, r),
        code == 0 || code == 1,
    ensures
        r is Ok,
        r->Ok_0.warning is None,
        are_gists_of(hits, gist_views(r->Ok_0.gists@)),
{
}

/// The lines that the tools report have ranges that fall on characters of
/// their text.
pub proof fn law_reported_lines_are_well_formed(engine: Engine, stdout: Seq<u8>, h: HitView)
    requires
        hits_of(engine, stdout).contains(h),
    ensures
        h.line.wf(),
{
    let lines = pieces(stdout, 10u8);
    match engine {
        Engine::Ripgrep => {
            let f = |line: Seq<u8>| rg_hit(line);
            lines.lemma_filter_map_contains(f, h);
            let line = choose|line: Seq<u8>| #[trigger] lines.contains(line) && f(line) == Some(h);
            lemma_rg_hit_wf(line);
        },
        Engine::Grep => {
            let f = |line: Seq<u8>|
                if line.len() == 0 {
                    None
                } else {
                    grep_hit(lossy_text(line))
                };
            lines.lemma_filter_map_contains(f, h);
            let line = choose|line: Seq<u8>| #[trigger] lines.contains(line) && f(line) == Some(h);
            lemma_grep_hit_wf(lossy_text(line));
        },
    }
}

/// `grep` is run where ripgrep is not installed and nowhere else, and each tool by
/// the command for the query; a search ends with what a tool found only after one
/// has run.
pub proof fn law_grep_stands_in_for_ripgrep(
    dir: Seq<char>,
    query: Query,
    event: SearchEvent,
    step: SearchStep,
)
    requires
        is_next_step(dir, query, event, step),
    ensures
        event == (SearchEvent::Begin { is_dir: false }) <==> (step matches SearchStep::Fail(
            SearchError::NoGists(_),
        )),
        step matches SearchStep::Fail(SearchError::NoGists(d)) ==> d@ == dir,
        step matches SearchStep::Execute(e, c) ==> c@ == command_of(e, query),
        (step matches SearchStep::Execute(e, _) && e == Engine::Ripgrep) <==> event == (
        SearchEvent::Begin { is_dir: true }),
        (step matches SearchStep::Execute(e, _) && e == Engine::Grep) <==> event
            == SearchEvent::Ran(Engine::Ripgrep, ToolRun::Missing),
        (step matches SearchStep::Fail(SearchError::NoTool)) <==> event == SearchEvent::Ran(
            Engine::Grep,
            ToolRun::Missing,
        ),
        step is Done ==> (event matches SearchEvent::Ran(_, ToolRun::Finished(_))),
        (step matches SearchStep::Fail(SearchError::NotRun(_, _))) <==> (
        event matches SearchEvent::Ran(_, ToolRun::NotRun(_))),
        step matches SearchStep::Fail(SearchError::NotRun(e, reason)) ==> event
            == SearchEvent::Ran(e, ToolRun::NotRun(reason)),
{
}

/// What a tool found is read in the tool's own format, and listed whether it ended
/// with 0 or with 1; its name is kept.
pub proof fn law_search_lists_what_was_found(
    dir: Seq<char>,
    query: Query,
    engine: Engine,
    output: ToolOutput,
    step: SearchStep,
)
    requires
        is_next_step(dir, query, SearchEvent::Ran(engine, ToolRun::Finished(output)), step),
    ensures
        output.code == Some(0i32) || output.code == Some(1i32) ==> step is Done,
        step matches SearchStep::Done(r) ==> r.engine == engine && are_gists_of(
            match engine {
                Engine::Ripgrep => rg_hits(output.stdout@),
                Engine::Grep => grep_hits(output.stdout@),
            },
            gist_views(r.gists@),
        ),
        ({
            let hits = match engine {
                Engine::Ripgrep => rg_hits(output.stdout@),
                Engine::Grep => grep_hits(output.stdout@),
            };
            let said = trimmed(lossy_text(output.stderr@));
            output.code != Some(0i32) && output.code != Some(1i32) ==> {
                &&& hits.len() > 0 <==> step is Done
                &&& hits.len() == 0 && said.len() > 0 ==> (step matches SearchStep::Fail(
                    SearchError::Diagnosed(text),
                ) && text@ == said)
                &&& hits.len() == 0 && said.len() == 0 ==> (step matches SearchStep::Fail(
                    SearchError::Failed(e, status),
                ) && e == engine && status@ == output.status@)
                &&& hits.len() > 0 && said.len() > 0 ==> ((step->Done_0).warning matches Some(text)
                    && text@ == said)
            }
        }),
{
}

/// Ending with anything but 0 or 1 is a failure. With matches it is a warning, and
/// without any an error: the tool's diagnostics, or else its exit status.
pub proof fn law_other_exit_codes_fail(
    engine: Engine,
    hits: Seq<HitView>,
    code: Option<i32>,
    status: Seq<char>,
    stderr: Seq<char>,
    r: Result<SearchResults, SearchError>,
)
    requires
        is_conclusion(engine, hits, code, status, stderr, r),
        code != Some(0i32),
        code != Some(1i32),
    ensures
        hits.len() == 0 && stderr.len() > 0 ==> (r matches Err(SearchError::Diagnosed(text))
            && text@ == stderr),
        hits.len() == 0 && stderr.len() == 0 ==> (r matches Err(SearchError::Failed(e, s)) && e
            == engine && s@ == status),
        hits.len() > 0 ==> (r matches Ok(results) && results.engine == engine && are_gists_of(
            hits,
            gist_views(results.gists@),
        )),
        hits.len() > 0 && stderr.len() > 0 ==> (r->Ok_0.warning matches Some(text) && text@
            == stderr),
        hits.len() > 0 && stderr.len() == 0 ==> r->Ok_0.warning is None,
{
}

/// An error says what it is about: the directory, the tool and the reason, or the
/// tool's own words.
pub proof fn law_error_says_what_it_is_about(e: SearchError)
    ensures
        e matches SearchError::NoGists(dir) ==> ("no gists found at "@ + dir@).is_prefix_of(
            e.words(),
        ),
        e matches SearchError::NotRun(engine, reason) ==> reason@.is_suffix_of(e.words()) && (
        "running "@ + engine.program_name()).is_prefix_of(e.words()),
        e matches SearchError::Diagnosed(text) ==> e.words() == text@,
        e matches SearchError::Failed(engine, status) ==> (engine.program_name() + " failed ("@
            + status@).is_prefix_of(e.words()),
{
    let w = e.words();
    match e {
        SearchError::NoGists(dir) => {
            let p = "no gists found at "@ + dir@;
            assert(w.take(p.len() as int) == p);
        },
        SearchError::NotRun(engine, reason) => {
            let p = "running "@ + engine.program_name();
            assert(w.take(p.len() as int) == p);
            assert(w.skip(w.len() - reason@.len()) == reason@);
        },
        SearchError::Failed(engine, status) => {
            let p = engine.program_name() + " failed ("@ + status@;
            assert(w.take(p.len() as int) == p);
        },
        _ => {},
    }
}

/// A search ends with 0 if and only if something matched, and with 1 otherwise.
pub proof fn law_status_says_whether_something_matched(r: SearchResults, hits: Seq<HitView>)
    requires
        are_gists_of(hits, gist_views(r.gists@)),
    ensures
        r.status() == 0 <==> r.gists@.len() > 0,
        r.status() == 1 <==> r.gists@.len() == 0,
        (exists|i: int|
            0 <= i < hits.len() && folder_and_file((#[trigger] hits[i]).path) is Some)
            ==> r.status() == 0,
{
    if exists|i: int| 0 <= i < hits.len() && folder_and_file((#[trigger] hits[i]).path) is Some {
        let i = choose|i: int|
            0 <= i < hits.len() && folder_and_file((#[trigger] hits[i]).path) is Some;
        let (folder, filename) = folder_and_file(hits[i].path)->0;
        assert(hits.contains(hits[i]));
        law_every_hit_is_listed(hits, gist_views(r.gists@), hits[i], folder, filename);
        let views = gist_views(r.gists@);
        let (a, b) = choose|a: int, b: int|
            0 <= a < views.len() && 0 <= b < views[a].files.len() && views[a].folder == folder && (
            #[trigger] views[a].files[b]).filename == filename && views[a].files[b].lines.contains(
                hits[i].line,
            );
        assert(0 <= a < r.gists@.len());
    }
}

} // verus!
