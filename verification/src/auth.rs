//! Resolve the GitHub token used for API requests.
use vstd::prelude::*;
use vstd::utf8::*;

use crate::text::{
    from_utf8, is_white_space, law_trimming_leaves_the_core, option_view, trim, trimmed,
};

verus! {

/// Where a token can come from.
#[derive(Debug, Clone, Copy, PartialEq, Eq, Structural)]
pub enum TokenSource {
    /// The `--token` flag.
    Flag,
    /// The `GITHUB_TOKEN` environment variable.
    GithubToken,
    /// The `GH_TOKEN` environment variable.
    GhToken,
    /// `gh auth token` (the GitHub CLI).
    GhCli,
}

/// What to do after a source was asked for a token.
#[derive(Debug, Clone, PartialEq, Eq)]
pub enum TokenStep {
    Found(String),
    /// Ask this source next.
    Ask(TokenSource),
    /// There is no token anywhere.
    Missing,
}

/// What is said when there is no token.
pub const NO_TOKEN: &'static str =
    "no GitHub token found. Provide --token, set GITHUB_TOKEN or GH_TOKEN, or run `gh auth login` (grass falls back to `gh auth token`).";

/// The source to ask after `source`.
pub open spec fn next_source(source: TokenSource) -> Option<TokenSource> {
    match source {
        TokenSource::Flag => Some(TokenSource::GithubToken),
        TokenSource::GithubToken => Some(TokenSource::GhToken),
        TokenSource::GhToken => Some(TokenSource::GhCli),
        TokenSource::GhCli => None,
    }
}

/// A candidate for a token without the white space around it, if anything is
/// left.
pub open spec fn token_in(candidate: Option<Seq<char>>) -> Option<Seq<char>> {
    match candidate {
        Some(s) => if trimmed(s).len() > 0 {
            Some(trimmed(s))
        } else {
            None
        },
        None => None,
    }
}

/// Trims a candidate token, returning `None` if it is blank.
pub fn non_empty(value: String) -> (r: Option<String>)
    ensures
        match r {
            Some(token) => token_in(Some(value@)) == Some(token@),
            None => token_in(Some(value@)) is None,
        },
{
    let t = trim(value.as_str());
    if t.unicode_len() == 0 {
        None
    } else {
        Some(t.to_string())
    }
}

/// Whether `step` is what to do when `source` has given `candidate`.
pub open spec fn is_token_step(
    source: TokenSource,
    candidate: Option<Seq<char>>,
    step: TokenStep,
) -> bool {
    match token_in(candidate) {
        Some(token) => step matches TokenStep::Found(t) && t@ == token,
        None => match next_source(source) {
            Some(next) => step == TokenStep::Ask(next),
            None => step is Missing,
        },
    }
}

/// Resolves a GitHub token using the following precedence:
/// 1. the `--token` flag
/// 2. the `GITHUB_TOKEN` environment variable
/// 3. the `GH_TOKEN` environment variable
/// 4. `gh auth token` (the GitHub CLI)
///
/// Takes what a source gave, beginning with the flag, and returns the token or
/// the source to ask next.
pub fn resolve_token(source: TokenSource, candidate: Option<String>) -> (r: TokenStep)
    ensures
        is_token_step(source, option_view(candidate), r),
{
    if let Some(value) = candidate {
        if let Some(token) = non_empty(value) {
            return TokenStep::Found(token);
        }
    }
    match source {
        TokenSource::Flag => TokenStep::Ask(TokenSource::GithubToken),
        TokenSource::GithubToken => TokenStep::Ask(TokenSource::GhToken),
        TokenSource::GhToken => TokenStep::Ask(TokenSource::GhCli),
        TokenSource::GhCli => TokenStep::Missing,
    }
}

/// The token that the GitHub CLI printed, if it succeeded.
pub open spec fn cli_token(success: bool, stdout: Seq<u8>) -> Option<Seq<char>> {
    if success && valid_utf8(stdout) {
        token_in(Some(decode_utf8(stdout)))
    } else {
        None
    }
}

/// The token that the GitHub CLI (`gh auth token`) printed, if it succeeded.
pub fn gh_auth_token(success: bool, stdout: Vec<u8>) -> (r: Option<String>)
    ensures
        option_view(r) == if success && valid_utf8(stdout@) {
            token_in(Some(decode_utf8(stdout@)))
        } else {
            None
        },
        option_view(r) == cli_token(success, stdout@),
{
    if !success {
        return None;
    }
    match from_utf8(stdout) {
        Some(s) => non_empty(s),
        None => None,
    }
}

/// The sources in the order in which they are asked.
pub open spec fn sources() -> Seq<TokenSource> {
    seq![
        TokenSource::Flag,
        TokenSource::GithubToken,
        TokenSource::GhToken,
        TokenSource::GhCli,
    ]
}

/// The first source whose candidate is not blank gives the token: those before
/// it lead on to the next source, and none after it is asked.
pub proof fn law_first_token_wins(
    candidates: Seq<Option<Seq<char>>>,
    steps: Seq<TokenStep>,
    i: int,
)
    requires
        candidates.len() == 4,
        steps.len() == 4,
        forall|k: int|
            0 <= k < 4 ==> is_token_step(#[trigger] sources()[k], candidates[k], steps[k]),
        0 <= i < 4,
        token_in(candidates[i]) is Some,
        forall|k: int| 0 <= k < i ==> token_in(#[trigger] candidates[k]) is None,
    ensures
        forall|k: int| 0 <= k < i ==> #[trigger] steps[k] == TokenStep::Ask(sources()[k + 1]),
        steps[i] matches TokenStep::Found(t) && t@ == trimmed(candidates[i]->0),
{
    assert(is_token_step(sources()[i], candidates[i], steps[i]));
    assert forall|k: int| 0 <= k < i implies #[trigger] steps[k] == TokenStep::Ask(
        sources()[k + 1],
    ) by {
        assert(is_token_step(sources()[k], candidates[k], steps[k]));
        assert(token_in(candidates[k]) is None);
    }
}

/// There is no token if and only if every candidate is blank or missing.
pub proof fn law_no_token_where_all_are_blank(
    candidates: Seq<Option<Seq<char>>>,
    steps: Seq<TokenStep>,
)
    requires
        candidates.len() == 4,
        steps.len() == 4,
        forall|k: int|
            0 <= k < 4 ==> is_token_step(#[trigger] sources()[k], candidates[k], steps[k]),
    ensures
        (forall|k: int| 0 <= k < 4 ==> token_in(#[trigger] candidates[k]) is None) <==> (forall|
            k: int,
        |
            0 <= k < 4 ==> (#[trigger] steps[k]) !is Found),
        (forall|k: int| 0 <= k < 4 ==> token_in(#[trigger] candidates[k]) is None) ==> steps[3] is
            Missing,
{
    assert(is_token_step(sources()[0], candidates[0], steps[0]));
    assert(is_token_step(sources()[1], candidates[1], steps[1]));
    assert(is_token_step(sources()[2], candidates[2], steps[2]));
    assert(is_token_step(sources()[3], candidates[3], steps[3]));
    if forall|k: int| 0 <= k < 4 ==> token_in(#[trigger] candidates[k]) is None {
        assert(token_in(candidates[0]) is None);
        assert(token_in(candidates[1]) is None);
        assert(token_in(candidates[2]) is None);
        assert(token_in(candidates[3]) is None);
    }
    if forall|k: int| 0 <= k < 4 ==> (#[trigger] steps[k]) !is Found {
        assert(steps[0] !is Found);
        assert(steps[1] !is Found);
        assert(steps[2] !is Found);
        assert(steps[3] !is Found);
    }
}

/// The flag comes first, then `GITHUB_TOKEN`, then `GH_TOKEN`, and the GitHub CLI
/// last.
pub proof fn law_sources_are_asked_in_order()
    ensures
        sources() == seq![
            TokenSource::Flag,
            TokenSource::GithubToken,
            TokenSource::GhToken,
            TokenSource::GhCli,
        ],
        forall|k: int|
            0 <= k < 3 ==> next_source(#[trigger] sources()[k]) == Some(sources()[k + 1]),
        next_source(sources()[3]) is None,
{
}

/// A token is what is left of a candidate without the white space around it; a
/// blank one is none.
pub proof fn law_token_has_no_white_space_around_it(
    lead: Seq<char>,
    core: Seq<char>,
    tail: Seq<char>,
)
    requires
        forall|i: int| 0 <= i < lead.len() ==> is_white_space(#[trigger] lead[i]),
        forall|i: int| 0 <= i < tail.len() ==> is_white_space(#[trigger] tail[i]),
        core.len() > 0 ==> !is_white_space(core[0]) && !is_white_space(core.last()),
    ensures
        core.len() > 0 ==> token_in(Some(lead + core + tail)) == Some(core),
        core.len() == 0 ==> token_in(Some(lead + core + tail)) is None,
        token_in(None) is None,
{
    law_trimming_leaves_the_core(lead, core, tail);
}

/// The token of the GitHub CLI counts where the CLI succeeded and printed text, and
/// is that text without the white space around it.
pub proof fn law_cli_token_is_what_was_printed(
    success: bool,
    lead: Seq<char>,
    core: Seq<char>,
    tail: Seq<char>,
    stdout: Seq<u8>,
)
    requires
        forall|i: int| 0 <= i < lead.len() ==> is_white_space(#[trigger] lead[i]),
        forall|i: int| 0 <= i < tail.len() ==> is_white_space(#[trigger] tail[i]),
        core.len() > 0,
        !is_white_space(core[0]),
        !is_white_space(core.last()),
    ensures
        cli_token(true, encode_utf8(lead + core + tail)) == Some(core),
        cli_token(true, encode_utf8(lead + tail)) is None,
        cli_token(false, stdout) is None,
        !valid_utf8(stdout) ==> cli_token(success, stdout) is None,
{
    let e = Seq::<char>::empty();
    law_token_has_no_white_space_around_it(lead, core, tail);
    law_token_has_no_white_space_around_it(lead, e, tail);
    assert(lead + e + tail == lead + tail);
    encode_utf8_valid_utf8(lead + core + tail);
    encode_utf8_decode_utf8(lead + core + tail);
    encode_utf8_valid_utf8(lead + tail);
    encode_utf8_decode_utf8(lead + tail);
}

} // verus!
