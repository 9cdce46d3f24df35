//! GitHub Gists API client: what it asks for, and what it makes of the
//! answers.
use vstd::prelude::*;
use vstd::string::*;
use vstd::utf8::*;

use crate::model::Gist;
use crate::text::{
    decimal, is_white_space, law_decimal_is_exact, law_trailing_characters_are_skipped,
    law_trimming_leaves_the_core, push_decimal, skip_trailing, trim, trim_end_of, trimmed,
    CharClass, Only,
};

verus! {

/// The root of the public GitHub API.
pub const API_ROOT: &'static str = "https://api.github.com";

/// How the client calls itself.
pub const USER_AGENT: &'static str = "grass/0.1.0";

/// How many gists a page of the list has.
pub const PER_PAGE: u32 = 100;

/// How often a raw download is tried.
pub const RAW_RETRIES: u32 = 3;

/// A header of a request.
#[derive(Debug, Clone, PartialEq, Eq)]
pub struct Header {
    pub name: String,
    pub value: String,
    /// Whether the value is to be kept out of logs.
    pub sensitive: bool,
}

/// What a [`Header`] holds.
#[verifier::ext_equal]
pub struct HeaderView {
    pub name: Seq<char>,
    pub value: Seq<char>,
    pub sensitive: bool,
}

impl View for Header {
    type V = HeaderView;

    open spec fn view(&self) -> HeaderView {
        HeaderView { name: self.name@, value: self.value@, sensitive: self.sensitive }
    }
}

/// What each of `s` holds.
pub open spec fn header_views(s: Seq<Header>) -> Seq<HeaderView> {
    s.map_values(|h: Header| h@)
}

/// Client for the GitHub REST API.
///
/// Sends authenticated requests to `api.github.com`, and unauthenticated ones
/// for raw file downloads. `raw_url`s are capability URLs (they embed a commit
/// SHA) and work without auth even for secret gists, so the token is not sent
/// to `gist.githubusercontent.com`.
#[derive(Debug, Clone, PartialEq, Eq)]
pub struct GitHubClient {
    /// The headers of requests to the API.
    pub api_headers: Vec<Header>,
    /// The headers of raw downloads.
    pub raw_headers: Vec<Header>,
    pub api_root: String,
}

/// The token cannot be sent in a header.
#[derive(Debug, Clone, PartialEq, Eq)]
pub struct InvalidToken;

/// Whether `s` can be the value of a header: it has no control characters but
/// tabs.
pub open spec fn is_header_value(s: Seq<char>) -> bool {
    let bytes = encode_utf8(s);
    forall|i: int|
        0 <= i < bytes.len() ==> (#[trigger] bytes[i] >= 32 && bytes[i] != 127) || bytes[i] == 9
}

/// Calls `reqwest::header::HeaderValue::from_str`, which succeeds if and only
/// if each byte of the text is at least 32 and not 127, or a tab.
#[verifier::external_body]
fn check_header_value(s: &str) -> (r: bool)
    ensures
        r == is_header_value(s@),
{
    reqwest::header::HeaderValue::from_str(s).is_ok()
}

/// The header that names the client.
pub open spec fn agent_header() -> HeaderView {
    HeaderView { name: "user-agent"@, value: USER_AGENT@, sensitive: false }
}

/// The headers of requests to the API.
pub open spec fn api_headers_for(token: Seq<char>) -> Seq<HeaderView> {
    seq![
        agent_header(),
        HeaderView { name: "accept"@, value: "application/vnd.github+json"@, sensitive: false },
        HeaderView { name: "x-github-api-version"@, value: "2022-11-28"@, sensitive: false },
        HeaderView { name: "authorization"@, value: "Bearer "@ + token, sensitive: true },
    ]
}

/// Makes a header.
fn header(name: &str, value: &str, sensitive: bool) -> (r: Header)
    ensures
        r@ == (HeaderView { name: name@, value: value@, sensitive }),
{
    Header { name: name.to_string(), value: value.to_string(), sensitive }
}

impl GitHubClient {
    /// Builds a client against the public GitHub API.
    pub fn new(token: &str) -> (r: Result<GitHubClient, InvalidToken>)
        ensures
            r is Ok <==> is_header_value("Bearer "@ + token@),
            r matches Ok(client) ==> client.is_for(token@, API_ROOT@),
    {
        Self::with_root(token, API_ROOT)
    }

    /// Whether a client sends `token` to `api_root`.
    pub open spec fn is_for(self, token: Seq<char>, api_root: Seq<char>) -> bool {
        &&& header_views(self.api_headers@) == api_headers_for(token)
        &&& header_views(self.raw_headers@) == seq![agent_header()]
        &&& self.api_root@ == skip_trailing(api_root, Only('/'))
    }

    /// Builds a client against a custom API root.
    pub fn with_root(token: &str, api_root: &str) -> (r: Result<GitHubClient, InvalidToken>)
        ensures
            r is Ok <==> is_header_value("Bearer "@ + token@),
            r matches Ok(client) ==> client.is_for(token@, api_root@),
    {
        let mut auth = "Bearer ".to_string();
        auth.append(token);
        if !check_header_value(auth.as_str()) {
            return Err(InvalidToken);
        }
        let api_headers = vec![
            header("user-agent", USER_AGENT, false),
            header("accept", "application/vnd.github+json", false),
            header("x-github-api-version", "2022-11-28", false),
            header("authorization", auth.as_str(), true),
        ];
        let raw_headers = vec![header("user-agent", USER_AGENT, false)];
        assert(header_views(api_headers@) == api_headers_for(token@));
        assert(header_views(raw_headers@) == seq![agent_header()]);
        Ok(
            GitHubClient {
                api_headers,
                raw_headers,
                api_root: trim_end_of(api_root, Only('/')).to_string(),
            },
        )
    }

    /// The URL of a page of the list.
    pub open spec fn page_url_of(self, page: u32) -> Seq<char> {
        self.api_root@ + "/gists?per_page="@ + decimal(PER_PAGE as nat) + "&page="@ + decimal(
            page as nat,
        )
    }

    /// The URL of a page of the list of every gist owned by the authenticated
    /// user.
    pub fn page_url(&self, page: u32) -> (r: String)
        ensures
            r@ == self.page_url_of(page),
    {
        let mut out = self.api_root.clone();
        out.append("/gists?per_page=");
        push_decimal(&mut out, PER_PAGE as u64);
        out.append("&page=");
        push_decimal(&mut out, page as u64);
        out
    }
}

/// What is said when the API answers with an error.
pub fn api_error(status: &str, url: &str, body: &str) -> (r: String)
    ensures
        r@ == "GitHub API returned "@ + status@ + " for "@ + url@ + ": "@ + trimmed(body@),
        r@ == api_error_text(status@, url@, body@),
{
    let mut out = "GitHub API returned ".to_string();
    out.append(status);
    out.append(" for ");
    out.append(url);
    out.append(": ");
    out.append(trim(body));
    out
}

/// The list of gists as far as it is loaded, and the page to load next.
#[derive(Debug)]
pub struct Listing {
    pub gists: Vec<Gist>,
    pub page: u32,
}

impl Listing {
    /// An empty list, of which the first page is to be loaded.
    pub fn new() -> (r: Listing)
        ensures
            r.gists@.len() == 0,
            r.page == 1,
    {
        Listing { gists: Vec::new(), page: 1 }
    }

    /// Adds the gists of a page. Returns whether that was the last one: a page
    /// that is not full. Otherwise the page after it is next.
    pub fn receive(&mut self, batch: Vec<Gist>) -> (r: bool)
        requires
            batch@.len() >= PER_PAGE ==> old(self).page < u32::MAX,
        ensures
            final(self).gists@ == old(self).gists@ + batch@,
            r == (batch@.len() < PER_PAGE),
            final(self).page == if r {
                old(self).page as int
            } else {
                old(self).page + 1
            },
            is_received(*old(self), batch@, *final(self), r),
    {
        let count: usize = batch.len();
        let mut batch = batch;
        self.gists.append(&mut batch);
        if count < PER_PAGE as usize {
            true
        } else {
            self.page = self.page + 1;
            false
        }
    }
}

/// What to do next about a raw download.
#[derive(Debug, Clone, PartialEq, Eq)]
pub enum FetchStep {
    /// Try after waiting this long.
    Attempt { delay_ms: u64 },
    /// Give up, with this error.
    GiveUp(String),
}

/// Decides how to go on with downloading `url` when `failures` attempts have
/// failed, the last one for `cause`.
pub fn fetch_step(url: &str, failures: u32, cause: &str) -> (r: FetchStep)
    ensures
        if failures < RAW_RETRIES {
            r == (FetchStep::Attempt { delay_ms: (400 * failures) as u64 })
        } else {
            r matches FetchStep::GiveUp(text) && text@ == "downloading "@ + url@ + " after "@
                + decimal(RAW_RETRIES as nat) + " attempts: "@ + cause@
        },
        is_fetch_step(url@, failures, cause@, r),
{
    if failures < RAW_RETRIES {
        FetchStep::Attempt { delay_ms: 400 * failures as u64 }
    } else {
        let mut out = "downloading ".to_string();
        out.append(url);
        out.append(" after ");
        push_decimal(&mut out, RAW_RETRIES as u64);
        out.append(" attempts: ");
        out.append(cause);
        FetchStep::GiveUp(out)
    }
}

/// The token is never sent along with a raw download.
pub proof fn law_raw_downloads_carry_no_token(
    client: GitHubClient,
    token: Seq<char>,
    api_root: Seq<char>,
)
    requires
        client.is_for(token, api_root),
    ensures
        forall|i: int|
            0 <= i < header_views(client.raw_headers@).len() ==> (#[trigger] header_views(
                client.raw_headers@,
            )[i]).name != "authorization"@,
{
    reveal_strlit("authorization");
    reveal_strlit("user-agent");
    assert("authorization"@.len() == 13 && "user-agent"@.len() == 10);
}

/// All gists of `pages`, one page behind the other.
pub open spec fn all_of(pages: Seq<Seq<Gist>>) -> Seq<Gist>
    decreases pages.len(),
{
    if pages.len() == 0 {
        seq![]
    } else {
        all_of(pages.drop_last()) + pages.last()
    }
}

/// Whether `before` is followed by `after` on receiving `batch`, and `done`
/// says whether it was the last page.
pub open spec fn is_received(
    before: Listing,
    batch: Seq<Gist>,
    after: Listing,
    done: bool,
) -> bool {
    &&& after.gists@ == before.gists@ + batch
    &&& done == (batch.len() < PER_PAGE)
    &&& after.page == if done {
        before.page as int
    } else {
        before.page + 1
    }
}

/// Listing loads the pages in order, each once, up to the first that is not
/// full, and ends with the gists of all of them.
pub proof fn law_listing_loads_every_page(
    pages: Seq<Seq<Gist>>,
    states: Seq<Listing>,
    done: Seq<bool>,
)
    requires
        pages.len() > 0,
        states.len() == pages.len() + 1,
        done.len() == pages.len(),
        states[0].gists@.len() == 0,
        states[0].page == 1,
        forall|k: int|
            0 <= k < pages.len() ==> is_received(
                #[trigger] states[k],
                pages[k],
                states[k + 1],
                done[k],
            ),
        forall|k: int| 0 <= k < pages.len() - 1 ==> (#[trigger] pages[k]).len() >= PER_PAGE,
    ensures
        states.last().gists@ == all_of(pages),
        forall|k: int| 0 <= k < pages.len() ==> (#[trigger] states[k]).page == k + 1,
        done.last() == (pages.last().len() < PER_PAGE),
        forall|k: int| 0 <= k < pages.len() - 1 ==> !#[trigger] done[k],
    decreases pages.len(),
{
    let n = pages.len() - 1;
    assert(is_received(states[n], pages[n], states[n + 1], done[n]));
    if n > 0 {
        let init = pages.drop_last();
        let s = states.drop_last();
        let d = done.drop_last();
        assert forall|k: int| 0 <= k < init.len() implies is_received(
            #[trigger] s[k],
            init[k],
            s[k + 1],
            d[k],
        ) by {
            assert(is_received(states[k], pages[k], states[k + 1], done[k]));
        }
        assert forall|k: int| 0 <= k < init.len() - 1 implies (#[trigger] init[k]).len()
            >= PER_PAGE by {
            assert(pages[k].len() >= PER_PAGE);
        }
        law_listing_loads_every_page(init, s, d);
        assert(s.last() == states[n]);
        assert(pages[n - 1].len() >= PER_PAGE);
        assert(is_received(states[n - 1], pages[n - 1], states[n], done[n - 1]));
        assert forall|k: int| 0 <= k < pages.len() implies (#[trigger] states[k]).page == k + 1 by {
            if k < n {
                assert(s[k].page == k + 1);
            } else {
                assert(s[n - 1].page == n);
            }
        }
        assert forall|k: int| 0 <= k < pages.len() - 1 implies !#[trigger] done[k] by {
            assert(is_received(states[k], pages[k], states[k + 1], done[k]));
            assert(pages[k].len() >= PER_PAGE);
        }
    } else {
        reveal_with_fuel(all_of, 2);
        assert(states[0].gists@ == Seq::<Gist>::empty());
        assert(states.last() == states[1]);
        assert(states.last().gists@ == all_of(pages));
    }
}

/// Requests to the API carry the token, as a bearer token that is kept out of
/// logs, and ask for the media type and version that the client reads.
pub proof fn law_api_requests_carry_the_token(
    client: GitHubClient,
    token: Seq<char>,
    api_root: Seq<char>,
    i: int,
)
    requires
        client.is_for(token, api_root),
    ensures
        header_views(client.api_headers@).contains(
            HeaderView { name: "authorization"@, value: "Bearer "@ + token, sensitive: true },
        ),
        0 <= i < client.api_headers@.len() && client.api_headers@[i].name@ == "authorization"@
            ==> client.api_headers@[i].value@ == "Bearer "@ + token
            && client.api_headers@[i].sensitive,
        header_views(client.api_headers@).contains(
            HeaderView { name: "accept"@, value: "application/vnd.github+json"@, sensitive: false },
        ),
        header_views(client.api_headers@).contains(
            HeaderView { name: "x-github-api-version"@, value: "2022-11-28"@, sensitive: false },
        ),
        header_views(client.api_headers@).contains(agent_header()),
        header_views(client.raw_headers@).contains(agent_header()),
        client.raw_headers@.len() == 1,
{
    reveal_strlit("authorization");
    reveal_strlit("user-agent");
    reveal_strlit("accept");
    reveal_strlit("x-github-api-version");
    let hs = header_views(client.api_headers@);
    assert(hs == api_headers_for(token));
    assert(hs[0] == agent_header());
    assert(hs[1].name == "accept"@);
    assert(hs[2].name == "x-github-api-version"@);
    assert(hs[3].name == "authorization"@);
    assert("authorization"@.len() == 13 && "user-agent"@.len() == 10 && "accept"@.len() == 6
        && "x-github-api-version"@.len() == 20);
    if 0 <= i < client.api_headers@.len() {
        assert(hs[i] == client.api_headers@[i]@);
        assert(hs.len() == 4);
        assert(i == 0 || i == 1 || i == 2 || i == 3);
    }
    assert(header_views(client.raw_headers@)[0] == agent_header());
    assert(header_views(client.raw_headers@).len() == client.raw_headers@.len());
}

/// A client asks the root that it was given, however many slashes that ends with.
pub proof fn law_slashes_behind_the_root_do_not_matter(
    client: GitHubClient,
    token: Seq<char>,
    root: Seq<char>,
    slashes: Seq<char>,
)
    requires
        root.len() > 0 ==> root.last() != '/',
        forall|i: int| 0 <= i < slashes.len() ==> #[trigger] slashes[i] == '/',
        client.is_for(token, root + slashes),
    ensures
        client.api_root@ == root,
{
    let whole = root + slashes;
    law_trailing_characters_are_skipped(whole, Only('/'));
    let r = skip_trailing(whole, Only('/'));
    if r.len() > root.len() {
        assert(r.last() == slashes[r.len() - 1 - root.len()]);
    }
    if r.len() < root.len() {
        assert(Only('/').has(whole[root.len() - 1]));
        assert(whole[root.len() - 1] == root.last());
    }
    assert(r == root);
}

/// Each page has a URL of its own, under the root, that asks for a hundred gists.
pub proof fn law_each_page_has_its_url(client: GitHubClient, page: u32, other: u32)
    ensures
        client.page_url_of(page) == client.api_root@ + "/gists?per_page=100&page="@ + decimal(
            page as nat,
        ),
        client.page_url_of(page) == client.page_url_of(other) <==> page == other,
{
    reveal_strlit("/gists?per_page=");
    reveal_strlit("&page=");
    reveal_strlit("/gists?per_page=100&page=");
    reveal_with_fuel(decimal, 4);
    assert(decimal(1) == seq!['1']);
    assert(decimal(10) == seq!['1', '0']);
    assert(decimal(100) == seq!['1', '0', '0']);
    assert("/gists?per_page="@ + seq!['1', '0', '0'] + "&page="@ == "/gists?per_page=100&page="@);
    let lead = client.api_root@ + "/gists?per_page=100&page="@;
    let a = client.page_url_of(page);
    let b = client.page_url_of(other);
    assert(a == lead + decimal(page as nat));
    assert(b == lead + decimal(other as nat));
    assert(a.skip(lead.len() as int) == decimal(page as nat));
    assert(b.skip(lead.len() as int) == decimal(other as nat));
    law_decimal_is_exact(page as nat, other as nat);
}

/// Whether `step` is how to go on with downloading `url` when `failures` attempts
/// have failed, the last one for `cause`.
pub open spec fn is_fetch_step(
    url: Seq<char>,
    failures: u32,
    cause: Seq<char>,
    step: FetchStep,
) -> bool {
    if failures < RAW_RETRIES {
        step == (FetchStep::Attempt { delay_ms: (400 * failures) as u64 })
    } else {
        step matches FetchStep::GiveUp(text) && text@ == "downloading "@ + url + " after "@
            + decimal(RAW_RETRIES as nat) + " attempts: "@ + cause
    }
}

/// A download is tried three times: at once, and again after waits that grow by
/// the same time. After that it is given up, and the error says what was
/// downloaded and why it failed last.
pub proof fn law_download_is_tried_three_times(
    url: Seq<char>,
    failures: u32,
    cause: Seq<char>,
    step: FetchStep,
    next_cause: Seq<char>,
    next: FetchStep,
)
    requires
        failures < u32::MAX,
        is_fetch_step(url, failures, cause, step),
        is_fetch_step(url, (failures + 1) as u32, next_cause, next),
    ensures
        failures == 0 ==> step == (FetchStep::Attempt { delay_ms: 0 }),
        step is Attempt <==> failures < 3,
        step is Attempt && next is Attempt ==> next->delay_ms == step->delay_ms + 400,
        step matches FetchStep::GiveUp(text) ==> {
            &&& ("downloading "@ + url + " after 3 attempts: "@).is_prefix_of(text@)
            &&& cause.is_suffix_of(text@)
            &&& text@.len() == ("downloading "@ + url + " after 3 attempts: "@).len() + cause.len()
        },
{
    if let FetchStep::GiveUp(text) = step {
        reveal_strlit(" after ");
        reveal_strlit(" attempts: ");
        reveal_strlit(" after 3 attempts: ");
        assert(decimal(3) == seq!['3']);
        assert(" after "@ + seq!['3'] + " attempts: "@ == " after 3 attempts: "@);
        let lead = "downloading "@ + url + " after 3 attempts: "@;
        assert(text@ == lead + cause);
        assert(text@.take(lead.len() as int) == lead);
        assert(text@.skip(lead.len() as int) == cause);
    }
}

/// What is said when the API answers `body` with an error.
pub open spec fn api_error_text(status: Seq<char>, url: Seq<char>, body: Seq<char>) -> Seq<char> {
    "GitHub API returned "@ + status + " for "@ + url + ": "@ + trimmed(body)
}

/// An error of the API says the status, the URL and the answer without the white
/// space around it.
pub proof fn law_api_error_quotes_the_answer(
    status: Seq<char>,
    url: Seq<char>,
    lead: Seq<char>,
    core: Seq<char>,
    tail: Seq<char>,
)
    requires
        forall|i: int| 0 <= i < lead.len() ==> is_white_space(#[trigger] lead[i]),
        forall|i: int| 0 <= i < tail.len() ==> is_white_space(#[trigger] tail[i]),
        core.len() > 0 ==> !is_white_space(core[0]) && !is_white_space(core.last()),
    ensures
        api_error_text(status, url, lead + core + tail) == "GitHub API returned "@ + status
            + " for "@ + url + ": "@ + core,
{
    law_trimming_leaves_the_core(lead, core, tail);
}

/// What headers hold is all of them, each with its name, its value and whether that
/// is kept out of logs.
pub proof fn law_headers_are_all_of_them(headers: Seq<Header>, k: int)
    requires
        0 <= k < headers.len(),
    ensures
        header_views(headers).len() == headers.len(),
        header_views(headers)[k].name == headers[k].name@,
        header_views(headers)[k].value == headers[k].value@,
        header_views(headers)[k].sensitive == headers[k].sensitive,
{
}

} // verus!
