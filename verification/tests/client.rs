use grass::client::{
    api_error, fetch_step, FetchStep, GitHubClient, InvalidToken, Listing, PER_PAGE,
};
use grass::model::Gist;
use grass::strmap::StrMap;

fn gist(id: usize) -> Gist {
    Gist {
        id: id.to_string(),
        description: None,
        public: true,
        created_at: String::new(),
        updated_at: String::new(),
        html_url: None,
        files: StrMap::new(),
    }
}

#[test]
fn requests_are_authenticated() {
    let client = GitHubClient::with_root("testtoken", "http://localhost:1234//").unwrap();
    let headers: Vec<(&str, &str, bool)> = client
        .api_headers
        .iter()
        .map(|h| (h.name.as_str(), h.value.as_str(), h.sensitive))
        .collect();
    assert_eq!(
        headers,
        [
            ("user-agent", "grass/0.1.0", false),
            ("accept", "application/vnd.github+json", false),
            ("x-github-api-version", "2022-11-28", false),
            ("authorization", "Bearer testtoken", true),
        ]
    );
    assert_eq!(client.api_root, "http://localhost:1234");
    assert_eq!(
        client.page_url(3),
        "http://localhost:1234/gists?per_page=100&page=3"
    );
}

#[test]
fn raw_downloads_carry_no_token() {
    let client = GitHubClient::new("testtoken").unwrap();
    assert_eq!(client.raw_headers.len(), 1);
    assert_eq!(client.raw_headers[0].name, "user-agent");
    assert_eq!(
        client.page_url(1),
        "https://api.github.com/gists?per_page=100&page=1"
    );
}

#[test]
fn tokens_must_fit_a_header() {
    assert_eq!(GitHubClient::new("a\nb"), Err(InvalidToken));
    assert_eq!(GitHubClient::new("a\u{7f}"), Err(InvalidToken));
    assert_eq!(GitHubClient::new("\0"), Err(InvalidToken));
    assert!(GitHubClient::new("a\tb~").is_ok());
    assert!(GitHubClient::new("é").is_ok());
    assert!(GitHubClient::new("").is_ok());
}

#[test]
fn listing_ends_with_a_page_that_is_not_full() {
    let full = PER_PAGE as usize;
    let mut listing = Listing::new();
    assert_eq!(listing.page, 1);
    assert!(!listing.receive((0..full).map(gist).collect()));
    assert_eq!(listing.page, 2);
    assert!(!listing.receive((full..2 * full).map(gist).collect()));
    assert_eq!(listing.page, 3);
    assert!(listing.receive((2 * full..2 * full + 7).map(gist).collect()));
    let ids: Vec<String> = listing.gists.iter().map(|g| g.id.clone()).collect();
    let expected: Vec<String> = (0..2 * full + 7).map(|i| i.to_string()).collect();
    assert_eq!(ids, expected);
    assert!(Listing::new().receive(vec![]));
}

#[test]
fn downloads_are_tried_three_times() {
    assert_eq!(fetch_step("u", 0, ""), FetchStep::Attempt { delay_ms: 0 });
    assert_eq!(fetch_step("u", 1, "x"), FetchStep::Attempt { delay_ms: 400 });
    assert_eq!(fetch_step("u", 2, "x"), FetchStep::Attempt { delay_ms: 800 });
    assert_eq!(
        fetch_step("https://raw/u", 3, "HTTP 404 Not Found"),
        FetchStep::GiveUp(
            "downloading https://raw/u after 3 attempts: HTTP 404 Not Found".to_string()
        )
    );
}

#[test]
fn api_errors_quote_the_answer() {
    assert_eq!(
        api_error("401 Unauthorized", "https://x/gists", " {\"message\":\"Bad\"}\n"),
        "GitHub API returned 401 Unauthorized for https://x/gists: {\"message\":\"Bad\"}"
    );
}
