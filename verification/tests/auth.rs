use grass::auth::{gh_auth_token, non_empty, resolve_token, TokenSource, TokenStep, NO_TOKEN};

#[test]
fn explicit_token_wins() {
    assert_eq!(
        resolve_token(TokenSource::Flag, Some("  tok  ".to_string())),
        TokenStep::Found("tok".to_string())
    );
}

#[test]
fn blank_is_not_a_token() {
    assert_eq!(non_empty("   ".to_string()), None);
    assert_eq!(non_empty("x".to_string()), Some("x".to_string()));
}

/// The token that is found when the sources give `candidates`, in order.
fn resolve(candidates: [Option<&str>; 4]) -> Option<String> {
    let mut source = TokenSource::Flag;
    for candidate in candidates {
        match resolve_token(source, candidate.map(str::to_string)) {
            TokenStep::Found(token) => return Some(token),
            TokenStep::Ask(next) => source = next,
            TokenStep::Missing => return None,
        }
    }
    unreachable!()
}

#[test]
fn sources_are_asked_in_order() {
    assert_eq!(
        resolve_token(TokenSource::Flag, None),
        TokenStep::Ask(TokenSource::GithubToken)
    );
    assert_eq!(
        resolve_token(TokenSource::GithubToken, None),
        TokenStep::Ask(TokenSource::GhToken)
    );
    assert_eq!(
        resolve_token(TokenSource::GhToken, Some("\t\n".to_string())),
        TokenStep::Ask(TokenSource::GhCli)
    );
    assert_eq!(
        resolve_token(TokenSource::GhCli, Some(String::new())),
        TokenStep::Missing
    );
}

#[test]
fn first_token_wins() {
    assert_eq!(
        resolve([Some("a"), Some("b"), Some("c"), Some("d")]),
        Some("a".to_string())
    );
    assert_eq!(
        resolve([None, Some(" b "), Some("c"), Some("d")]),
        Some("b".to_string())
    );
    assert_eq!(
        resolve([Some(" "), Some(""), Some("c"), None]),
        Some("c".to_string())
    );
    assert_eq!(
        resolve([None, None, None, Some("d\n")]),
        Some("d".to_string())
    );
    assert_eq!(resolve([None, None, Some(" "), None]), None);
}

#[test]
fn gh_output_is_a_token() {
    assert_eq!(
        gh_auth_token(true, b"gho_abc\n".to_vec()),
        Some("gho_abc".to_string())
    );
    assert_eq!(gh_auth_token(false, b"gho_abc\n".to_vec()), None);
    assert_eq!(gh_auth_token(true, b"\n".to_vec()), None);
    assert_eq!(gh_auth_token(true, b"\xff".to_vec()), None);
}

#[test]
fn missing_token_is_explained() {
    assert!(NO_TOKEN.starts_with("no GitHub token found. Provide --token, set GITHUB_TOKEN"));
}
