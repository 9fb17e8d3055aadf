use loc_viewer::client::GitHubApiClient;
use loc_viewer::error::InvalidRepositoryUrl;
use loc_viewer::repository::GitHubRepository;

#[test]
fn test_parse_repo_url() {
    let repo = GitHubRepository::from_url("https://github.com/hayas1/loc-viewer").unwrap();
    assert_eq!(repo, GitHubRepository::new("hayas1", "loc-viewer"));
    assert_eq!(repo.to_url().as_str(), "https://github.com/hayas1/loc-viewer");

    let repo = GitHubRepository::from_url("https://github.com/hayas1/loc-viewer/").unwrap();
    assert_eq!(repo, GitHubRepository::new("hayas1", "loc-viewer"));
    assert_eq!(repo.to_url().as_str(), "https://github.com/hayas1/loc-viewer");
}

#[test]
fn round_trip_ignores_extra_segments() {
    let repo = GitHubRepository::from_url("https://github.com/rust-lang/rust/tree/master/src").unwrap();
    assert_eq!(repo, GitHubRepository::new("rust-lang", "rust"));
    let again = GitHubRepository::from_url(repo.to_url().as_str()).unwrap();
    assert_eq!(again, repo);
}

#[test]
fn wrong_origin_cannot_be_base() {
    assert_eq!(
        GitHubRepository::from_url("https://example.com/a/b"),
        Err(InvalidRepositoryUrl::CannotBeBase)
    );
    assert_eq!(
        GitHubRepository::from_url("https://github.community/a/b"),
        Err(InvalidRepositoryUrl::CannotBeBase)
    );
    assert_eq!(
        GitHubRepository::from_url("http://github.com/a/b"),
        Err(InvalidRepositoryUrl::CannotBeBase)
    );
}

#[test]
fn missing_owner_is_reported() {
    assert_eq!(
        GitHubRepository::from_url("https://github.com"),
        Err(InvalidRepositoryUrl::CannotFindOwner)
    );
    assert_eq!(
        GitHubRepository::from_url("https://github.com/"),
        Err(InvalidRepositoryUrl::CannotFindOwner)
    );
    assert_eq!(
        GitHubRepository::from_url("https://github.com//repo"),
        Err(InvalidRepositoryUrl::CannotFindOwner)
    );
}

#[test]
fn missing_repo_is_reported() {
    assert_eq!(
        GitHubRepository::from_url("https://github.com/owner"),
        Err(InvalidRepositoryUrl::CannotFindRepo)
    );
    assert_eq!(
        GitHubRepository::from_url("https://github.com/owner/"),
        Err(InvalidRepositoryUrl::CannotFindRepo)
    );
}

#[test]
fn endpoints_are_rendered() {
    let repo = GitHubRepository::new("hayas1", "loc-viewer");
    assert_eq!(
        repo.api_endpoint("/repos/hayas1/loc-viewer"),
        "https://api.github.com/repos/hayas1/loc-viewer"
    );
    assert_eq!(
        repo.raw_endpoint("x/y"),
        "https://raw.githubusercontent.com/x/y"
    );
    assert_eq!(
        repo.trees_url("master", true),
        "https://api.github.com/repos/hayas1/loc-viewer/git/trees/master?recursive=true"
    );
    assert_eq!(
        repo.trees_url("abc123", false),
        "https://api.github.com/repos/hayas1/loc-viewer/git/trees/abc123?recursive=false"
    );
    assert_eq!(
        repo.repository_url(),
        "https://api.github.com/repos/hayas1/loc-viewer"
    );
    assert_eq!(
        repo.raw_url("master", "src/main.rs"),
        "https://raw.githubusercontent.com/hayas1/loc-viewer/master/src/main.rs"
    );
}

#[test]
fn segments_are_percent_decoded() {
    let repo = GitHubRepository::from_url("https://github.com/a%20b/c").unwrap();
    assert_eq!(repo.owner, "a b");
    assert_eq!(repo.repo, "c");

    let repo = GitHubRepository::from_url("https://github.com/owner/my%2Drepo").unwrap();
    assert_eq!(repo.repo, "my-repo");

    // A % without two hexadecimal digits stays literal.
    let repo = GitHubRepository::from_url("https://github.com/a%2/c%").unwrap();
    assert_eq!(repo.owner, "a%2");
    assert_eq!(repo.repo, "c%");
}

#[test]
fn escaped_slash_cannot_name_a_segment() {
    assert_eq!(
        GitHubRepository::from_url("https://github.com/a%2Fb/c"),
        Err(InvalidRepositoryUrl::CannotFindOwner)
    );
    assert_eq!(
        GitHubRepository::from_url("https://github.com/a/b%2fc"),
        Err(InvalidRepositoryUrl::CannotFindRepo)
    );
}

#[test]
fn to_url_percent_encodes_and_round_trips() {
    let repo = GitHubRepository::new("a b", "c#d");
    assert_eq!(repo.to_url(), "https://github.com/a%20b/c%23d");
    assert_eq!(GitHubRepository::from_url(repo.to_url().as_str()).unwrap(), repo);

    // A literal % in a name survives the round trip through its escape.
    let repo = GitHubRepository::new("a%20b", "c");
    assert_eq!(repo.to_url(), "https://github.com/a%2520b/c");
    assert_eq!(GitHubRepository::from_url(repo.to_url().as_str()).unwrap(), repo);
}

#[test]
fn default_port_names_the_same_origin() {
    let repo = GitHubRepository::from_url("https://github.com:443/hayas1/loc-viewer").unwrap();
    assert_eq!(repo, GitHubRepository::new("hayas1", "loc-viewer"));
    assert_eq!(
        GitHubRepository::from_url("https://github.com:4430/a/b"),
        Err(InvalidRepositoryUrl::CannotBeBase)
    );
    assert_eq!(
        GitHubRepository::from_url("https://github.com:443"),
        Err(InvalidRepositoryUrl::CannotFindOwner)
    );
}

#[test]
fn request_paths_are_percent_encoded() {
    let repo = GitHubRepository::new("hayas1", "loc-viewer");
    assert_eq!(
        repo.raw_url("master", "dir/my file?.rs"),
        "https://raw.githubusercontent.com/hayas1/loc-viewer/master/dir/my%20file%3F.rs"
    );
    assert_eq!(
        repo.trees_url("feature#1", true),
        "https://api.github.com/repos/hayas1/loc-viewer/git/trees/feature%231?recursive=true"
    );
    assert_eq!(
        repo.api_endpoint("/repos/a b/c"),
        "https://api.github.com/repos/a%20b/c"
    );
}

#[test]
fn client_plans_the_same_requests() {
    let repo = GitHubRepository::new("hayas1", "loc-viewer");
    let client = GitHubApiClient::new(repo.duplicate());
    assert_eq!(client.trees_url("master", true), repo.trees_url("master", true));
    assert_eq!(client.raw_url("master", "a.rs"), repo.raw_url("master", "a.rs"));
    assert_eq!(client.api_endpoint("/x"), repo.api_endpoint("/x"));
    assert_eq!(client.raw_endpoint("/x"), repo.raw_endpoint("/x"));
}
