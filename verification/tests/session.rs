use loc_viewer::error::{Error, Unreachable};
use loc_viewer::models::{ContentsType, SubtreeModel, TreesModel};
use loc_viewer::repository::GitHubRepository;
use loc_viewer::session::{default_ref, FetchFold, TreeWalk};

fn entry(path: &str, kind: ContentsType, sha: &str) -> SubtreeModel {
    SubtreeModel {
        path: path.to_string(),
        mode: "100644".to_string(),
        contents_type: kind,
        sha: sha.to_string(),
        size: None,
        url: None,
    }
}

fn listing(truncated: bool, tree: Vec<SubtreeModel>) -> TreesModel {
    TreesModel {
        sha: "root".to_string(),
        url: "https://api.github.com/repos/o/r/git/trees/root".to_string(),
        tree,
        truncated,
    }
}

#[test]
fn default_ref_prefers_metadata() {
    assert_eq!(default_ref(Some("main".to_string())), "main");
    assert_eq!(default_ref(None), "master");
}

#[test]
fn complete_listing_yields_all_blobs() {
    let mut walk = TreeWalk::new("root");
    assert!(!walk.finished());
    let req = walk.next_request().unwrap();
    assert_eq!(req.prefix, "");
    assert_eq!(req.sha, "root");
    walk.on_listing(&listing(
        false,
        vec![
            entry("README.md", ContentsType::Blob, "b1"),
            entry("src", ContentsType::Tree, "t1"),
            entry("src/main.rs", ContentsType::Blob, "b2"),
            entry("vendored", ContentsType::Commit, "c1"),
        ],
    ));
    assert!(walk.finished());
    let paths = walk.into_paths();
    assert_eq!(paths, vec!["README.md".to_string(), "src/main.rs".to_string()]);
}

#[test]
fn truncated_listing_is_backfilled() {
    let mut walk = TreeWalk::new("root");
    walk.on_listing(&listing(
        true,
        vec![
            entry("README.md", ContentsType::Blob, "b1"),
            entry("src", ContentsType::Tree, "t1"),
            entry("src/early.rs", ContentsType::Blob, "b2"),
        ],
    ));
    assert!(!walk.finished());
    let req = walk.next_request().unwrap();
    assert_eq!(req.prefix, "src/");
    assert_eq!(req.sha, "t1");
    walk.on_listing(&listing(
        false,
        vec![
            entry("early.rs", ContentsType::Blob, "b2"),
            entry("late.rs", ContentsType::Blob, "b3"),
        ],
    ));
    assert!(walk.finished());
    let paths = walk.into_paths();
    // The file the truncated response lost is enumerated by the backfill.
    assert!(paths.contains(&"src/late.rs".to_string()));
    assert_eq!(
        paths,
        vec!["README.md".to_string(), "src/early.rs".to_string(), "src/late.rs".to_string()]
    );
}

#[test]
fn fetch_run_respects_the_bound_and_folds_all() {
    let repo = GitHubRepository::new("o", "r");
    let paths = vec!["a.rs".to_string(), "b.rs".to_string(), "c.rs".to_string()];
    let mut run = FetchFold::new(repo, "master".to_string(), paths, 2);
    let first = run.next_fetch().unwrap();
    assert_eq!(first.0, 0);
    assert_eq!(first.1, "https://raw.githubusercontent.com/o/r/master/a.rs");
    let second = run.next_fetch().unwrap();
    assert_eq!(second.0, 1);
    // The bound of two is reached: no third fetch until one completes.
    assert!(run.next_fetch().is_none());
    assert!(run.on_content(0, "println!(\"Hello World\")").is_ok());
    let third = run.next_fetch().unwrap();
    assert_eq!(third.0, 2);
    assert!(run.on_content(1, "// only a comment").is_ok());
    assert!(run.on_content(2, "").is_ok());
    assert!(run.is_done());
    let statistics = run.result().unwrap();
    assert_eq!(statistics.languages.len(), 1);
    assert_eq!(statistics.languages[0].language.name, "Rust");
    assert_eq!(statistics.languages[0].files.len(), 3);
    assert_eq!(statistics.languages[0].code, 1);
    assert_eq!(statistics.languages[0].comments, 1);
}

#[test]
fn first_failure_fails_the_whole_run() {
    let repo = GitHubRepository::new("o", "r");
    let paths = vec!["a.rs".to_string(), "b.rs".to_string(), "c.rs".to_string()];
    let mut run = FetchFold::new(repo, "master".to_string(), paths, 3);
    run.next_fetch().unwrap();
    run.next_fetch().unwrap();
    run.next_fetch().unwrap();
    assert!(run.on_content(0, "println!(\"Hello World\")").is_ok());
    assert!(run.on_failure(1, "connection reset".to_string()).is_ok());
    assert!(run.is_done());
    assert!(run.on_content(2, "println!(\"Hello World\")").is_ok());
    match run.result() {
        Err(Error::Fetch(e)) => {
            assert_eq!(e.path, "b.rs");
            assert_eq!(e.message, "connection reset");
        },
        _ => panic!("a failed run must not yield statistics"),
    }
}

#[test]
fn stray_completions_are_internal_errors() {
    let repo = GitHubRepository::new("o", "r");
    let paths = vec!["a.rs".to_string()];
    let mut run = FetchFold::new(repo, "master".to_string(), paths, 1);
    assert_eq!(run.on_content(0, "x"), Err(Unreachable::UnknownFetchSlot));
    run.next_fetch().unwrap();
    assert!(run.on_content(0, "println!(\"Hello World\")").is_ok());
    assert_eq!(run.on_content(0, "again"), Err(Unreachable::FetchSlotAlreadyFilled));
    assert_eq!(run.on_failure(0, "late".to_string()), Err(Unreachable::FetchSlotAlreadyFilled));
}
