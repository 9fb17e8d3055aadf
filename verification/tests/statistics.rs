use loc_viewer::blob::GitHubBlob;
use loc_viewer::language::{classify_path, LanguageId};
use loc_viewer::repository::GitHubRepository;
use loc_viewer::statistics::{
    aggregate_eq, fold_reports, merge, merge_languages, FileReport, Statistics,
};

fn report(path: &str, key: u32, name: &str, code: u64, comments: u64, blanks: u64) -> FileReport {
    FileReport {
        path: path.to_string(),
        language: LanguageId { key, name: name.to_string() },
        code,
        comments,
        blanks,
    }
}

#[test]
fn fold_of_empty_stream_is_empty() {
    let languages = fold_reports(&Vec::new());
    assert_eq!(languages.len(), 0);
}

#[test]
fn fold_sums_per_language() {
    let reports = vec![
        report("a.rs", 2, "Rust", 10, 1, 2),
        report("b.py", 1, "Python", 5, 0, 1),
        report("c.rs", 2, "Rust", 7, 3, 0),
    ];
    let languages = fold_reports(&reports);
    assert_eq!(languages.len(), 2);
    assert_eq!(languages[0].language.key, 1);
    assert_eq!(languages[0].language.name, "Python");
    assert_eq!(languages[0].files.len(), 1);
    assert_eq!(languages[0].code, 5);
    assert_eq!(languages[1].language.key, 2);
    assert_eq!(languages[1].files.len(), 2);
    assert_eq!(languages[1].code, 17);
    assert_eq!(languages[1].comments, 4);
    assert_eq!(languages[1].blanks, 2);
    assert_eq!(languages[1].files[0].path, "a.rs");
    assert_eq!(languages[1].files[1].path, "c.rs");
    assert_eq!(languages[1].lines(), 23);
}

#[test]
fn fold_totals_ignore_arrival_order() {
    let one = vec![
        report("a.rs", 2, "Rust", 10, 1, 2),
        report("b.py", 1, "Python", 5, 0, 1),
        report("c.rs", 2, "Rust", 7, 3, 0),
    ];
    let other = vec![
        report("c.rs", 2, "Rust", 7, 3, 0),
        report("a.rs", 2, "Rust", 10, 1, 2),
        report("b.py", 1, "Python", 5, 0, 1),
    ];
    let l1 = fold_reports(&one);
    let l2 = fold_reports(&other);
    assert_eq!(l1.len(), l2.len());
    for (x, y) in l1.iter().zip(l2.iter()) {
        assert_eq!(x.language.key, y.language.key);
        assert_eq!(x.files.len(), y.files.len());
        assert_eq!(x.code, y.code);
        assert_eq!(x.comments, y.comments);
        assert_eq!(x.blanks, y.blanks);
    }
}

#[test]
fn merging_split_folds_equals_folding_whole() {
    let first = vec![
        report("a.rs", 2, "Rust", 10, 1, 2),
        report("b.py", 1, "Python", 5, 0, 1),
    ];
    let second = vec![
        report("c.rs", 2, "Rust", 7, 3, 0),
        report("d.go", 3, "Go", 2, 2, 2),
    ];
    let mut whole = Vec::new();
    for r in first.iter().chain(second.iter()) {
        whole.push(report(
            &r.path,
            r.language.key,
            &r.language.name,
            r.code,
            r.comments,
            r.blanks,
        ));
    }
    let merged = merge_languages(&fold_reports(&first), &fold_reports(&second));
    let folded = fold_reports(&whole);
    assert_eq!(merged.len(), folded.len());
    for (x, y) in merged.iter().zip(folded.iter()) {
        assert!(aggregate_eq(x, y));
    }
}

#[test]
fn merge_sums_fields_and_concatenates_files() {
    let a = fold_reports(&vec![report("a.rs", 2, "Rust", 10, 1, 2)]);
    let b = fold_reports(&vec![report("c.rs", 2, "Rust", 7, 3, 0)]);
    let merged = merge(&a[0], &b[0]);
    assert_eq!(merged.language.key, 2);
    assert_eq!(merged.language.name, "Rust");
    assert_eq!(merged.code, 17);
    assert_eq!(merged.comments, 4);
    assert_eq!(merged.blanks, 2);
    assert_eq!(merged.files.len(), 2);
    assert_eq!(merged.files[0].path, "a.rs");
    assert_eq!(merged.files[1].path, "c.rs");
}

#[test]
fn as_languages_canonicalizes_duplicates() {
    let a = fold_reports(&vec![report("a.rs", 2, "Rust", 10, 1, 2)]);
    let b = fold_reports(&vec![report("c.rs", 2, "Rust", 7, 3, 0)]);
    let mut list = Vec::new();
    list.push(a[0].duplicate());
    list.push(b[0].duplicate());
    let languages = Statistics::as_languages(&list);
    assert_eq!(languages.len(), 1);
    assert_eq!(languages[0].code, 17);
    assert_eq!(languages[0].files.len(), 2);
}

#[test]
fn two_files_one_recognized() {
    let files = vec![
        GitHubBlob::new("a.rs".to_string(), "println!(\"Hello World\")".to_string()),
        GitHubBlob::new("a.qq_unknown_qq".to_string(), "just one line".to_string()),
    ];
    let statistics = Statistics::get(GitHubRepository::new("o", "r"), &files);
    assert_eq!(statistics.languages.len(), 1);
    let rust = &statistics.languages[0];
    let expected = classify_path("a.rs").unwrap();
    assert_eq!(rust.language.key, expected.key);
    assert_eq!(rust.language.name, "Rust");
    assert_eq!(rust.files.len(), 1);
    assert_eq!(rust.code, 1);
    assert_eq!(rust.comments, 0);
    assert_eq!(rust.blanks, 0);
    for language in &statistics.languages {
        for file in &language.files {
            assert_ne!(file.path, "a.qq_unknown_qq");
        }
    }
}

#[test]
fn unrecognized_paths_are_filtered_out() {
    assert!(classify_path("a.qq_unknown_qq").is_none());
    let files = vec![GitHubBlob::new(
        "a.qq_unknown_qq".to_string(),
        "nothing the classifier knows".to_string(),
    )];
    let statistics = Statistics::get(GitHubRepository::new("o", "r"), &files);
    assert_eq!(statistics.languages.len(), 0);
}

#[test]
fn empty_repository_yields_empty_statistics() {
    let statistics = Statistics::get(GitHubRepository::new("o", "r"), &Vec::new());
    assert_eq!(statistics.languages.len(), 0);
    let other = Statistics::get(GitHubRepository::new("o", "r"), &Vec::new());
    assert_eq!(statistics, other);
}
