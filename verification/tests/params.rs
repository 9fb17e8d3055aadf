use loc_viewer::params::StatisticsParamsModel;

#[test]
fn default_keeps_everything() {
    let params = StatisticsParamsModel::default();
    assert!(params.sha.is_none());
    assert!(params.retained("src/main.rs"));
    assert!(params.retained("README.md"));
}

#[test]
fn include_filters_are_prefixes_with_leading_slash_ignored() {
    let params = StatisticsParamsModel {
        sha: None,
        paths: vec!["/src".to_string(), "docs".to_string()],
        excluded: vec![],
    };
    assert!(params.retained("src/main.rs"));
    assert!(params.retained("docs/guide.md"));
    assert!(!params.retained("tests/a.rs"));
}

#[test]
fn excluded_paths_are_dropped() {
    let params = StatisticsParamsModel {
        sha: None,
        paths: vec![],
        excluded: vec!["/src/generated".to_string()],
    };
    assert!(params.retained("src/main.rs"));
    assert!(!params.retained("src/generated/schema.rs"));
}

#[test]
fn filter_paths_keeps_order() {
    let params = StatisticsParamsModel {
        sha: Some("main".to_string()),
        paths: vec!["src".to_string()],
        excluded: vec!["src/generated".to_string()],
    };
    let paths = vec![
        "README.md".to_string(),
        "src/lib.rs".to_string(),
        "src/generated/schema.rs".to_string(),
        "src/main.rs".to_string(),
    ];
    assert_eq!(
        params.filter_paths(&paths),
        vec!["src/lib.rs".to_string(), "src/main.rs".to_string()]
    );
}
