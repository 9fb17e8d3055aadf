use loc_viewer::loc::{get_statistics, walk};

#[test]
fn test_get_statistics() {
    let languages = get_statistics("dummy");
    let rust = languages.iter().find(|l| l.language.name == "Rust").unwrap();
    println!("Lines of code: {}", rust.code);
    println!("rust: {:?}", rust);
}

#[test]
fn fixed_tree_is_rooted_and_folded() {
    let languages = walk("dummy");
    assert_eq!(languages.len(), 1);
    let rust = &languages[0];
    assert_eq!(rust.language.name, "Rust");
    assert_eq!(rust.files.len(), 3);
    assert_eq!(rust.files[0].path, "dummy/a.rs");
    assert_eq!(rust.files[1].path, "dummy/b.rs");
    assert_eq!(rust.files[2].path, "dummy/main.rs");
    // The two one-line files hold one code line each.
    assert_eq!(rust.files[0].code, 1);
    assert_eq!(rust.files[0].comments, 0);
    assert_eq!(rust.files[0].blanks, 0);
    assert_eq!(rust.files[1].code, 1);
    assert!(rust.code >= 2);
}
