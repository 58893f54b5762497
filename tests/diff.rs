use akasha::diff::{compare_trees, is_compared, LineKind};

fn file(path: &str, content: &[u8]) -> (String, Vec<u8>) {
    (path.to_string(), content.to_vec())
}

#[test]
fn unchanged_tree_reports_nothing() {
    let tree = vec![file("a.txt", b"1\n2\n"), file("dir/b.bin", &[0, 159, 146, 150])];
    let r = compare_trees(&tree, &tree.clone());
    assert!(r.added.is_empty());
    assert!(r.removed.is_empty());
    assert!(r.modified.is_empty());
}

#[test]
fn added_removed_and_modified() {
    let work = vec![
        file("new.txt", b"n"),
        file("same.txt", b"s"),
        file("text.txt", b"a\nb\nc\n"),
        file("bin", &[0xFF, 1]),
    ];
    let snap = vec![
        file("gone.txt", b"g"),
        file("same.txt", b"s"),
        file("text.txt", b"a\nx\nc\n"),
        file("bin", &[0xFF, 2]),
    ];
    let r = compare_trees(&work, &snap);
    assert_eq!(r.added, vec!["new.txt".to_string()]);
    assert_eq!(r.removed, vec!["gone.txt".to_string()]);
    assert_eq!(r.modified.len(), 2);
    assert_eq!(r.modified[0].path, "text.txt");
    assert_eq!(
        r.modified[0].lines,
        Some(vec![(LineKind::Removed, "x".to_string()), (LineKind::Added, "b".to_string())])
    );
    assert_eq!(r.modified[1].path, "bin");
    assert_eq!(r.modified[1].lines, None);
}

#[test]
fn internal_directory_is_not_compared() {
    let p = |v: &[&str]| v.iter().map(|s| s.to_string()).collect::<Vec<String>>();
    assert!(!is_compared(&p(&[".eikyu", "tree", "x"])));
    assert!(is_compared(&p(&[".eikyu"])));
    assert!(is_compared(&p(&["src", ".eikyu", "x"])));
}
