use akasha::ingest::{is_candidate, Ingested, SeenIndex};
use akasha::log::Writer;
use akasha::order::{bytes_le, sort_by_path};

fn file(path: &str, content: &str) -> (String, Vec<u8>) {
    (path.to_string(), content.as_bytes().to_vec())
}

fn parts(p: &[&str]) -> Vec<String> {
    p.iter().map(|s| s.to_string()).collect()
}

#[test]
fn dedup_skips_unchanged_files() {
    let mut w = Writer::create(Vec::new()).unwrap();
    let tree = vec![file("t/x.txt", "hello"), file("t/y.txt", "world")];
    let out = w.store_files(&tree);
    assert!(matches!(out[0], Ingested::Stored(_)));
    assert!(matches!(out[1], Ingested::Stored(_)));
    assert_eq!(w.read_all().len(), 2);

    let before = w.contents().clone();
    let out = w.store_files(&tree);
    assert_eq!(out, vec![Ingested::Unchanged, Ingested::Unchanged]);
    assert_eq!(w.contents(), &before);

    let tree = vec![file("t/x.txt", "hello!"), file("t/y.txt", "world")];
    let out = w.store_files(&tree);
    assert!(matches!(out[0], Ingested::Stored(_)));
    assert_eq!(out[1], Ingested::Unchanged);
    let evs = w.read_all();
    assert_eq!(evs.len(), 3);
    assert_eq!(evs[2].phenomenon, "t/x.txt");
    assert_eq!(evs[2].noumenon, "hello!");
}

#[test]
fn dedup_survives_reopening() {
    let mut w = Writer::create(Vec::new()).unwrap();
    let tree = vec![file("a", "1"), file("b", "2"), file("c", "3")];
    w.store_files(&tree);
    let mut w = Writer::create(w.contents().clone()).unwrap();
    let before = w.contents().clone();
    let out = w.store_files(&tree);
    assert!(out.iter().all(|o| *o == Ingested::Unchanged));
    assert_eq!(w.contents(), &before);
}

#[test]
fn binary_and_oversized_files_are_refused() {
    let mut w = Writer::create(Vec::new()).unwrap();
    let tree = vec![
        ("bin".to_string(), vec![0xFF, 0xFE, 0x00]),
        ("big".to_string(), vec![b'a'; 65536]),
        file("ok", "fine"),
    ];
    let out = w.store_files(&tree);
    assert_eq!(out[0], Ingested::NotText);
    assert_eq!(out[1], Ingested::TooLong);
    assert!(matches!(out[2], Ingested::Stored(_)));
    assert_eq!(w.read_all().len(), 1);
}

#[test]
fn seen_index_holds_blake3_of_latest_content() {
    let mut w = Writer::create(Vec::new()).unwrap();
    w.append("p", "old").unwrap();
    w.append("q", "other").unwrap();
    w.append("p", "new").unwrap();
    let seen = w.rebuild_seen_index_from_log();
    let expected = blake3::hash(b"new").to_hex().to_string();
    assert_eq!(seen.get("p"), Some(&expected));
    assert_ne!(expected, "new");
    assert_eq!(seen.get("q"), Some(&blake3::hash(b"other").to_hex().to_string()));
    assert_eq!(seen.get("r"), None);
}

#[test]
fn ingest_file_updates_seen() {
    let mut w = Writer::create(Vec::new()).unwrap();
    let mut seen = SeenIndex::new();
    let r = w.ingest_file(&mut seen, "f", b"abc");
    assert_eq!(r, Ingested::Stored(16));
    assert_eq!(w.ingest_file(&mut seen, "f", b"abc"), Ingested::Unchanged);
    assert!(matches!(w.ingest_file(&mut seen, "f", b"abcd"), Ingested::Stored(_)));
}

#[test]
fn candidates_exclude_dotfiles_target_and_git() {
    assert!(is_candidate(&parts(&[".", "src", "main.rs"])));
    assert!(!is_candidate(&parts(&[".", "src", ".hidden"])));
    assert!(!is_candidate(&parts(&[".", "target", "debug", "x"])));
    assert!(!is_candidate(&parts(&[".", ".git", "HEAD"])));
    assert!(is_candidate(&parts(&["targets", "x"])));
    assert!(is_candidate(&parts(&[])));
}

#[test]
fn files_sort_by_path_bytes() {
    let files = vec![file("b/x", "1"), file("a/z", "2"), file("a/y", "3"), file("a", "4"), file("é", "5")];
    let sorted: Vec<String> = sort_by_path(files).into_iter().map(|f| f.0).collect();
    assert_eq!(sorted, vec!["a", "a/y", "a/z", "b/x", "é"]);
    assert!(bytes_le(b"ab", b"abc"));
    assert!(!bytes_le(b"abc", b"ab"));
    assert!(bytes_le(b"", b""));
    assert!(bytes_le(b"a\xff", b"b"));
}

fn walked(path: &str, content: &str) -> (String, Vec<String>, Vec<u8>) {
    let comps = path.split('/').map(|c| c.to_string()).collect();
    (path.to_string(), comps, content.as_bytes().to_vec())
}

#[test]
fn directory_ingestion_filters_and_sorts() {
    let mut w = Writer::create(Vec::new()).unwrap();
    let tree = vec![
        walked("d/y.txt", "world"),
        walked("d/.env", "secret"),
        walked("d/target/out", "built"),
        walked("d/.git/HEAD", "ref"),
        walked("d/x.txt", "hello"),
    ];
    let (files, out) = w.store_directory(tree);
    let paths: Vec<&str> = files.iter().map(|f| f.0.as_str()).collect();
    assert_eq!(paths, vec!["d/x.txt", "d/y.txt"]);
    assert!(out.iter().all(|o| matches!(o, Ingested::Stored(_))));
    let evs = w.read_all();
    assert_eq!(evs.len(), 2);
    assert_eq!((evs[0].id, evs[0].phenomenon.as_str(), evs[0].noumenon.as_str()), (1, "d/x.txt", "hello"));
    assert_eq!((evs[1].id, evs[1].phenomenon.as_str(), evs[1].noumenon.as_str()), (2, "d/y.txt", "world"));

    let before = w.contents().clone();
    let (_, out) = w.store_directory(vec![walked("d/x.txt", "hello"), walked("d/y.txt", "world")]);
    assert!(out.iter().all(|o| *o == Ingested::Unchanged));
    assert_eq!(w.contents(), &before);

    let (_, out) = w.store_directory(vec![walked("d/y.txt", "world"), walked("d/x.txt", "hello!")]);
    assert!(matches!(out[0], Ingested::Stored(_)));
    assert_eq!(out[1], Ingested::Unchanged);
    let evs = w.read_all();
    assert_eq!(evs.len(), 3);
    assert_eq!((evs[2].id, evs[2].phenomenon.as_str(), evs[2].noumenon.as_str()), (3, "d/x.txt", "hello!"));
}
