use fs_walk::entity::{DirEntry, Entity, FileKind, IoError, IoErrorKind, Metadata};
use fs_walk::fs::Fs;

fn meta(kind: FileKind, len: u64) -> Metadata {
    Metadata { kind, len, modified: Some(1_700_000_000_000_000_000), readonly: false }
}

fn file(len: u64) -> Result<Metadata, IoError> {
    Ok(meta(FileKind::File, len))
}

fn dir() -> Result<Metadata, IoError> {
    Ok(meta(FileKind::Dir, 4096))
}

fn entry(name: &str, path: &str) -> DirEntry {
    DirEntry { file_name: name.to_string(), path: path.to_string() }
}

/// A fixed tree: each directory's path, its listing and the metadata of its entries.
type Node = (&'static str, Vec<(&'static str, &'static str)>, Vec<Result<Metadata, IoError>>);

fn lookup(tree: &[Node], path: &str) -> Result<(Vec<DirEntry>, Vec<Result<Metadata, IoError>>), IoError> {
    for (p, entries, metas) in tree {
        if *p == path {
            let es = entries.iter().map(|(n, q)| entry(n, q)).collect();
            let ms = metas
                .iter()
                .map(|m| match m {
                    Ok(m) => Ok(*m),
                    Err(e) => Err(IoError::new(e.kind, e.path.clone())),
                })
                .collect();
            return Ok((es, ms));
        }
    }
    Err(IoError::new(IoErrorKind::NotFound, path.to_string()))
}

/// Drives the library's steps over a fixed tree, as the application does
/// over the real filesystem.
fn walk(tree: &[Node], path: &str) -> Result<Vec<Entity>, IoError> {
    let children = match lookup(tree, path) {
        Ok((es, ms)) => Fs::read_dir(Ok(es), ms),
        Err(e) => Fs::read_dir(Err(e), Vec::new()),
    };
    let subs = match &children {
        Ok(c) => Fs::sub_dirs(c),
        Err(_) => Vec::new(),
    };
    let results = subs.iter().map(|s| walk(tree, s)).collect();
    Fs::read_dir_recursive(children, results)
}

fn sorted_paths(v: &[Entity]) -> Vec<String> {
    let mut p: Vec<String> = v.iter().map(|e| e.path.clone()).collect();
    p.sort();
    p
}

fn mixed_tree() -> Vec<Node> {
    vec![
        ("", vec![("a.txt", "a.txt"), ("b", "b"), ("d", "d")], vec![file(12), dir(), dir()]),
        ("b", vec![("c.txt", "b/c.txt")], vec![file(5)]),
        ("d", vec![], vec![]),
    ]
}

#[test]
fn scenario_mixed_tree() {
    let r = walk(&mixed_tree(), "").unwrap();
    assert_eq!(r.len(), 4);
    assert_eq!(sorted_paths(&r), vec!["a.txt", "b", "b/c.txt", "d"]);
    for e in &r {
        let expect_dir = e.path == "b" || e.path == "d";
        assert_eq!(e.metadata.is_dir(), expect_dir);
        assert_eq!(e.metadata.is_file(), !expect_dir);
    }
}

#[test]
fn scenario_only_empty_dir() {
    let tree: Vec<Node> = vec![("", vec![("empty", "empty")], vec![dir()]), ("empty", vec![], vec![])];
    let r = walk(&tree, "").unwrap();
    assert_eq!(r.len(), 1);
    assert_eq!(r[0].path, "empty");
    assert_eq!(r[0].file_name, "empty");
    assert_eq!(r[0].metadata.kind, FileKind::Dir);
    assert_eq!(walk(&tree, "empty").unwrap().len(), 0);
}

#[test]
fn empty_directory_yields_nothing() {
    let r = Fs::read_dir(Ok(Vec::new()), Vec::new()).unwrap();
    assert!(r.is_empty());
    let w = Fs::read_dir_recursive(Ok(r), Vec::new()).unwrap();
    assert!(w.is_empty());
}

#[test]
fn missing_root_fails_not_found() {
    let e = walk(&mixed_tree(), "nowhere").unwrap_err();
    assert_eq!(e.kind, IoErrorKind::NotFound);
    assert_eq!(e.path, "nowhere");
}

#[test]
fn failed_listing_is_passed_on_unchanged() {
    let e = Fs::read_dir(Err(IoError::new(IoErrorKind::PermissionDenied, "x".to_string())), Vec::new()).unwrap_err();
    assert_eq!(e.kind, IoErrorKind::PermissionDenied);
    assert_eq!(e.path, "x");
}

#[test]
fn one_failed_lookup_fails_the_whole_read() {
    let es = vec![entry("a", "a"), entry("b", "b"), entry("c", "c")];
    let ms = vec![file(1), Err(IoError::new(IoErrorKind::PermissionDenied, "b".to_string())), file(3)];
    let e = Fs::read_dir(Ok(es), ms).unwrap_err();
    assert_eq!(e.kind, IoErrorKind::PermissionDenied);
    assert_eq!(e.path, "b");
}

#[test]
fn first_failed_lookup_is_reported() {
    let es = vec![entry("a", "a"), entry("b", "b"), entry("c", "c")];
    let ms = vec![
        file(1),
        Err(IoError::new(IoErrorKind::Other, "b".to_string())),
        Err(IoError::new(IoErrorKind::PermissionDenied, "c".to_string())),
    ];
    let e = Fs::read_dir(Ok(es), ms).unwrap_err();
    assert_eq!(e.kind, IoErrorKind::Other);
    assert_eq!(e.path, "b");
}

#[test]
fn unreadable_subtree_fails_the_whole_walk() {
    let mut tree = mixed_tree();
    tree[1] = ("b", vec![("c.txt", "b/c.txt")], vec![Err(IoError::new(IoErrorKind::PermissionDenied, "b/c.txt".to_string()))]);
    let e = walk(&tree, "").unwrap_err();
    assert_eq!(e.kind, IoErrorKind::PermissionDenied);
    assert_eq!(e.path, "b/c.txt");
}

#[test]
fn unlistable_subdirectory_fails_the_whole_walk() {
    let tree: Vec<Node> = vec![
        ("", vec![("ok", "ok"), ("locked", "locked")], vec![dir(), dir()]),
        ("ok", vec![("f", "ok/f")], vec![file(1)]),
    ];
    let e = walk(&tree, "").unwrap_err();
    assert_eq!(e.kind, IoErrorKind::NotFound);
    assert_eq!(e.path, "locked");
}

#[test]
fn count_is_files_plus_directories() {
    let tree: Vec<Node> = vec![
        ("r", vec![("x", "r/x"), ("y", "r/y"), ("f", "r/f")], vec![dir(), dir(), file(1)]),
        ("r/x", vec![("z", "r/x/z"), ("g", "r/x/g")], vec![dir(), file(2)]),
        ("r/x/z", vec![("h", "r/x/z/h")], vec![file(3)]),
        ("r/y", vec![], vec![]),
    ];
    let r = walk(&tree, "r").unwrap();
    let files = r.iter().filter(|e| e.metadata.is_file()).count();
    let dirs = r.iter().filter(|e| e.metadata.is_dir()).count();
    assert_eq!(files, 3);
    assert_eq!(dirs, 3);
    assert_eq!(r.len(), 6);
}

#[test]
fn paths_are_unique() {
    let r = walk(&mixed_tree(), "").unwrap();
    let mut p = sorted_paths(&r);
    p.dedup();
    assert_eq!(p.len(), r.len());
}

#[test]
fn children_come_before_descendants() {
    let r = walk(&mixed_tree(), "").unwrap();
    let p: Vec<&str> = r.iter().map(|e| e.path.as_str()).collect();
    assert_eq!(p, vec!["a.txt", "b", "d", "b/c.txt"]);
}

#[test]
fn rescan_gives_equal_entities() {
    let t = mixed_tree();
    let a = walk(&t, "").unwrap();
    let b = walk(&t, "").unwrap();
    assert_eq!(a.len(), b.len());
    for (x, y) in a.iter().zip(b.iter()) {
        assert_eq!(x.path, y.path);
        assert_eq!(x.metadata.kind, y.metadata.kind);
        assert_eq!(x.metadata.len, y.metadata.len);
    }
}

#[test]
fn sub_dirs_keeps_directories_in_order() {
    let es = vec![entry("a", "p/a"), entry("b", "p/b"), entry("c", "p/c")];
    let c = Fs::read_dir(Ok(es), vec![dir(), file(1), dir()]).unwrap();
    assert_eq!(Fs::sub_dirs(&c), vec!["p/a".to_string(), "p/c".to_string()]);
}

#[test]
fn entity_keeps_its_fields() {
    let e = Entity::new("n".to_string(), "p/n".to_string(), meta(FileKind::Symlink, 7));
    assert_eq!(e.file_name, "n");
    assert_eq!(e.path, "p/n");
    assert_eq!(e.metadata.kind, FileKind::Symlink);
    assert_eq!(e.metadata.len, 7);
    assert!(!e.metadata.is_dir());
    assert!(!e.metadata.is_file());
}

#[test]
fn read_pairs_entries_with_their_metadata() {
    let es = vec![entry("a", "a"), entry("b", "b")];
    let r = Fs::read_dir(Ok(es), vec![file(10), dir()]).unwrap();
    assert_eq!(r[0].file_name, "a");
    assert_eq!(r[0].metadata.len, 10);
    assert_eq!(r[1].file_name, "b");
    assert!(r[1].metadata.is_dir());
}
