use git2_ext::store::ObjectId;
use git2_ext::tree::{
    classify_change, filter_tree, get_changed_paths_between_trees, rebuild_tree, Descend,
    PathEdit, TreeError,
};

fn oid(id: &ObjectId) -> git2::Oid {
    git2::Oid::from_bytes(&id.bytes).unwrap()
}

fn object_id(oid: git2::Oid) -> ObjectId {
    ObjectId { bytes: oid.as_bytes().try_into().unwrap() }
}

fn path(p: &str) -> Vec<Vec<u8>> {
    p.split('/').map(|c| c.as_bytes().to_vec()).collect()
}

fn edit(p: &str, value: Option<(ObjectId, i32)>) -> PathEdit {
    (path(p), value)
}

fn new_repo() -> (tempfile::TempDir, git2::Repository) {
    let dir = tempfile::tempdir().unwrap();
    let repo = git2::Repository::init(dir.path()).unwrap();
    (dir, repo)
}

/// Writes a tree from (path, contents, mode) triples, creating directories.
fn write_tree(repo: &git2::Repository, files: &[(&str, &str, i32)]) -> git2::Oid {
    let mut here: Vec<(&str, git2::Oid, i32)> = Vec::new();
    let mut dirs: Vec<(String, Vec<(String, String, i32)>)> = Vec::new();
    for (p, contents, mode) in files {
        match p.split_once('/') {
            None => here.push((p, repo.blob(contents.as_bytes()).unwrap(), *mode)),
            Some((dir, rest)) => {
                let entry = (rest.to_string(), contents.to_string(), *mode);
                match dirs.iter_mut().find(|(d, _)| d == dir) {
                    Some((_, v)) => v.push(entry),
                    None => dirs.push((dir.to_string(), vec![entry])),
                }
            }
        }
    }
    let mut builder = repo.treebuilder(None).unwrap();
    for (name, id, mode) in here {
        builder.insert(name, id, mode).unwrap();
    }
    for (dir, sub) in dirs {
        let sub: Vec<(&str, &str, i32)> =
            sub.iter().map(|(a, b, m)| (a.as_str(), b.as_str(), *m)).collect();
        let id = write_tree(repo, &sub);
        builder.insert(dir.as_str(), id, 0o040000).unwrap();
    }
    builder.write().unwrap()
}

fn fixture_tree(repo: &git2::Repository) -> git2::Tree<'_> {
    let id = write_tree(
        repo,
        &[
            ("initial.txt", "initial contents\n", 0o100644),
            ("foo.txt", "foo", 0o100644),
            ("bar/bar.txt", "bar", 0o100644),
            ("bar/baz.txt", "qux", 0o100644),
            ("xyzzy.txt", "xyzzy", 0o100644),
        ],
    );
    repo.find_tree(id).unwrap()
}

fn dump_tree_entries(tree: &git2::Tree<'_>) -> String {
    tree.iter()
        .map(|entry| format!("{:?} {:?}\n", entry.name().unwrap(), entry.id()))
        .collect()
}

fn changed(repo: &git2::Repository, lhs: Option<&git2::Tree<'_>>, rhs: Option<&git2::Tree<'_>>) -> Vec<String> {
    let mut paths: Vec<String> = get_changed_paths_between_trees(repo, lhs, rhs)
        .unwrap()
        .into_iter()
        .map(|p| {
            p.iter()
                .map(|c| String::from_utf8(c.clone()).unwrap())
                .collect::<Vec<_>>()
                .join("/")
        })
        .collect();
    paths.sort();
    paths
}

#[test]
fn test_rebuild_tree() {
    let (_dir, repo) = new_repo();
    let head_tree = fixture_tree(&repo);

    assert_eq!(
        dump_tree_entries(&head_tree),
        r#""bar" 778e23a1e80b1feb10e00b15b29a33315929c5b5
"foo.txt" 19102815663d23f8b75a47e7a01965dcdc96468c
"initial.txt" 63af22885f8665a312ba8b83db722134f1f8290d
"xyzzy.txt" 7c465afc533f95ff7d2c91e18921f94aac8292fc
"#
    );

    {
        let foo = object_id(head_tree.get_path(std::path::Path::new("foo.txt")).unwrap().id());
        let hydrated_tree_oid = rebuild_tree(
            &repo,
            Some(&head_tree),
            vec![edit("foo-copy.txt", Some((foo, 0o100644))), edit("foo.txt", None)],
        )
        .unwrap();
        let hydrated_tree = repo.find_tree(oid(&hydrated_tree_oid)).unwrap();
        assert_eq!(
            dump_tree_entries(&hydrated_tree),
            r#""bar" 778e23a1e80b1feb10e00b15b29a33315929c5b5
"foo-copy.txt" 19102815663d23f8b75a47e7a01965dcdc96468c
"initial.txt" 63af22885f8665a312ba8b83db722134f1f8290d
"xyzzy.txt" 7c465afc533f95ff7d2c91e18921f94aac8292fc
"#
        );
    }

    {
        let hydrated_tree_oid =
            rebuild_tree(&repo, Some(&head_tree), vec![edit("bar/bar.txt", None)]).unwrap();
        let hydrated_tree = repo.find_tree(oid(&hydrated_tree_oid)).unwrap();
        assert_eq!(
            dump_tree_entries(&hydrated_tree),
            r#""bar" 08ee88e1c53fbd01ab76f136a4f2c9d759b981d0
"foo.txt" 19102815663d23f8b75a47e7a01965dcdc96468c
"initial.txt" 63af22885f8665a312ba8b83db722134f1f8290d
"xyzzy.txt" 7c465afc533f95ff7d2c91e18921f94aac8292fc
"#
        );
    }

    {
        let hydrated_tree_oid = rebuild_tree(
            &repo,
            Some(&head_tree),
            vec![edit("bar/bar.txt", None), edit("bar/baz.txt", None)],
        )
        .unwrap();
        let hydrated_tree = repo.find_tree(oid(&hydrated_tree_oid)).unwrap();
        assert_eq!(
            dump_tree_entries(&hydrated_tree),
            r#""foo.txt" 19102815663d23f8b75a47e7a01965dcdc96468c
"initial.txt" 63af22885f8665a312ba8b83db722134f1f8290d
"xyzzy.txt" 7c465afc533f95ff7d2c91e18921f94aac8292fc
"#
        );
    }

    {
        let dehydrated_tree_oid =
            filter_tree(&repo, &head_tree, &vec![path("bar/baz.txt"), path("foo.txt")]).unwrap();
        let dehydrated_tree = repo.find_tree(oid(&dehydrated_tree_oid)).unwrap();
        assert_eq!(
            dump_tree_entries(&dehydrated_tree),
            r#""bar" 08ee88e1c53fbd01ab76f136a4f2c9d759b981d0
"foo.txt" 19102815663d23f8b75a47e7a01965dcdc96468c
"#
        );
    }
}

#[test]
fn test_detect_path_only_changed_file_mode() {
    let (_dir, repo) = new_repo();
    let lhs_id = write_tree(&repo, &[("initial.txt", "initial contents\n", 0o100644)]);
    let rhs_id = write_tree(&repo, &[("initial.txt", "initial contents\n", 0o100755)]);
    let lhs_tree = repo.find_tree(lhs_id).unwrap();
    let rhs_tree = repo.find_tree(rhs_id).unwrap();
    let changed_paths = changed(&repo, Some(&lhs_tree), Some(&rhs_tree));
    assert_eq!(format!("{:?}", changed_paths), r#"["initial.txt"]"#);
}

#[test]
fn test_get_changed_paths_between_trees() {
    let (_dir, repo) = new_repo();
    let parent_id = write_tree(
        &repo,
        &[("file_a.txt", "a\n", 0o100644), ("file_b.txt", "b\n", 0o100644)],
    );
    let head_id = write_tree(
        &repo,
        &[
            ("file_a.txt", "a\n", 0o100644),
            ("file_b.txt", "b\n", 0o100644),
            ("file_c.txt", "c\n", 0o100644),
        ],
    );
    let head_tree = repo.find_tree(head_id).unwrap();
    let parent_tree = repo.find_tree(parent_id).unwrap();
    assert_eq!(changed(&repo, Some(&head_tree), Some(&parent_tree)), vec!["file_c.txt"]);
}

#[test]
fn diff_of_a_tree_with_itself_is_empty() {
    let (_dir, repo) = new_repo();
    let tree = fixture_tree(&repo);
    assert!(changed(&repo, Some(&tree), Some(&tree)).is_empty());
    assert!(changed(&repo, None, None).is_empty());
}

#[test]
fn diff_against_nothing_lists_every_file() {
    let (_dir, repo) = new_repo();
    let tree = fixture_tree(&repo);
    let all = vec!["bar/bar.txt", "bar/baz.txt", "foo.txt", "initial.txt", "xyzzy.txt"];
    assert_eq!(changed(&repo, Some(&tree), None), all);
    assert_eq!(changed(&repo, None, Some(&tree)), all);
}

#[test]
fn copy_and_delete_reports_both_paths() {
    let (_dir, repo) = new_repo();
    let tree = fixture_tree(&repo);
    let foo = object_id(tree.get_path(std::path::Path::new("foo.txt")).unwrap().id());
    let new_id = rebuild_tree(
        &repo,
        Some(&tree),
        vec![edit("foo-copy.txt", Some((foo, 0o100644))), edit("foo.txt", None)],
    )
    .unwrap();
    let new_tree = repo.find_tree(oid(&new_id)).unwrap();
    assert!(new_tree.get_name("foo.txt").is_none());
    assert_eq!(new_tree.get_name("foo-copy.txt").unwrap().id(), oid(&foo));
    assert_eq!(changed(&repo, Some(&tree), Some(&new_tree)), vec!["foo-copy.txt", "foo.txt"]);
}

#[test]
fn deleting_one_file_reports_only_it() {
    let (_dir, repo) = new_repo();
    let tree = fixture_tree(&repo);
    let new_id = rebuild_tree(&repo, Some(&tree), vec![edit("bar/baz.txt", None)]).unwrap();
    let new_tree = repo.find_tree(oid(&new_id)).unwrap();
    assert_eq!(changed(&repo, Some(&tree), Some(&new_tree)), vec!["bar/baz.txt"]);
}

#[test]
fn deleting_a_directory_contents_prunes_it() {
    let (_dir, repo) = new_repo();
    let tree = fixture_tree(&repo);
    let new_id = rebuild_tree(
        &repo,
        Some(&tree),
        vec![edit("bar/bar.txt", None), edit("bar/baz.txt", None)],
    )
    .unwrap();
    let new_tree = repo.find_tree(oid(&new_id)).unwrap();
    assert!(new_tree.get_name("bar").is_none());
    assert_eq!(changed(&repo, Some(&tree), Some(&new_tree)), vec!["bar/bar.txt", "bar/baz.txt"]);
}

#[test]
fn rebuilt_paths_read_back_their_edits() {
    let (_dir, repo) = new_repo();
    let tree = fixture_tree(&repo);
    let blob = object_id(repo.blob(b"new\n").unwrap());
    let new_id = rebuild_tree(
        &repo,
        Some(&tree),
        vec![
            edit("a/b/c.txt", Some((blob, 0o100755))),
            edit("bar/bar.txt", None),
            edit("xyzzy.txt", Some((blob, 0o100644))),
        ],
    )
    .unwrap();
    let new_tree = repo.find_tree(oid(&new_id)).unwrap();
    let abc = new_tree.get_path(std::path::Path::new("a/b/c.txt")).unwrap();
    assert_eq!((abc.id(), abc.filemode_raw()), (oid(&blob), 0o100755));
    let x = new_tree.get_path(std::path::Path::new("xyzzy.txt")).unwrap();
    assert_eq!((x.id(), x.filemode_raw()), (oid(&blob), 0o100644));
    assert!(new_tree.get_path(std::path::Path::new("bar/bar.txt")).is_err());
    assert!(new_tree.get_path(std::path::Path::new("bar/baz.txt")).is_ok());
}

#[test]
fn a_nested_edit_replaces_a_file_by_a_directory() {
    let (_dir, repo) = new_repo();
    let tree = fixture_tree(&repo);
    let blob = object_id(repo.blob(b"inside\n").unwrap());
    let new_id =
        rebuild_tree(&repo, Some(&tree), vec![edit("foo.txt/inner", Some((blob, 0o100644)))])
            .unwrap();
    let new_tree = repo.find_tree(oid(&new_id)).unwrap();
    assert_eq!(new_tree.get_name("foo.txt").unwrap().filemode_raw(), 0o040000);
    assert_eq!(changed(&repo, Some(&tree), Some(&new_tree)), vec!["foo.txt", "foo.txt/inner"]);
}

#[test]
fn deleting_a_missing_path_changes_nothing() {
    let (_dir, repo) = new_repo();
    let tree = fixture_tree(&repo);
    let new_id = rebuild_tree(
        &repo,
        Some(&tree),
        vec![edit("nope.txt", None), edit("no/such/file", None)],
    )
    .unwrap();
    assert_eq!(oid(&new_id), tree.id());
}

#[test]
fn rebuild_from_nothing_creates_directories() {
    let (_dir, repo) = new_repo();
    let blob = object_id(repo.blob(b"x").unwrap());
    let new_id =
        rebuild_tree(&repo, None, vec![edit("d/e/f", Some((blob, 0o100644)))]).unwrap();
    let new_tree = repo.find_tree(oid(&new_id)).unwrap();
    assert_eq!(new_tree.len(), 1);
    assert_eq!(new_tree.get_path(std::path::Path::new("d/e/f")).unwrap().id(), oid(&blob));
}

#[test]
fn a_directory_mode_change_is_reported_without_recursion() {
    let (_dir, repo) = new_repo();
    let sub = write_tree(&repo, &[("x.txt", "x", 0o100644)]);
    let odb = repo.odb().unwrap();
    // Tree objects written by hand: the builder only takes the plain directory mode.
    let raw_tree = |mode: &str| {
        let mut raw = format!("{mode} d\0").into_bytes();
        raw.extend_from_slice(sub.as_bytes());
        repo.find_tree(odb.write(git2::ObjectType::Tree, &raw).unwrap()).unwrap()
    };
    let a = raw_tree("40000");
    let b = raw_tree("40755");
    assert_eq!(changed(&repo, Some(&a), Some(&b)), vec!["d"]);
    let file_lhs = write_tree(&repo, &[("d", "x", 0o100644)]);
    let file_rhs = write_tree(&repo, &[("d", "x", 0o100755)]);
    let l = repo.find_tree(file_lhs).unwrap();
    let r = repo.find_tree(file_rhs).unwrap();
    assert_eq!(changed(&repo, Some(&l), Some(&r)), vec!["d"]);
}

#[test]
fn file_to_directory_reports_file_and_contents() {
    let (_dir, repo) = new_repo();
    let lhs = repo.find_tree(write_tree(&repo, &[("d", "file", 0o100644)])).unwrap();
    let rhs = repo
        .find_tree(write_tree(&repo, &[("d/x", "1", 0o100644), ("d/y", "2", 0o100644)]))
        .unwrap();
    assert_eq!(changed(&repo, Some(&lhs), Some(&rhs)), vec!["d", "d/x", "d/y"]);
    assert_eq!(changed(&repo, Some(&rhs), Some(&lhs)), vec!["d", "d/x", "d/y"]);
}

#[test]
fn classify_change_follows_the_table() {
    let a = ObjectId { bytes: [1; 20] };
    let b = ObjectId { bytes: [2; 20] };
    let file = |id: ObjectId, mode: i32| git2_ext::store::Entry { name: b"n".to_vec(), id, mode };
    let c = classify_change(Some(&file(a, 0o040000)), Some(&file(b, 0o040000)));
    assert!(!c.report);
    assert!(matches!(c.descend, Descend::Both(x, y) if x == a && y == b));
    let c = classify_change(Some(&file(a, 0o040000)), Some(&file(a, 0o040755)));
    assert!(c.report);
    assert!(matches!(c.descend, Descend::No));
    let c = classify_change(Some(&file(a, 0o100644)), Some(&file(b, 0o040000)));
    assert!(c.report);
    assert!(matches!(c.descend, Descend::One(x) if x == b));
    let c = classify_change(None, Some(&file(b, 0o040000)));
    assert!(!c.report);
    assert!(matches!(c.descend, Descend::One(x) if x == b));
    let c = classify_change(Some(&file(a, 0o100644)), Some(&file(a, 0o100644)));
    assert!(!c.report);
    let c = classify_change(None, None);
    assert!(!c.report);
    assert!(matches!(c.descend, Descend::No));
}

#[test]
fn a_missing_subtree_is_a_lookup_failure() {
    let (_dir, repo) = new_repo();
    let missing = git2::Oid::from_bytes(&[7; 20]).unwrap();
    let odb = repo.odb().unwrap();
    // Write the tree object by hand: the builder refuses ids that are not stored.
    let mut raw = b"40000 d\0".to_vec();
    raw.extend_from_slice(missing.as_bytes());
    let id = odb.write(git2::ObjectType::Tree, &raw).unwrap();
    let tree = repo.find_tree(id).unwrap();
    match get_changed_paths_between_trees(&repo, Some(&tree), None) {
        Err(TreeError::LookupFailed { id, .. }) => assert_eq!(oid(&id), missing),
        other => panic!("unexpected {:?}", other),
    }
}

#[test]
fn an_invalid_mode_is_a_write_failure() {
    let (_dir, repo) = new_repo();
    let blob = object_id(repo.blob(b"x").unwrap());
    let r = rebuild_tree(&repo, None, vec![edit("f", Some((blob, 0o100600)))]);
    assert!(matches!(r, Err(TreeError::WriteFailed { .. })));
}

#[test]
fn an_empty_path_is_an_invalid_component() {
    let (_dir, repo) = new_repo();
    let tree = fixture_tree(&repo);
    let r = filter_tree(&repo, &tree, &vec![Vec::new()]);
    assert!(matches!(r, Err(TreeError::InvalidPathComponent)));
}

#[test]
fn filter_refuses_malformed_names() {
    let (_dir, repo) = new_repo();
    let tree = fixture_tree(&repo);
    for bad in [&b"a\\b"[..], b".", b"..", b"", b"a\0b"] {
        let paths = vec![path("foo.txt"), vec![bad.to_vec()]];
        let r = filter_tree(&repo, &tree, &paths);
        assert!(matches!(r, Err(TreeError::InvalidPathComponent)), "{:?}", bad);
    }
}

#[test]
fn rebuild_refuses_names_too_long_for_an_entry() {
    let (_dir, repo) = new_repo();
    let blob = object_id(repo.blob(b"x").unwrap());
    let long = vec![b'n'; 65536];
    let r = rebuild_tree(&repo, None, vec![(vec![b"d".to_vec(), long.clone()], Some((blob, 0o100644)))]);
    assert!(matches!(r, Err(TreeError::InvalidPathComponent)));
    let ok = vec![b'n'; 65535];
    let id = rebuild_tree(&repo, None, vec![(vec![ok.clone()], Some((blob, 0o100644)))]).unwrap();
    let t = repo.find_tree(oid(&id)).unwrap();
    assert_eq!(t.get(0).unwrap().name_bytes(), &ok[..]);
}

#[test]
fn filter_ignores_missing_paths() {
    let (_dir, repo) = new_repo();
    let tree = fixture_tree(&repo);
    let id = filter_tree(&repo, &tree, &vec![path("nope.txt"), path("xyzzy.txt")]).unwrap();
    let kept = repo.find_tree(oid(&id)).unwrap();
    assert_eq!(
        dump_tree_entries(&kept),
        "\"xyzzy.txt\" 7c465afc533f95ff7d2c91e18921f94aac8292fc\n"
    );
}

#[test]
fn trees_nested_too_deep_are_refused() {
    let (_dir, repo) = new_repo();
    let blob = repo.blob(b"x").unwrap();
    let mut lhs = repo.treebuilder(None).unwrap();
    lhs.insert("f", blob, 0o100644).unwrap();
    let mut id = lhs.write().unwrap();
    for _ in 0..1030 {
        let mut b = repo.treebuilder(None).unwrap();
        b.insert("d", id, 0o040000).unwrap();
        id = b.write().unwrap();
    }
    let tree = repo.find_tree(id).unwrap();
    let r = get_changed_paths_between_trees(&repo, Some(&tree), None);
    assert!(matches!(r, Err(TreeError::TooDeep)));
}

#[test]
fn deleting_a_nested_directory_contents_prunes_only_it() {
    let (_dir, repo) = new_repo();
    let tree = repo
        .find_tree(write_tree(
            &repo,
            &[("a/b/x", "x", 0o100644), ("a/b/y", "y", 0o100644), ("a/z", "z", 0o100644)],
        ))
        .unwrap();
    let new_id =
        rebuild_tree(&repo, Some(&tree), vec![edit("a/b/x", None), edit("a/b/y", None)]).unwrap();
    let new_tree = repo.find_tree(oid(&new_id)).unwrap();
    assert!(new_tree.get_path(std::path::Path::new("a/b")).is_err());
    assert!(new_tree.get_path(std::path::Path::new("a/z")).is_ok());
    assert_eq!(changed(&repo, Some(&tree), Some(&new_tree)), vec!["a/b/x", "a/b/y"]);
}

#[test]
fn a_nested_mode_change_reports_one_path() {
    let (_dir, repo) = new_repo();
    let l = repo
        .find_tree(write_tree(&repo, &[("a/b/f", "f", 0o100644), ("a/g", "g", 0o100644)]))
        .unwrap();
    let r = repo
        .find_tree(write_tree(&repo, &[("a/b/f", "f", 0o100755), ("a/g", "g", 0o100644)]))
        .unwrap();
    assert_eq!(changed(&repo, Some(&l), Some(&r)), vec!["a/b/f"]);
}

#[test]
fn filter_keeps_exactly_the_requested_entries() {
    let (_dir, repo) = new_repo();
    let tree = fixture_tree(&repo);
    let id = filter_tree(&repo, &tree, &vec![path("bar/bar.txt")]).unwrap();
    let kept = repo.find_tree(oid(&id)).unwrap();
    assert_eq!(kept.len(), 1);
    let e = kept.get_path(std::path::Path::new("bar/bar.txt")).unwrap();
    let orig = tree.get_path(std::path::Path::new("bar/bar.txt")).unwrap();
    assert_eq!((e.id(), e.filemode()), (orig.id(), orig.filemode()));
    assert_eq!(kept.get_name("bar").unwrap().to_object(&repo).unwrap().as_tree().unwrap().len(), 1);
}

#[test]
fn removing_every_file_of_a_deep_directory_prunes_it() {
    let (_dir, repo) = new_repo();
    let tree = repo
        .find_tree(write_tree(
            &repo,
            &[
                ("a/d/x", "x", 0o100644),
                ("a/d/e/y", "y", 0o100644),
                ("a/z", "z", 0o100644),
                ("w", "w", 0o100644),
            ],
        ))
        .unwrap();
    let blob = object_id(repo.blob(b"new").unwrap());
    let new_id = rebuild_tree(
        &repo,
        Some(&tree),
        vec![edit("a/d/x", None), edit("a/d/e/y", None), edit("w", Some((blob, 0o100644)))],
    )
    .unwrap();
    let new_tree = repo.find_tree(oid(&new_id)).unwrap();
    assert!(new_tree.get_path(std::path::Path::new("a/d")).is_err());
    assert!(new_tree.get_path(std::path::Path::new("a/z")).is_ok());
    assert_eq!(new_tree.get_name("w").unwrap().id(), oid(&blob));
}

#[test]
fn removing_every_file_leaves_the_empty_tree() {
    let (_dir, repo) = new_repo();
    let tree = repo
        .find_tree(write_tree(&repo, &[("a/b/c", "c", 0o100644), ("f", "f", 0o100644)]))
        .unwrap();
    let new_id =
        rebuild_tree(&repo, Some(&tree), vec![edit("a/b/c", None), edit("f", None)]).unwrap();
    assert!(repo.find_tree(oid(&new_id)).unwrap().is_empty());
}
