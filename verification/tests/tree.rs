use codeowners_resolver::path::RelPath;
use codeowners_resolver::tree::{aggregate, DirectoryNode, FileEntry, FileOwners};

fn entries(list: &[(&str, &str)]) -> Vec<FileEntry> {
    list.iter()
        .map(|(p, o)| FileEntry { path: RelPath::parse(p).unwrap(), owner: o.to_string() })
        .collect()
}

fn file(name: &str, owner: &str) -> FileOwners {
    FileOwners { name: name.to_string(), owner: owner.to_string() }
}

fn dir_named<'a>(node: &'a DirectoryNode, name: &str) -> &'a DirectoryNode {
    node.subdirectories.iter().find(|d| d.name == name).unwrap()
}

#[test]
fn aggregate_of_nothing_is_an_empty_root() {
    let root = aggregate(&vec![]);
    assert_eq!(root.name, "");
    assert!(root.subdirectories.is_empty());
    assert!(root.files.is_empty());
    assert_eq!(root.consensus_owner, None);
    assert_eq!(root, DirectoryNode::root());
}

#[test]
fn aggregate_builds_the_directories_of_every_path() {
    let root = aggregate(&entries(&[
        ("README.md", "@a"),
        ("src/main.rs", "@b"),
        ("src/util/io.rs", "@b"),
        ("docs/guide.md", ""),
    ]));
    assert_eq!(root.files, vec![file("README.md", "@a")]);
    let names: Vec<&str> = root.subdirectories.iter().map(|d| d.name.as_str()).collect();
    assert_eq!(names, vec!["src", "docs"]);
    let src = dir_named(&root, "src");
    assert_eq!(src.files, vec![file("main.rs", "@b")]);
    assert_eq!(src.subdirectories.len(), 1);
    assert_eq!(src.subdirectories[0].name, "util");
    assert_eq!(src.subdirectories[0].files, vec![file("io.rs", "@b")]);
    assert_eq!(dir_named(&root, "docs").files, vec![file("guide.md", "")]);
}

#[test]
fn aggregate_twice_gives_the_same_tree() {
    let list = [
        ("a/b/c.txt", "@x"),
        ("a/b/d.txt", "@x"),
        ("a/e.txt", "@y"),
        ("f.txt", ""),
        ("g/h/i/j.txt", "@z"),
    ];
    assert_eq!(aggregate(&entries(&list)), aggregate(&entries(&list)));
}

#[test]
fn aggregate_uniform_directory_has_a_consensus_owner() {
    let root = aggregate(&entries(&[("pkg/a.go", "@team-a"), ("pkg/b.go", "@team-a")]));
    assert_eq!(dir_named(&root, "pkg").consensus_owner, Some("@team-a".to_string()));
}

#[test]
fn aggregate_unowned_file_leaves_no_consensus() {
    let root = aggregate(&entries(&[("pkg/a.go", "@team-a"), ("pkg/b.go", "")]));
    assert_eq!(dir_named(&root, "pkg").consensus_owner, None);
    let root = aggregate(&entries(&[("pkg/a.go", ""), ("pkg/b.go", "")]));
    assert_eq!(dir_named(&root, "pkg").consensus_owner, None);
}

#[test]
fn aggregate_mixed_owners_leave_no_consensus() {
    let root = aggregate(&entries(&[("pkg/a.go", "@team-a"), ("pkg/b.go", "@team-b")]));
    assert_eq!(dir_named(&root, "pkg").consensus_owner, None);
    let root = aggregate(&entries(&[("pkg/a.go", "@a, @b"), ("pkg/b.go", "@a")]));
    assert_eq!(dir_named(&root, "pkg").consensus_owner, None);
}

#[test]
fn aggregate_root_never_has_a_consensus_owner() {
    let root = aggregate(&entries(&[("a.go", "@team-a"), ("b.go", "@team-a")]));
    assert_eq!(root.consensus_owner, None);
    let root = aggregate(&entries(&[("x/a.go", "@team-a"), ("y/b.go", "@team-a")]));
    assert_eq!(root.consensus_owner, None);
    assert_eq!(dir_named(&root, "x").consensus_owner, Some("@team-a".to_string()));
    assert_eq!(dir_named(&root, "y").consensus_owner, Some("@team-a".to_string()));
}

#[test]
fn aggregate_consensus_rises_through_uniform_subdirectories() {
    let root = aggregate(&entries(&[
        ("a/b/c/x", "@t"),
        ("a/b/y", "@t"),
        ("a/z", "@t"),
    ]));
    let a = dir_named(&root, "a");
    let b = dir_named(a, "b");
    let c = dir_named(b, "c");
    assert_eq!(c.consensus_owner, Some("@t".to_string()));
    assert_eq!(b.consensus_owner, Some("@t".to_string()));
    assert_eq!(a.consensus_owner, Some("@t".to_string()));
}

#[test]
fn aggregate_consensus_stops_where_owners_differ() {
    let root = aggregate(&entries(&[
        ("a/b/c/x", "@t"),
        ("a/b/y", "@u"),
        ("a/z", "@t"),
        ("a/d/w", "@t"),
    ]));
    let a = dir_named(&root, "a");
    let b = dir_named(a, "b");
    assert_eq!(dir_named(b, "c").consensus_owner, Some("@t".to_string()));
    assert_eq!(b.consensus_owner, None);
    assert_eq!(dir_named(a, "d").consensus_owner, Some("@t".to_string()));
    assert_eq!(a.consensus_owner, None);
}

#[test]
fn aggregate_directory_of_directories_only() {
    let root = aggregate(&entries(&[("a/b/x", "@t"), ("a/c/y", "@t")]));
    assert_eq!(dir_named(&root, "a").consensus_owner, Some("@t".to_string()));
    let root = aggregate(&entries(&[("a/b/x", "@t"), ("a/c/y", "@u")]));
    assert_eq!(dir_named(&root, "a").consensus_owner, None);
}

#[test]
fn aggregate_keeps_input_order_and_reuses_directories() {
    let root = aggregate(&entries(&[
        ("z/1", "@a"),
        ("a/1", "@a"),
        ("z/2", "@a"),
        ("m/1", "@a"),
        ("a/2", "@a"),
    ]));
    let names: Vec<&str> = root.subdirectories.iter().map(|d| d.name.as_str()).collect();
    assert_eq!(names, vec!["z", "a", "m"]);
    assert_eq!(dir_named(&root, "z").files, vec![file("1", "@a"), file("2", "@a")]);
    assert_eq!(dir_named(&root, "a").files, vec![file("1", "@a"), file("2", "@a")]);
}

#[test]
fn aggregate_keeps_a_path_that_is_given_twice() {
    let root = aggregate(&entries(&[("a/x", "@t"), ("a/x", "@u")]));
    let a = dir_named(&root, "a");
    assert_eq!(a.files, vec![file("x", "@t"), file("x", "@u")]);
    assert_eq!(a.consensus_owner, None);
}

#[test]
fn aggregate_file_and_directory_may_share_a_name() {
    let root = aggregate(&entries(&[("a", "@t"), ("a/b", "@t")]));
    assert_eq!(root.files, vec![file("a", "@t")]);
    assert_eq!(dir_named(&root, "a").files, vec![file("b", "@t")]);
}

#[test]
fn insert_then_settle_is_aggregate() {
    let list = [("a/b/c.txt", "@x"), ("a/d.txt", "@x"), ("e.txt", ""), ("f/g.txt", "@y")];
    let mut root = DirectoryNode::root();
    for (p, o) in list {
        root.insert(&RelPath::parse(p).unwrap(), o);
    }
    assert_eq!(dir_named(&root, "a").consensus_owner, None);
    root.settle();
    assert_eq!(dir_named(&root, "a").consensus_owner, Some("@x".to_string()));
    assert_eq!(root, aggregate(&entries(&list)));
}

#[test]
fn settle_twice_changes_nothing() {
    let mut root = aggregate(&entries(&[("a/b/x", "@t"), ("a/y", "@t"), ("c/z", "")]));
    let before = format!("{:?}", root);
    root.settle();
    assert_eq!(format!("{:?}", root), before);
}
