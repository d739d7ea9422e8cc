use codeowners_resolver::path::RelPath;
use codeowners_resolver::report::ownership_tree;
use codeowners_resolver::resolve::{owner_string, resolve, ResolvedOwnership};
use codeowners_resolver::rules::compile_rules;
use codeowners_resolver::tree::{aggregate, FileEntry};

fn path(text: &str) -> RelPath {
    RelPath::parse(text).unwrap()
}

#[test]
fn default_and_docs_rules_resolve_and_aggregate() {
    let rules = compile_rules("* @org/default\ndocs/ @org/docs\n");
    assert_eq!(rules.len(), 2);
    let paths = ["README.md", "docs/a.md", "docs/img/b.png"];
    let owners: Vec<String> = paths.iter().map(|p| owner_string(&rules, &path(p))).collect();
    assert_eq!(owners, vec!["@org/default", "@org/docs", "@org/docs"]);
    assert_eq!(
        resolve(&rules, &path("docs/a.md")),
        ResolvedOwnership::Owned(vec!["@org/docs".to_string()])
    );
    let entries: Vec<FileEntry> = paths
        .iter()
        .zip(owners.iter())
        .map(|(p, o)| FileEntry { path: path(p), owner: o.clone() })
        .collect();
    let root = aggregate(&entries);
    assert_eq!(root.name, "");
    assert_eq!(root.consensus_owner, None);
    assert_eq!(root.files.len(), 1);
    assert_eq!(root.files[0].name, "README.md");
    assert_eq!(root.files[0].owner, "@org/default");
    assert_eq!(root.subdirectories.len(), 1);
    let docs = &root.subdirectories[0];
    assert_eq!(docs.name, "docs");
    assert_eq!(docs.consensus_owner, Some("@org/docs".to_string()));
    assert_eq!(docs.subdirectories[0].name, "img");
    assert_eq!(docs.subdirectories[0].consensus_owner, Some("@org/docs".to_string()));
    let all: Vec<RelPath> = paths.iter().map(|p| path(p)).collect();
    assert_eq!(ownership_tree(&rules, &all), root);
}

#[test]
fn whole_tree_with_one_owner_still_has_no_root_consensus() {
    let rules = compile_rules("* @everyone\n");
    let all: Vec<RelPath> = ["a", "b/c", "b/d/e"].iter().map(|p| path(p)).collect();
    let root = ownership_tree(&rules, &all);
    assert_eq!(root.consensus_owner, None);
    assert_eq!(root.subdirectories[0].consensus_owner, Some("@everyone".to_string()));
}
