use codeowners_resolver::json::{encoded, strings_json, JsonError};
use codeowners_resolver::listing::{listed_paths, parse_paths};
use codeowners_resolver::path::{PathError, RelPath};
use codeowners_resolver::progress::{
    progress_due, progress_payload, AllCodeownersProgressPayload, PROGRESS_STRIDE,
};
use codeowners_resolver::report::{
    changed_owners, group_by_owner, ownership_tree, tree_of_listing, FrontendCodeowner,
};
use codeowners_resolver::resolve::owner_string;
use codeowners_resolver::rules::compile_rules;
use codeowners_resolver::tree::{aggregate, FileEntry};

fn paths(list: &[&str]) -> Vec<RelPath> {
    list.iter().map(|p| RelPath::parse(p).unwrap()).collect()
}

fn group(owners: &str, files: &[&str]) -> FrontendCodeowner {
    FrontendCodeowner {
        owners: owners.to_string(),
        files: files.iter().map(|f| f.to_string()).collect(),
    }
}

#[test]
fn listed_paths_are_the_lines_that_are_not_empty() {
    assert_eq!(listed_paths("a\nb/c\n"), vec!["a", "b/c"]);
    assert_eq!(listed_paths("a\n\n\nb"), vec!["a", "b"]);
    assert_eq!(listed_paths(""), Vec::<String>::new());
    assert_eq!(listed_paths("\n\n"), Vec::<String>::new());
    assert_eq!(listed_paths(" \nx y\n"), vec![" ", "x y"]);
}

#[test]
fn parse_paths_reads_all_or_reports_the_first_fault() {
    let ok = parse_paths(&vec!["a".to_string(), "b/c".to_string()]).unwrap();
    assert_eq!(ok.len(), 2);
    assert_eq!(ok[1].as_str(), "b/c");
    assert!(parse_paths(&vec![]).unwrap().is_empty());
    let texts = vec!["a".to_string(), "b//c".to_string(), "/d".to_string()];
    assert_eq!(parse_paths(&texts).unwrap_err(), PathError::EmptySegment);
    let texts = vec!["../a".to_string(), "".to_string()];
    assert_eq!(parse_paths(&texts).unwrap_err(), PathError::DotSegment);
}

#[test]
fn group_by_owner_sorts_groups_and_keeps_file_order() {
    let rules = compile_rules("*.rs @rust\n*.md @docs @writers\n");
    let groups = group_by_owner(
        &rules,
        &paths(&["src/b.rs", "README.md", "LICENSE", "src/a.rs", "docs/x.md", "Makefile"]),
    );
    assert_eq!(
        groups,
        vec![
            group("", &["LICENSE", "Makefile"]),
            group("@docs, @writers", &["README.md", "docs/x.md"]),
            group("@rust", &["src/b.rs", "src/a.rs"]),
        ]
    );
}

#[test]
fn group_by_owner_orders_keys_as_strings_compare() {
    let rules = compile_rules("a @b\nb @B\nc @a\nd @\u{e9}\ne @ab\nf @_\n");
    let groups = group_by_owner(&rules, &paths(&["a", "b", "c", "d", "e", "f", "g"]));
    let keys: Vec<String> = groups.iter().map(|g| g.owners.clone()).collect();
    let mut sorted = keys.clone();
    sorted.sort();
    assert_eq!(keys, sorted);
    assert_eq!(keys, vec!["", "@B", "@_", "@a", "@ab", "@b", "@\u{e9}"]);
}

#[test]
fn group_by_owner_of_nothing_is_empty() {
    let rules = compile_rules("* @x\n");
    assert!(group_by_owner(&rules, &vec![]).is_empty());
}

#[test]
fn group_by_owner_keeps_a_path_that_is_given_twice() {
    let rules = compile_rules("* @x\n");
    let groups = group_by_owner(&rules, &paths(&["a", "b", "a"]));
    assert_eq!(groups, vec![group("@x", &["a", "b", "a"])]);
}

#[test]
fn changed_owners_reads_a_listing() {
    let rules = compile_rules("* @all\n/docs/\n");
    let groups = changed_owners(&rules, "src/a.rs\ndocs/b.md\n\nREADME\n").unwrap();
    assert_eq!(groups, vec![group("", &["docs/b.md"]), group("@all", &["src/a.rs", "README"])]);
    assert!(changed_owners(&rules, "").unwrap().is_empty());
}

#[test]
fn changed_owners_reports_a_faulty_line() {
    let rules = compile_rules("* @all\n");
    assert_eq!(changed_owners(&rules, "a\n/b\n").unwrap_err(), PathError::Absolute);
    assert_eq!(changed_owners(&rules, "a/\n").unwrap_err(), PathError::TrailingSeparator);
    assert_eq!(changed_owners(&rules, "a\nb/../c\n").unwrap_err(), PathError::DotSegment);
}

#[test]
fn ownership_tree_resolves_and_aggregates() {
    let rules = compile_rules("* @all\nsrc/ @dev\n");
    let list = ["README", "src/a.rs", "src/x/b.rs", "docs/c.md"];
    let tree = ownership_tree(&rules, &paths(&list));
    let by_hand: Vec<FileEntry> = list
        .iter()
        .map(|p| {
            let path = RelPath::parse(p).unwrap();
            let owner = owner_string(&rules, &path);
            FileEntry { path, owner }
        })
        .collect();
    assert_eq!(tree, aggregate(&by_hand));
    assert_eq!(tree.consensus_owner, None);
    assert_eq!(tree.subdirectories[0].name, "src");
    assert_eq!(tree.subdirectories[0].consensus_owner, Some("@dev".to_string()));
    assert_eq!(tree.subdirectories[1].consensus_owner, Some("@all".to_string()));
}

#[test]
fn tree_of_listing_reads_a_listing() {
    let rules = compile_rules("* @all\n");
    let tree = tree_of_listing(&rules, "a/b\na/c\n").unwrap();
    assert_eq!(tree, ownership_tree(&rules, &paths(&["a/b", "a/c"])));
    assert_eq!(tree_of_listing(&rules, "a//b\n").unwrap_err(), PathError::EmptySegment);
}

#[test]
fn strings_json_is_an_array_of_string_literals() {
    assert_eq!(strings_json(&vec![]), Ok("[]".to_string()));
    let items = vec!["a".to_string(), "b/c".to_string()];
    assert_eq!(strings_json(&items), Ok("[\"a\",\"b/c\"]".to_string()));
    let items = vec!["q\"uote".to_string(), "back\\slash".to_string(), "\u{e9}\t".to_string()];
    assert_eq!(
        strings_json(&items),
        Ok("[\"q\\\"uote\",\"back\\\\slash\",\"\u{e9}\\t\"]".to_string())
    );
}

#[test]
fn strings_json_of_listed_paths() {
    assert_eq!(
        strings_json(&listed_paths("README.md\nsrc/main.rs\n")),
        Ok("[\"README.md\",\"src/main.rs\"]".to_string())
    );
    assert_eq!(strings_json(&listed_paths("")), Ok("[]".to_string()));
}

#[test]
fn encoded_maps_the_outcome_of_the_encoder() {
    assert_eq!(encoded(Ok("[]".to_string())), Ok("[]".to_string()));
    let failure = serde_json::from_str::<u8>("x").unwrap_err();
    assert_eq!(encoded(Err(failure)), Err(JsonError::Encode));
}

#[test]
fn progress_is_due_every_hundredth_file() {
    assert_eq!(PROGRESS_STRIDE, 100);
    assert!(progress_due(0));
    assert!(!progress_due(1));
    assert!(!progress_due(99));
    assert!(progress_due(100));
    assert!(!progress_due(101));
    assert!(progress_due(2500));
}

#[test]
fn progress_payload_reports_counts_and_session() {
    assert_eq!(
        progress_payload(200, 1234, "session-1"),
        AllCodeownersProgressPayload {
            files_handled: 200,
            files_total: 1234,
            session_id: "session-1".to_string(),
        }
    );
    let wide = u32::MAX as usize;
    assert_eq!(progress_payload(wide, wide, "").files_handled, u32::MAX);
    if usize::BITS > 32 {
        let beyond = (u32::MAX as u64 + 6) as usize;
        assert_eq!(progress_payload(beyond, beyond, "").files_handled, 5);
        assert_eq!(progress_payload(beyond, beyond, "").files_total, 5);
    }
}
