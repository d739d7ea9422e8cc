use codeowners_resolver::path::RelPath;
use codeowners_resolver::resolve::{
    get_joined_codeowners, join_owners, owner_display, owner_string, owners_of, resolve,
    ResolvedOwnership,
};
use codeowners_resolver::rules::{compile_rules, Rule};

fn path(text: &str) -> RelPath {
    RelPath::parse(text).unwrap()
}

fn owned(owners: &[&str]) -> ResolvedOwnership {
    ResolvedOwnership::Owned(owners.iter().map(|o| o.to_string()).collect())
}

#[test]
fn resolve_gives_the_same_answer_every_time() {
    let text = "* @all\n*.rs @rust\n/docs/ @docs @writers\nvendor/\n";
    let rules = compile_rules(text);
    let again = compile_rules(text);
    for p in ["README", "src/main.rs", "docs/a.md", "vendor/x/y.rs", "a/vendor/z"] {
        let first = resolve(&rules, &path(p));
        assert_eq!(first, resolve(&rules, &path(p)));
        assert_eq!(first, resolve(&again, &path(p)));
    }
}

#[test]
fn resolve_last_matching_rule_wins() {
    let rules = compile_rules("*.rs @first\nsrc/ @second\n");
    assert_eq!(resolve(&rules, &path("src/main.rs")), owned(&["@second"]));
    let swapped = compile_rules("src/ @second\n*.rs @first\n");
    assert_eq!(resolve(&swapped, &path("src/main.rs")), owned(&["@first"]));
}

#[test]
fn resolve_later_rule_wins_among_three() {
    let rules = compile_rules("* @a\n*.md @b\nREADME.md @c\n");
    assert_eq!(resolve(&rules, &path("README.md")), owned(&["@c"]));
    assert_eq!(resolve(&rules, &path("docs/guide.md")), owned(&["@b"]));
    assert_eq!(resolve(&rules, &path("src/lib.rs")), owned(&["@a"]));
}

#[test]
fn resolve_duplicate_patterns_use_the_last() {
    let rules = compile_rules("a @x\na @y\n");
    assert_eq!(resolve(&rules, &path("a")), owned(&["@y"]));
}

#[test]
fn resolve_empty_owner_list_overrides_earlier_rules() {
    let rules = compile_rules("* @team\n*\ndocs/*\n");
    assert_eq!(resolve(&rules, &path("docs/readme.md")), ResolvedOwnership::Unowned);
    let rules = compile_rules("* @team\ndocs/*\n");
    assert_eq!(resolve(&rules, &path("docs/readme.md")), ResolvedOwnership::Unowned);
    assert_eq!(resolve(&rules, &path("README")), owned(&["@team"]));
    assert_eq!(owner_string(&rules, &path("docs/readme.md")), "");
}

#[test]
fn resolve_without_match_is_unowned() {
    let rules = compile_rules("*.rs @rust\n");
    assert_eq!(resolve(&rules, &path("README.md")), ResolvedOwnership::Unowned);
    assert_eq!(owners_of(&rules, &path("README.md")), None);
    assert_eq!(owner_string(&rules, &path("README.md")), "");
}

#[test]
fn resolve_without_rules_is_unowned() {
    let rules: Vec<Rule> = compile_rules("");
    assert_eq!(resolve(&rules, &path("anything/at/all")), ResolvedOwnership::Unowned);
    assert_eq!(owners_of(&rules, &path("anything/at/all")), None);
}

#[test]
fn owners_of_tells_no_match_from_no_owners() {
    let rules = compile_rules("* @team\ndocs/\n");
    assert_eq!(owners_of(&rules, &path("docs/a.md")), Some(&Vec::<String>::new()));
    assert_eq!(owners_of(&rules, &path("a.md")), Some(&vec!["@team".to_string()]));
    let none = compile_rules("x @y\n");
    assert_eq!(owners_of(&none, &path("a.md")), None);
}

#[test]
fn resolve_keeps_the_order_of_owners() {
    let rules = compile_rules("* @z @a @m\n");
    assert_eq!(resolve(&rules, &path("f")), owned(&["@z", "@a", "@m"]));
    assert_eq!(owner_string(&rules, &path("f")), "@z, @a, @m");
}

#[test]
fn resolve_works_on_rules_made_by_hand() {
    let rules = vec![
        Rule::new("*", vec!["@all".to_string()], 0),
        Rule::new("/build", vec![], 1),
    ];
    assert_eq!(resolve(&rules, &path("build/out")), ResolvedOwnership::Unowned);
    assert_eq!(resolve(&rules, &path("src/build")), owned(&["@all"]));
}

#[test]
fn join_owners_puts_comma_and_space_between() {
    let owners: Vec<String> = vec!["@a".into(), "b@example.com".into(), "@org/team".into()];
    assert_eq!(join_owners(&owners), "@a, b@example.com, @org/team");
    assert_eq!(join_owners(&vec!["@solo".to_string()]), "@solo");
    assert_eq!(join_owners(&vec![]), "");
    assert_eq!(join_owners(&vec!["".to_string(), "".to_string()]), ", ");
}

#[test]
fn get_joined_codeowners_keeps_none_and_joins_some() {
    assert_eq!(get_joined_codeowners(None), None);
    assert_eq!(get_joined_codeowners(Some(&vec![])), Some(String::new()));
    let owners: Vec<String> = vec!["@a".into(), "@b".into()];
    assert_eq!(get_joined_codeowners(Some(&owners)), Some("@a, @b".to_string()));
}

#[test]
fn owner_display_of_each_kind() {
    assert_eq!(owner_display(&ResolvedOwnership::Unowned), "");
    assert_eq!(owner_display(&owned(&["@a"])), "@a");
    assert_eq!(owner_display(&owned(&["@a", "@b"])), "@a, @b");
}
