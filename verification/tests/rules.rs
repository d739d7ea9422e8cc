use codeowners_resolver::pattern::CompiledPattern;
use codeowners_resolver::rules::{compile_rules, compile_rules_from_bytes, Rule};

fn summary(rules: &Vec<Rule>) -> Vec<(String, Vec<String>, usize)> {
    rules.iter().map(|r| (r.pattern.clone(), r.owners.clone(), r.order_index)).collect()
}

fn entry(pattern: &str, owners: &[&str], index: usize) -> (String, Vec<String>, usize) {
    (pattern.to_string(), owners.iter().map(|o| o.to_string()).collect(), index)
}

#[test]
fn compile_skips_comments_and_blank_lines() {
    let text = "# comment\n\n  \t\n*.rs @rust @core\n   # indented comment\n\
                /docs/ docs@example.com\nLICENSE\n";
    let rules = compile_rules(text);
    assert_eq!(
        summary(&rules),
        vec![
            entry("*.rs", &["@rust", "@core"], 3),
            entry("/docs/", &["docs@example.com"], 5),
            entry("LICENSE", &[], 6),
        ]
    );
}

#[test]
fn compile_empty_text_gives_no_rules() {
    assert!(compile_rules("").is_empty());
    assert!(compile_rules("\n\n").is_empty());
    assert!(compile_rules("# only\n#comments\n").is_empty());
    assert!(compile_rules("   \t  ").is_empty());
}

#[test]
fn compile_keeps_duplicates_and_order() {
    let rules = compile_rules("a @x\na @y\nb @z\na @x");
    assert_eq!(
        summary(&rules),
        vec![
            entry("a", &["@x"], 0),
            entry("a", &["@y"], 1),
            entry("b", &["@z"], 2),
            entry("a", &["@x"], 3),
        ]
    );
}

#[test]
fn compile_order_indices_are_distinct_and_growing() {
    let rules = compile_rules("\n# c\na\n\nb @o\n  c   @p @q\n#d\nd\n");
    let indices: Vec<usize> = rules.iter().map(|r| r.order_index).collect();
    assert_eq!(indices, vec![2, 4, 5, 7]);
}

#[test]
fn compile_stores_the_compiled_pattern() {
    let rules = compile_rules("/src/**/*.rs @rust\nvendor/\n");
    assert_eq!(rules[0].compiled_pattern, CompiledPattern::compile("/src/**/*.rs"));
    assert_eq!(rules[1].compiled_pattern, CompiledPattern::compile("vendor/"));
    assert!(rules[1].compiled_pattern.directory_only);
}

#[test]
fn compile_does_not_change_case() {
    let rules = compile_rules("Docs/README.MD @Org/Team\n");
    assert_eq!(summary(&rules), vec![entry("Docs/README.MD", &["@Org/Team"], 0)]);
}

#[test]
fn compile_takes_carriage_returns_as_white_space() {
    let rules = compile_rules("a @x\r\n\r\nb @y\r\n");
    assert_eq!(summary(&rules), vec![entry("a", &["@x"], 0), entry("b", &["@y"], 2)]);
}

#[test]
fn compile_splits_on_any_white_space() {
    let rules = compile_rules("a\t@x\u{3000}@y \u{a0} @z");
    assert_eq!(summary(&rules), vec![entry("a", &["@x", "@y", "@z"], 0)]);
}

#[test]
fn compile_hash_inside_a_line_is_no_comment() {
    let rules = compile_rules("a#b @x # note\n");
    assert_eq!(summary(&rules), vec![entry("a#b", &["@x", "#", "note"], 0)]);
}

#[test]
fn compile_from_bytes_reads_utf8() {
    let rules = compile_rules_from_bytes("* @org/default\ndocs/ @\u{e9}quipe\n".as_bytes());
    assert_eq!(
        summary(&rules),
        vec![entry("*", &["@org/default"], 0), entry("docs/", &["@\u{e9}quipe"], 1)]
    );
}

#[test]
fn compile_from_bytes_replaces_malformed_bytes() {
    let rules = compile_rules_from_bytes(b"a\xffb @x\n\xc3 @y\n");
    assert_eq!(
        summary(&rules),
        vec![entry("a\u{fffd}b", &["@x"], 0), entry("\u{fffd}", &["@y"], 1)]
    );
    assert!(compile_rules_from_bytes(b"").is_empty());
}

#[test]
fn rule_new_compiles_its_pattern() {
    let rule = Rule::new("/build", vec!["@ci".to_string()], 7);
    assert_eq!(rule.pattern, "/build");
    assert_eq!(rule.owners, vec!["@ci"]);
    assert_eq!(rule.order_index, 7);
    assert_eq!(rule.compiled_pattern, CompiledPattern::compile("/build"));
}
