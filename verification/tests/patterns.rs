use codeowners_resolver::path::RelPath;
use codeowners_resolver::pattern::{CompiledPattern, Segment, Token};

fn hits(pattern: &str, path: &str) -> bool {
    CompiledPattern::compile(pattern).matches(&RelPath::parse(path).unwrap())
}

#[test]
fn compile_records_anchor_directory_flag_and_tokens() {
    let p = CompiledPattern::compile("/a/*.rs/");
    assert!(p.anchored);
    assert!(p.directory_only);
    assert_eq!(
        p.segments,
        vec![
            Segment::Glob(vec![Token::Literal('a')]),
            Segment::Glob(vec![
                Token::AnyRun,
                Token::Literal('.'),
                Token::Literal('r'),
                Token::Literal('s'),
            ]),
        ]
    );
}

#[test]
fn compile_plain_name_is_floating() {
    let p = CompiledPattern::compile("docs");
    assert!(!p.anchored);
    assert!(!p.directory_only);
    assert_eq!(
        p.segments,
        vec![Segment::Glob(vec![
            Token::Literal('d'),
            Token::Literal('o'),
            Token::Literal('c'),
            Token::Literal('s'),
        ])]
    );
}

#[test]
fn compile_double_star_is_any_depth_only_as_a_whole_segment() {
    assert_eq!(CompiledPattern::compile("**").segments, vec![Segment::AnyDepth]);
    assert_eq!(
        CompiledPattern::compile("a/**/b").segments,
        vec![
            Segment::Glob(vec![Token::Literal('a')]),
            Segment::AnyDepth,
            Segment::Glob(vec![Token::Literal('b')]),
        ]
    );
    assert_eq!(
        CompiledPattern::compile("a**").segments,
        vec![Segment::Glob(vec![Token::Literal('a'), Token::AnyRun, Token::AnyRun])]
    );
}

#[test]
fn compile_question_mark_and_brackets() {
    assert_eq!(
        CompiledPattern::compile("?[a]").segments,
        vec![Segment::Glob(vec![
            Token::AnyChar,
            Token::Literal('['),
            Token::Literal('a'),
            Token::Literal(']'),
        ])]
    );
}

#[test]
fn compile_is_a_function_of_the_text() {
    assert_eq!(CompiledPattern::compile("docs/**/*.md"), CompiledPattern::compile("docs/**/*.md"));
    assert_ne!(CompiledPattern::compile("docs"), CompiledPattern::compile("/docs"));
    assert_ne!(CompiledPattern::compile("docs"), CompiledPattern::compile("docs/"));
}

#[test]
fn compile_empty_and_lone_separator() {
    let empty = CompiledPattern::compile("");
    assert!(!empty.anchored && !empty.directory_only);
    assert_eq!(empty.segments, vec![Segment::Glob(vec![])]);
    let slash = CompiledPattern::compile("/");
    assert!(!slash.anchored && slash.directory_only);
    assert_eq!(slash.segments, vec![Segment::Glob(vec![])]);
    assert!(!hits("", "a"));
    assert!(!hits("/", "a"));
    assert!(!hits("/", "a/b"));
}

#[test]
fn compile_chars_agrees_with_compile() {
    let chars: Vec<char> = "/src/*.rs".chars().collect();
    assert_eq!(CompiledPattern::compile_chars(&chars), CompiledPattern::compile("/src/*.rs"));
}

#[test]
fn anchored_name_matches_only_at_the_root() {
    assert!(hits("/build", "build"));
    assert!(hits("/build", "build/out.o"));
    assert!(hits("/build", "build/x/y/out.o"));
    assert!(!hits("/build", "src/build"));
    assert!(!hits("/build", "src/build/out.o"));
    assert!(!hits("/build", "builds"));
    assert!(!hits("/build", "builds/out.o"));
}

#[test]
fn floating_name_matches_at_any_depth() {
    assert!(hits("build", "build"));
    assert!(hits("build", "build/out.o"));
    assert!(hits("build", "src/build"));
    assert!(hits("build", "src/build/out.o"));
    assert!(hits("build", "a/b/build/c/d"));
    assert!(!hits("build", "builder"));
    assert!(!hits("build", "src/rebuild"));
    assert!(!hits("build", "src/main.rs"));
}

#[test]
fn double_wildcard_matches_any_number_of_directories() {
    assert!(hits("docs/**/*.md", "docs/a.md"));
    assert!(hits("docs/**/*.md", "docs/x/a.md"));
    assert!(hits("docs/**/*.md", "docs/x/y/a.md"));
    assert!(!hits("docs/**/*.md", "other/a.md"));
    assert!(!hits("docs/**/*.md", "docs/a.txt"));
    assert!(!hits("docs/**/*.md", "x/docs/a.md"));
    assert!(!hits("docs/**/*.md", "docs"));
}

#[test]
fn leading_double_wildcard_reaches_any_ancestor() {
    assert!(hits("**/foo", "foo"));
    assert!(hits("**/foo", "a/foo"));
    assert!(hits("**/foo", "a/b/foo"));
    assert!(hits("**/foo", "a/foo/x"));
    assert!(!hits("**/foo", "a/food"));
    assert!(hits("**/foo/bar", "x/y/foo/bar"));
    assert!(!hits("**/foo/bar", "x/foo/y/bar"));
}

#[test]
fn trailing_double_wildcard_reaches_any_descendant() {
    assert!(hits("foo/**", "foo/a"));
    assert!(hits("foo/**", "foo/a/b"));
    assert!(!hits("foo/**", "foo"));
    assert!(hits("/**", "foo"));
    assert!(hits("**/**", "foo"));
    assert!(hits("a/**/**", "a/b"));
    assert!(!hits("a/**/**", "a"));
    assert!(!hits("foo/**", "a/foo/b"));
    assert!(!hits("foo/**", "fo/a"));
}

#[test]
fn lone_wildcards_match_everything() {
    for path in ["a", "a/b", "a/b/c.txt", ".hidden", "x y"] {
        assert!(hits("*", path));
        assert!(hits("**", path));
    }
}

#[test]
fn directory_only_pattern_needs_a_directory() {
    assert!(hits("vendor/", "vendor/lib.go"));
    assert!(hits("vendor/", "vendor/a/b/lib.go"));
    assert!(hits("vendor/", "src/vendor/lib.go"));
    assert!(!hits("vendor/", "vendor"));
    assert!(!hits("vendor/", "src/vendor"));
    assert!(!hits("vendor/", "vendors/lib.go"));
}

#[test]
fn plain_name_also_matches_a_file_of_that_name() {
    assert!(hits("vendor", "vendor"));
    assert!(hits("vendor", "src/vendor"));
    assert!(hits("vendor", "vendor/lib.go"));
    assert!(hits("vendor", "src/vendor/lib.go"));
}

#[test]
fn anchored_directory_only_pattern() {
    assert!(hits("/docs/", "docs/a.md"));
    assert!(hits("/docs/", "docs/img/b.png"));
    assert!(!hits("/docs/", "docs"));
    assert!(!hits("/docs/", "src/docs/a.md"));
}

#[test]
fn star_stays_within_one_name() {
    assert!(hits("*.go", "main.go"));
    assert!(hits("*.go", "src/main.go"));
    assert!(hits("*.go", "src/pkg/main.go"));
    assert!(hits("*.go", ".go"));
    assert!(!hits("*.go", "main.rs"));
    assert!(!hits("*.go", "main.go.bak"));
    assert!(!hits("/src/*.go", "src/pkg/main.go"));
    assert!(hits("/src/*.go", "src/main.go"));
}

#[test]
fn star_backtracks() {
    assert!(hits("a*b*c", "abc"));
    assert!(hits("a*b*c", "aXbYc"));
    assert!(hits("a*b*c", "abbc"));
    assert!(hits("a*b*c", "abcbc"));
    assert!(!hits("a*b*c", "ab"));
    assert!(!hits("a*b*c", "acb"));
    assert!(hits("*a*", "banana"));
    assert!(!hits("*a*", "cherry"));
}

#[test]
fn question_mark_is_exactly_one_character() {
    assert!(hits("?.md", "a.md"));
    assert!(hits("?.md", "docs/b.md"));
    assert!(!hits("?.md", "ab.md"));
    assert!(!hits("?.md", ".md"));
    assert!(hits("??", "ab"));
    assert!(!hits("??", "a"));
    assert!(hits("?", "\u{e9}"));
}

#[test]
fn brackets_are_literal() {
    assert!(hits("[ab].md", "[ab].md"));
    assert!(!hits("[ab].md", "a.md"));
    assert!(!hits("[ab].md", "b.md"));
}

#[test]
fn matching_is_case_sensitive() {
    assert!(hits("README", "README"));
    assert!(!hits("README", "readme"));
    assert!(!hits("*.MD", "a.md"));
}

#[test]
fn pattern_with_inner_separator_is_tied_to_the_root() {
    assert!(hits("a/b", "a/b"));
    assert!(hits("a/b", "a/b/c"));
    assert!(!hits("a/b", "x/a/b"));
    assert!(!hits("a/b", "a"));
    assert!(!hits("a/b", "a/c/b"));
    assert!(hits("docs/*", "docs/readme.md"));
    assert!(hits("docs/*", "docs/sub/file"));
    assert!(!hits("docs/*", "docs"));
    assert!(!hits("docs/*", "src/docs/readme.md"));
}

#[test]
fn empty_pattern_segment_matches_nothing() {
    assert!(!hits("a//b", "a/b"));
    assert!(!hits("//a", "a"));
}
