use codeowners_resolver::path::{PathError, RelPath};

#[test]
fn parse_splits_on_separators() {
    let p = RelPath::parse("src/lib/mod.rs").unwrap();
    assert_eq!(p.depth(), 3);
    let names: Vec<String> = p.segments().iter().map(|n| n.iter().collect()).collect();
    assert_eq!(names, vec!["src", "lib", "mod.rs"]);
    assert_eq!(p.as_str(), "src/lib/mod.rs");
}

#[test]
fn parse_single_name() {
    let p = RelPath::parse("README.md").unwrap();
    assert_eq!(p.depth(), 1);
    assert_eq!(p.as_str(), "README.md");
}

#[test]
fn parse_keeps_dots_inside_names() {
    assert!(RelPath::parse(".gitignore").is_ok());
    assert!(RelPath::parse("a/...").is_ok());
    assert!(RelPath::parse("a/.b/c..").is_ok());
    assert!(RelPath::parse("a b/c\td").is_ok());
}

#[test]
fn parse_rejects_the_empty_path() {
    assert_eq!(RelPath::parse("").unwrap_err(), PathError::Empty);
}

#[test]
fn parse_rejects_absolute_paths() {
    assert_eq!(RelPath::parse("/etc/passwd").unwrap_err(), PathError::Absolute);
    assert_eq!(RelPath::parse("/").unwrap_err(), PathError::Absolute);
    assert_eq!(RelPath::parse("//a").unwrap_err(), PathError::Absolute);
    assert_eq!(RelPath::parse("/a/../b/").unwrap_err(), PathError::Absolute);
}

#[test]
fn parse_rejects_a_trailing_separator() {
    assert_eq!(RelPath::parse("docs/").unwrap_err(), PathError::TrailingSeparator);
    assert_eq!(RelPath::parse("a//").unwrap_err(), PathError::TrailingSeparator);
    assert_eq!(RelPath::parse("../a/").unwrap_err(), PathError::TrailingSeparator);
}

#[test]
fn parse_rejects_empty_segments() {
    assert_eq!(RelPath::parse("a//b").unwrap_err(), PathError::EmptySegment);
    assert_eq!(RelPath::parse("a//../b").unwrap_err(), PathError::EmptySegment);
    assert_eq!(RelPath::parse("../a//b").unwrap_err(), PathError::EmptySegment);
}

#[test]
fn parse_rejects_dot_segments() {
    assert_eq!(RelPath::parse(".").unwrap_err(), PathError::DotSegment);
    assert_eq!(RelPath::parse("..").unwrap_err(), PathError::DotSegment);
    assert_eq!(RelPath::parse("a/../b").unwrap_err(), PathError::DotSegment);
    assert_eq!(RelPath::parse("a/./b").unwrap_err(), PathError::DotSegment);
    assert_eq!(RelPath::parse("a/b/..").unwrap_err(), PathError::DotSegment);
}

#[test]
fn every_error_has_its_message() {
    assert_eq!(PathError::Empty.message(), "the path is empty");
    assert_eq!(PathError::Absolute.message(), "the path starts with a separator");
    assert_eq!(PathError::TrailingSeparator.message(), "the path ends with a separator");
    assert_eq!(PathError::EmptySegment.message(), "the path has an empty segment");
    assert_eq!(PathError::DotSegment.message(), "the path has a `.` or `..` segment");
}
