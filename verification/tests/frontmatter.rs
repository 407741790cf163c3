use workdown_core::frontmatter::{parse_work_item, split_frontmatter, ParseError};
use workdown_core::yaml::YamlValue;

fn test_path() -> &'static str {
    "test-item.md"
}

fn get<'a>(entries: &'a [(String, YamlValue)], name: &str) -> Option<&'a YamlValue> {
    entries
        .iter()
        .find(|(key, _)| key == name)
        .map(|(_, value)| value)
}

fn is_text(value: &YamlValue, text: &str) -> bool {
    matches!(value, YamlValue::String(s) if s == text)
}


#[test]
fn split_retains_id_in_map() {
    let content = "---\nid: custom-id\ntitle: Test\n---\nbody\n";
    let (frontmatter, body) = split_frontmatter(content, test_path()).unwrap();
    assert!(is_text(get(&frontmatter, "id").unwrap(), "custom-id"));
    assert!(is_text(get(&frontmatter, "title").unwrap(), "Test"));
    assert!(body.contains("body"));
}

#[test]
fn split_empty_frontmatter_returns_empty_map() {
    let content = "---\n---\nSome body.\n";
    let (frontmatter, body) = split_frontmatter(content, test_path()).unwrap();
    assert!(frontmatter.is_empty());
    assert!(body.contains("Some body."));
}

#[test]
fn split_missing_opening_errors() {
    let content = "title: x\n---\nbody\n";
    let result = split_frontmatter(content, test_path());
    assert!(matches!(result, Err(ParseError::MissingFrontmatter { .. })));
}

#[test]
fn split_missing_closing_errors() {
    let content = "---\ntitle: x\n";
    let result = split_frontmatter(content, test_path());
    assert!(matches!(
        result,
        Err(ParseError::UnclosedFrontmatter { .. })
    ));
}

#[test]
fn split_list_frontmatter_errors() {
    let content = "---\n- one\n- two\n---\nbody\n";
    let result = split_frontmatter(content, test_path());
    assert!(matches!(
        result,
        Err(ParseError::FrontmatterNotMapping { .. })
    ));
}

#[test]
fn split_invalid_yaml_errors() {
    let content = "---\n: :\n  bad:\n    - [\n---\nbody\n";
    let result = split_frontmatter(content, test_path());
    assert!(matches!(result, Err(ParseError::InvalidYaml { .. })));
}

#[test]
fn split_preserves_body_with_markdown() {
    let content = "---\ntitle: X\n---\n\n# Heading\n\n- a\n- b\n";
    let (_, body) = split_frontmatter(content, test_path()).unwrap();
    assert!(body.contains("# Heading"));
    assert!(body.contains("- a"));
}

#[test]
fn parse_typical_work_item() {
    let content = "\
---
title: Implement login
status: open
priority: high
tags: [auth, backend]
---

## Description

This is the body.
";
    let item = parse_work_item(content, test_path()).unwrap();

    assert_eq!(item.id.as_str(), "test-item");
    assert!(is_text(get(&item.frontmatter, "title").unwrap(), "Implement login"));
    assert!(is_text(get(&item.frontmatter, "status").unwrap(), "open"));
    assert!(is_text(get(&item.frontmatter, "priority").unwrap(), "high"));

    // tags is a sequence
    let tags = get(&item.frontmatter, "tags").unwrap();
    assert!(matches!(tags, YamlValue::Sequence(_)));

    assert!(item.body.contains("## Description"));
    assert!(item.body.contains("This is the body."));
}

#[test]
fn parse_empty_frontmatter() {
    let content = "\
---
---
Some body text.
";
    let item = parse_work_item(content, test_path()).unwrap();

    assert_eq!(item.id.as_str(), "test-item");
    assert!(item.frontmatter.is_empty());
    assert!(item.body.contains("Some body text."));
}

#[test]
fn parse_empty_body() {
    let content = "\
---
title: No body
---
";
    let item = parse_work_item(content, test_path()).unwrap();

    assert_eq!(item.frontmatter.len(), 1);
    assert!(item.body.trim().is_empty());
}

#[test]
fn missing_opening_delimiter() {
    let content = "title: oops\n---\nbody\n";
    let result = parse_work_item(content, test_path());

    assert!(matches!(result, Err(ParseError::MissingFrontmatter { .. })));
}

#[test]
fn missing_closing_delimiter() {
    let content = "---\ntitle: oops\n";
    let result = parse_work_item(content, test_path());

    assert!(matches!(
        result,
        Err(ParseError::UnclosedFrontmatter { .. })
    ));
}

#[test]
fn frontmatter_is_a_list() {
    let content = "---\n- one\n- two\n---\nbody\n";
    let result = parse_work_item(content, test_path());

    assert!(matches!(
        result,
        Err(ParseError::FrontmatterNotMapping { .. })
    ));
}

#[test]
fn invalid_yaml() {
    let content = "---\n: :\n  bad:\n    - [\n---\nbody\n";
    let result = parse_work_item(content, test_path());

    assert!(matches!(result, Err(ParseError::InvalidYaml { .. })));
}

#[test]
fn empty_file() {
    let content = "";
    let result = parse_work_item(content, test_path());

    assert!(matches!(result, Err(ParseError::MissingFrontmatter { .. })));
}

#[test]
fn body_preserves_markdown_structure() {
    let content = "\
---
title: Rich body
---

# Heading

- bullet 1
- bullet 2

```rust
fn main() {}
```
";
    let item = parse_work_item(content, test_path()).unwrap();

    assert!(item.body.contains("# Heading"));
    assert!(item.body.contains("- bullet 1"));
    assert!(item.body.contains("fn main() {}"));
}

#[test]
fn frontmatter_with_all_yaml_types() {
    let content = "\
---
name: test
count: 42
ratio: 3.14
active: true
tags: [a, b, c]
---
";
    let item = parse_work_item(content, test_path()).unwrap();

    assert!(matches!(get(&item.frontmatter, "name").unwrap(), YamlValue::String(_)));
    assert!(matches!(get(&item.frontmatter, "count").unwrap(), YamlValue::Number { .. }));
    assert!(matches!(get(&item.frontmatter, "ratio").unwrap(), YamlValue::Number { .. }));
    assert!(matches!(get(&item.frontmatter, "active").unwrap(), YamlValue::Bool(_)));
    assert!(matches!(get(&item.frontmatter, "tags").unwrap(), YamlValue::Sequence(_)));
}

#[test]
fn id_from_filename() {
    let content = "---\ntitle: Test\n---\n";
    let item = parse_work_item(content, ("fix-login.md")).unwrap();
    assert_eq!(item.id.as_str(), "fix-login");
}

#[test]
fn id_from_frontmatter_override() {
    let content = "---\nid: custom-id\ntitle: Test\n---\n";
    let item = parse_work_item(content, ("fix-login.md")).unwrap();
    assert_eq!(item.id.as_str(), "custom-id");
    // `id` should be stripped from frontmatter
    assert!(get(&item.frontmatter, "id").is_none());
}

#[test]
fn id_not_string_rejected() {
    let content = "---\nid: 42\ntitle: Test\n---\n";
    let result = parse_work_item(content, ("fix-login.md"));
    assert!(matches!(result, Err(ParseError::IdNotString { .. })));
}

#[test]
fn id_invalid_format_uppercase() {
    let content = "---\nid: Fix-Login\ntitle: Test\n---\n";
    let result = parse_work_item(content, ("whatever.md"));
    assert!(matches!(result, Err(ParseError::InvalidId { .. })));
}

#[test]
fn id_starts_with_digit_accepted() {
    let content = "---\ntitle: Test\n---\n";
    let item = parse_work_item(content, ("123-task.md")).unwrap();
    assert_eq!(item.id.as_str(), "123-task");
}

#[test]
fn id_invalid_format_trailing_hyphen() {
    let content = "---\ntitle: Test\n---\n";
    let result = parse_work_item(content, ("fix-login-.md"));
    assert!(matches!(result, Err(ParseError::InvalidId { .. })));
}

#[test]
fn id_invalid_format_underscores() {
    let content = "---\ntitle: Test\n---\n";
    let result = parse_work_item(content, ("fix_login.md"));
    assert!(matches!(result, Err(ParseError::InvalidId { .. })));
}

#[test]
fn id_with_digits() {
    let content = "---\ntitle: Test\n---\n";
    let item = parse_work_item(content, ("task-42.md")).unwrap();
    assert_eq!(item.id.as_str(), "task-42");
}

#[test]
fn id_single_letter() {
    let content = "---\ntitle: Test\n---\n";
    let item = parse_work_item(content, ("x.md")).unwrap();
    assert_eq!(item.id.as_str(), "x");
}
