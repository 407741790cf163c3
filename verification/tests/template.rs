use workdown_core::frontmatter::{parse_template_content, ParseError};
use workdown_core::yaml::YamlValue;

fn test_path() -> &'static str {
    "bug-report.md"
}

fn get<'a>(entries: &'a [(String, YamlValue)], name: &str) -> Option<&'a YamlValue> {
    entries
        .iter()
        .find(|(key, _)| key == name)
        .map(|(_, value)| value)
}

fn is_text(value: &YamlValue, text: &str) -> bool {
    matches!(value, YamlValue::String(s) if s == text)
}


#[test]
fn template_without_id_parses() {
    let content = "\
---
type: bug
priority: medium
---

## Steps

1. ...
";
    let template = parse_template_content(content, test_path()).unwrap();
    assert!(is_text(get(&template.frontmatter, "type").unwrap(), "bug"));
    assert!(get(&template.frontmatter, "id").is_none());
    assert!(template.body.contains("## Steps"));
}

#[test]
fn template_with_literal_id_preserves_it() {
    let content = "---\nid: fixed-id\ntype: bug\n---\nbody\n";
    let template = parse_template_content(content, test_path()).unwrap();
    assert!(is_text(get(&template.frontmatter, "id").unwrap(), "fixed-id"));
}

#[test]
fn template_with_uuid_token_preserves_raw_token() {
    let content = "---\nid: $uuid\ntype: bug\n---\nbody\n";
    let template = parse_template_content(content, test_path()).unwrap();
    assert!(is_text(get(&template.frontmatter, "id").unwrap(), "$uuid"));
}

#[test]
fn template_missing_opening_delimiter_errors() {
    let content = "type: bug\n---\nbody\n";
    let result = parse_template_content(content, test_path());
    assert!(matches!(result, Err(ParseError::MissingFrontmatter { .. })));
}

#[test]
fn template_body_preserved() {
    let content = "---\ntype: bug\n---\n\n## Steps\n1. reproduce\n";
    let template = parse_template_content(content, test_path()).unwrap();
    assert!(template.body.contains("## Steps"));
    assert!(template.body.contains("1. reproduce"));
}
