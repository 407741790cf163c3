use workdown_core::slug::{is_valid_id, slugify};

#[test]
fn slugify_simple_title() {
    assert_eq!(slugify("My Cool Task").unwrap(), "my-cool-task");
}

#[test]
fn slugify_special_characters() {
    assert_eq!(slugify("Fix Bug #123!").unwrap(), "fix-bug-123");
}

#[test]
fn slugify_extra_spaces_and_symbols() {
    assert_eq!(slugify("  Hello,  World!  ").unwrap(), "hello-world");
}

#[test]
fn slugify_preserves_leading_digits() {
    assert_eq!(slugify("123 Task").unwrap(), "123-task");
}

#[test]
fn slugify_only_special_characters_fails() {
    assert!(slugify("###!!!").is_err());
}

#[test]
fn slugify_only_digits_succeeds() {
    assert_eq!(slugify("12345").unwrap(), "12345");
}

#[test]
fn slugify_preserves_internal_digits() {
    assert_eq!(slugify("Task 42 Done").unwrap(), "task-42-done");
}

#[test]
fn slugify_error_carries_the_input() {
    let error = slugify("###").unwrap_err();
    assert_eq!(error.input, "###");
}

#[test]
fn slugify_result_is_a_valid_id() {
    for name in ["A -- B", "  x  ", "Ünïcode Name 7", "__a__b__"] {
        let slug = slugify(name).unwrap();
        assert!(is_valid_id(&slug), "{slug}");
        assert_eq!(slugify(&slug).unwrap(), slug);
    }
}

#[test]
fn valid_ids() {
    assert!(is_valid_id("auth-epic"));
    assert!(is_valid_id("1st"));
    assert!(!is_valid_id(""));
    assert!(!is_valid_id("-lead"));
    assert!(!is_valid_id("Upper"));
    assert!(!is_valid_id("under_score"));
}
