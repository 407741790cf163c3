# workdown_core

The core library of a git-native project tracker, written in Verus: work
items are Markdown files with YAML frontmatter, typed by a schema, linked to
each other, and rolled up, pulled, queried and rendered.

`src/` is the verified library. Each public function states what it returns
over spec functions and views; the laws that relate several functions are
public proof functions named `law_*`. Calls into outside crates (YAML, regex,
chrono, csv, JSON, SHA-256) go through small trusted wrappers whose contracts
name the outside result.

`app/` is the ordinary Rust around it: reading the project's files from disk,
the serde copies of the library's configuration types, and the
floating-point reductions.

`tests/` exercises the library from outside.
