//! Core library of a git-native project tracker: work item ids, the filter
//! clause grammar, schema validation and the aggregate roll-up.

pub mod coerce;
pub mod compute;
pub mod content_hash;
pub mod derive;
pub mod diagnostic;
pub mod frontmatter;
pub mod duration;
pub mod model;
pub mod numbers;
pub mod order;
pub mod project;
pub mod project_data;
pub mod slug;
pub mod store;
pub mod query;
pub mod required;
pub mod resource_refs;
pub mod resources;
pub mod resources_yaml;
pub mod rollup;
pub mod rule_refs;
pub mod schema;
pub mod schema_check;
pub mod schema_data;
pub mod schema_definition;
pub mod text;
pub mod timer_data;
pub mod views;
pub mod yaml;
