//! `pose` — a library for reading, querying and rewriting service
//! orchestration documents: an ordered YAML-like tree of scalars,
//! sequences and mappings, accessors that extract services, environment
//! variables, dependency lists, profiles and image references, and a
//! tag-resolution engine that decides, per image, whether a candidate
//! tag should replace the declared one.

pub mod node;
pub mod text;
pub mod lines;
pub mod parse_spec;
pub mod parser;
pub mod emit;
pub mod strsort;
pub mod compose;
pub mod slug;
pub mod verbose;
pub mod engine;
pub mod update;
pub mod cmd;
pub mod docker;
pub mod git;
pub mod args;
pub mod utils;
pub mod http;
pub mod roundtrip;

pub use args::{Args, Commands, Formats, Objects, positive_less_than_32, string_no_empty,
    string_script, header};
pub use cmd::cmd_call_to_string;
pub use compose::ComposeYaml;
pub use docker::{DockerCommand, classify_local_probe, classify_remote_probe};
pub use engine::{ReplaceTag, FilterRule, TagOutcome, OracleTable, OracleEntry, LocalCheck,
    RemoteCheck, ResolveError, resolve_images, resolve_step, sorted_resolved,
    filter_rule_valid, decide_local, decide_remote, LocalDecision, RemoteDecision,
    rule_selects};
pub use git::GitCommand;
pub use http::{fallback_url, replace_all_exec};
pub use node::{Node, Style};
pub use parse_spec::ParseError;
pub use slug::get_slug;
pub use utils::{unwrap_filter_tag, unwrap_filter_regex, pick_compose_filename,
    compose_paths};
pub use verbose::Verbosity;
