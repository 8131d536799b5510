use provider_sync::json::{parse, Json};
use provider_sync::source::{
    source_marks_non_root_agent, source_structured_marks_non_root_agent,
    source_text_marks_non_root_agent, source_value_marks_non_root_agent, thread_source_is_user,
    thread_source_marks_non_root, value_asserts_non_root_agent,
};

fn marks_non_root(source: &str) -> bool {
    source_structured_marks_non_root_agent(source)
}

#[test]
fn structured_subagent_markers_still_identify_child_threads() {
    assert!(marks_non_root(
        r#"{"subagent":{"thread_spawn":{"depth":1}}}"#
    ));
    assert!(marks_non_root(r#"{"sub_agent":{"other":"review"}}"#));
    assert!(marks_non_root(r#"{"internal":true}"#));
}

#[test]
fn markers_that_explicitly_deny_being_a_subagent_do_not_count() {
    assert!(!marks_non_root(r#"{"internal":false}"#));
    assert!(!marks_non_root(r#"{"sub_agent":null}"#));
    assert!(!marks_non_root(r#"{"subagent":false}"#));
}

#[test]
fn empty_placeholder_markers_do_not_count() {
    assert!(!marks_non_root(r#"{"subagent":{}}"#));
    assert!(!marks_non_root(r#"{"sub_agent":[]}"#));
    assert!(!marks_non_root(r#"{"internal":"  "}"#));
}

#[test]
fn unrelated_or_malformed_sources_are_left_alone() {
    assert!(!marks_non_root(r#"{"origin":"subagent"}"#));
    assert!(!marks_non_root(r#"{"sub_agent":"#));
    assert!(!marks_non_root("cli"));
}

#[test]
fn plain_text_markers_count_beside_structured_ones() {
    assert!(source_text_marks_non_root_agent(" SubAgent "));
    assert!(source_text_marks_non_root_agent("internal_review"));
    assert!(source_text_marks_non_root_agent("subagent_x"));
    assert!(!source_text_marks_non_root_agent("subagents"));
    assert!(source_marks_non_root_agent("subagent"));
    assert!(source_marks_non_root_agent(r#" {"internal":1} "#));
    assert!(!source_structured_marks_non_root_agent("subagent"));
    assert!(source_structured_marks_non_root_agent("\"subagent\""));
    assert!(!source_marks_non_root_agent("vscode"));
}

#[test]
fn thread_sources_ignore_case_and_spaces() {
    assert!(thread_source_is_user(Some(" USER ")));
    assert!(!thread_source_is_user(Some("users")));
    assert!(!thread_source_is_user(None));
    assert!(thread_source_marks_non_root(Some("SubAgent")));
    assert!(thread_source_marks_non_root(Some("memory_consolidation")));
    assert!(!thread_source_marks_non_root(Some("user")));
    assert!(!thread_source_marks_non_root(None));
}

#[test]
fn values_that_assert_something_count() {
    assert!(value_asserts_non_root_agent(&Json::Unsigned(0)));
    assert!(value_asserts_non_root_agent(&Json::Bool(true)));
    assert!(!value_asserts_non_root_agent(&Json::Null));
    assert!(value_asserts_non_root_agent(&parse("[0]").unwrap()));
    assert!(value_asserts_non_root_agent(&parse("1.5").unwrap()));
    assert!(source_value_marks_non_root_agent(&parse("{\"internal\":-1}").unwrap()));
    assert!(!source_value_marks_non_root_agent(&Json::Array(Vec::new())));
}
