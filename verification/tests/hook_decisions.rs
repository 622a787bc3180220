use envoy::hook::{
    count_active_subagents, discovery_target_from_lower, exit_status, extract_accessed_paths, extract_file_path,
    infer_test_suite, maybe_test_run, parse_numstat, session_agent_name, session_trigger, stop_reason,
    subagent_discovery_target, subagent_handover, summarize_input, summarize_response, tool_category,
    tool_failure_discovery, tool_relation_events, truncate, write_type, AgentSummary, EdgeKind, EndpointKind, RelationKind, ToolInput,
    ToolResponse,
};

fn input() -> ToolInput {
    ToolInput { command: None, file_path: None, path: None, pattern: None, paths: vec![], rendered: "{}".into() }
}

fn response() -> ToolResponse {
    ToolResponse {
        kind: None,
        interrupted: None,
        stdout: None,
        stderr: None,
        text: None,
        output: None,
        error: None,
        rendered: "{}".into(),
    }
}

#[test]
fn extract_accessed_paths_reads_file_inputs() {
    let ti = ToolInput { file_path: Some("src/main.rs".into()), ..input() };
    assert_eq!(extract_accessed_paths("Read", &ti), vec!["src/main.rs".to_string()]);
}

#[test]
fn accessed_paths_are_sorted_and_unique() {
    let ti = ToolInput {
        file_path: Some("b.rs".into()),
        path: Some("a".into()),
        paths: vec!["c".into(), "a".into(), "b.rs".into()],
        ..input()
    };
    assert_eq!(extract_accessed_paths("Grep", &ti), vec!["a".to_string(), "b.rs".to_string(), "c".to_string()]);
    assert!(extract_accessed_paths("Bash", &ti).is_empty());
}

#[test]
fn tool_relation_events_emit_accessed_and_modified_edges() {
    let ti = ToolInput { file_path: Some("src/lib.rs".into()), ..input() };
    let read = tool_relation_events("agent-cli", "session-1", "envoy", "Read", &ti, "success");
    assert_eq!(read.len(), 1);
    assert_eq!(read[0].relations[0].edge.name(), "accessed");
    assert_eq!(read[0].kind, RelationKind::Accessed);
    assert_eq!(read[0].entity_id, "session-1:Read:src/lib.rs:accessed");

    let edit = tool_relation_events("agent-cli", "session-1", "envoy", "Edit", &ti, "success");
    assert_eq!(edit.len(), 1);
    assert_eq!(edit[0].relations[0].edge.name(), "modified");
    assert_eq!(edit[0].kind, RelationKind::Modified);
    assert_eq!(edit[0].file_path.as_deref(), Some("src/lib.rs"));
    assert_eq!(edit[0].entity_id, "session-1:Edit:src/lib.rs:modified");

    let failed = tool_relation_events("agent-cli", "session-1", "envoy", "Edit", &ti, "error");
    assert_eq!(failed.len(), 1);
    assert_eq!(failed[0].kind, RelationKind::Failure);
    assert_eq!(failed[0].entity_id, "session-1:Edit:error");
}

#[test]
fn relation_events_tie_files_and_failures_to_the_project() {
    let ti = ToolInput { file_path: Some("src/lib.rs".into()), ..input() };
    let read = tool_relation_events("agent-cli", "session-1", "envoy", "Read", &ti, "success");
    assert_eq!(read[0].kind.event_type(), "tool_relation");
    assert_eq!(read[0].relations.len(), 2);
    assert_eq!(read[0].relations[0].from.kind, EndpointKind::Session);
    assert_eq!(read[0].relations[0].from.name, "agent-cli:session-1");
    assert_eq!(read[0].relations[0].to.kind, EndpointKind::File);
    assert_eq!(read[0].relations[0].to.name, "src/lib.rs");
    assert_eq!(read[0].relations[1].edge, EdgeKind::BelongsToProject);
    assert_eq!(read[0].relations[1].edge.name(), "belongs_to_project");
    assert_eq!(read[0].relations[1].from.name, "src/lib.rs");
    assert_eq!(read[0].relations[1].to.kind, EndpointKind::Project);
    assert_eq!(read[0].relations[1].to.name, "envoy");
    assert_eq!(read[0].session_id, "session-1");
    assert_eq!(read[0].tool_name, "Read");
    let field = |k: &str, v: &str| (k.to_string(), v.to_string());
    assert_eq!(read[0].relations[0].data, vec![field("tool_name", "Read"), field("source", "envoy-hook")]);
    assert_eq!(read[0].relations[1].data, vec![field("source", "envoy-hook")]);
    assert_eq!(read[0].relations[0].from.data, vec![field("session_id", "session-1")]);
    assert_eq!(read[0].relations[0].to.file_path.as_deref(), Some("src/lib.rs"));
    assert_eq!(read[0].relations[1].to.data, vec![field("project_id", "envoy")]);

    let failed = tool_relation_events("agent-cli", "session-1", "envoy", "Edit", &ti, "error");
    assert_eq!(failed.len(), 1);
    assert_eq!(failed[0].kind.event_type(), "tool_failure");
    assert_eq!(failed[0].relations[0].edge.name(), "observed_in");
    assert_eq!(failed[0].relations[0].from.name, "tool:Edit:error");
    assert_eq!(failed[0].relations[0].to.name, "agent-cli:session-1");
    assert_eq!(failed[0].relations[1].from.kind, EndpointKind::Failure);
    assert_eq!(failed[0].relations[1].to.name, "envoy");
    assert_eq!(
        failed[0].relations[0].from.data,
        vec![("tool_name".to_string(), "Edit".to_string()), ("failure_type".to_string(), "tool_error".to_string())]
    );
    assert_eq!(failed[0].relations[0].data, vec![("source".to_string(), "envoy-hook".to_string())]);
}

#[test]
fn maybe_test_run_body_detects_cargo_test() {
    let ti = ToolInput { command: Some("cargo test -p forge-agent --lib".into()), ..input() };
    let run = maybe_test_run("Bash", &ti, "success").expect("test run body");
    assert_eq!(run.test_suite, "cargo");
    assert!(run.passed);
    assert_eq!(run.test_command, "cargo test -p forge-agent --lib");
    assert!(maybe_test_run("Read", &ti, "success").is_none());
    let other = ToolInput { command: Some("ls -la".into()), ..input() };
    assert!(maybe_test_run("Bash", &other, "success").is_none());
}

#[test]
fn test_suites_are_recognised_after_trimming() {
    assert_eq!(infer_test_suite("  cargo test"), Some("cargo"));
    assert_eq!(infer_test_suite("python -m pytest -q"), Some("pytest"));
    assert_eq!(infer_test_suite("pytest"), Some("pytest"));
    assert_eq!(infer_test_suite("\tgo test ./..."), Some("go"));
    assert_eq!(infer_test_suite("bun test"), Some("js-test"));
    assert_eq!(infer_test_suite("yarn test\n"), Some("js-test"));
    assert_eq!(infer_test_suite("cargo build"), None);
}

#[test]
fn truncation_counts_characters() {
    assert_eq!(truncate("abc", 3), "abc");
    assert_eq!(truncate("abcd", 3), "abc…");
    assert_eq!(truncate("ééé", 2), "éé…");
}

#[test]
fn tool_categories() {
    assert_eq!(tool_category("Bash"), "shell");
    assert_eq!(tool_category("Read"), "file_read");
    assert_eq!(tool_category("Edit"), "file_write");
    assert_eq!(tool_category("WebSearch"), "network");
    assert_eq!(tool_category("LS"), "file_read");
    assert_eq!(tool_category("Agent"), "agent");
    assert_eq!(tool_category("Other"), "other");
    assert_eq!(write_type("Write"), "create");
    assert_eq!(write_type("Edit"), "edit");
}

#[test]
fn input_summaries() {
    let ti = ToolInput { file_path: Some("x.rs".into()), pattern: Some("fn main".into()), ..input() };
    assert_eq!(summarize_input("Read", &ti), "read x.rs");
    assert_eq!(summarize_input("Write", &ti), "write x.rs");
    assert_eq!(summarize_input("Grep", &ti), "grep fn main");
    assert_eq!(summarize_input("Bash", &input()), "bash");
    assert_eq!(summarize_input("Glob", &input()), "glob");
    assert_eq!(summarize_input("Task", &input()), "{}");
    let long = ToolInput { command: Some("x".repeat(150)), ..input() };
    assert_eq!(summarize_input("Bash", &long), format!("{}…", "x".repeat(140)));
}

#[test]
fn response_summaries() {
    let r = ToolResponse { stdout: Some("ok".into()), stderr: Some("warn".into()), ..response() };
    assert_eq!(summarize_response(&r), "ok\n[stderr: warn]");
    let r = ToolResponse { stdout: Some("".into()), stderr: Some("bad".into()), ..response() };
    assert_eq!(summarize_response(&r), "stderr: bad");
    let r = ToolResponse { stdout: Some("".into()), ..response() };
    assert_eq!(summarize_response(&r), "(no output)");
    let r = ToolResponse { error: Some("boom".into()), ..response() };
    assert_eq!(summarize_response(&r), "error: boom");
    let r = ToolResponse { text: Some("plain".into()), ..response() };
    assert_eq!(summarize_response(&r), "plain");
    assert_eq!(summarize_response(&response()), "{}");
}

#[test]
fn exit_statuses() {
    assert_eq!(exit_status(&None), "unknown");
    assert_eq!(exit_status(&Some(response())), "success");
    assert_eq!(exit_status(&Some(ToolResponse { kind: Some("tool_error".into()), ..response() })), "error");
    assert_eq!(exit_status(&Some(ToolResponse { interrupted: Some(true), ..response() })), "error");
    let ti = ToolInput { file_path: Some("f".into()), ..input() };
    assert_eq!(extract_file_path("Write", &ti).as_deref(), Some("f"));
    assert!(extract_file_path("Read", &ti).is_none());
}

#[test]
fn numstat_parsing() {
    let out = "3\t1\tsrc/a.rs\n-\t-\tbin.dat\nbroken line\n10\t0\tdir/with\ttab.rs\n";
    let rows = parse_numstat(out);
    assert_eq!(
        rows,
        vec![
            ("src/a.rs".to_string(), 3, 1),
            ("bin.dat".to_string(), 0, 0),
            ("dir/with\ttab.rs".to_string(), 10, 0),
        ]
    );
    let many: String = (0..60).map(|i| format!("1\t1\tf{i}\n")).collect();
    assert_eq!(parse_numstat(&many).len(), 50);
}

#[test]
fn subagent_handover_summary() {
    let stat = " src/a.rs | 3 ++-\n src/b.rs | 1 +\n 2 files changed, 3 insertions(+), 1 deletion(-)\n";
    let h = subagent_handover("end_turn", stat);
    assert_eq!(h.files_changed, vec!["src/a.rs".to_string(), "src/b.rs".to_string()]);
    assert!(h.summary.starts_with("subagent stop_reason=end_turn diff:src/a.rs | 3 ++-"));
    let long = "x".repeat(400);
    let h = subagent_handover("stop", &long);
    assert_eq!(h.summary.chars().count(), 301);
    assert!(h.summary.ends_with('…'));
}

#[test]
fn subagent_names_and_targets() {
    assert_eq!(discovery_target_from_lower("web search"), "subagent_web-search");
    assert_eq!(subagent_discovery_target("Web Search"), "subagent_web-search");
    assert_eq!(session_agent_name(true, 2, "coder-main", "codersub"), "codersub3");
    assert_eq!(session_agent_name(false, 2, "coder-main", "codersub"), "coder-main");
    assert_eq!(session_trigger(true), "subagent");
    assert_eq!(session_trigger(false), "cli");
    assert_eq!(stop_reason(None), "end_turn");
    assert_eq!(stop_reason(Some("max_tokens")), "max_tokens");
    let agents = vec![
        AgentSummary { name: Some("codersub1".into()), lifecycle: Some("active".into()) },
        AgentSummary { name: Some("codersub2".into()), lifecycle: Some("retired".into()) },
        AgentSummary { name: Some("coder-main".into()), lifecycle: Some("active".into()) },
        AgentSummary { name: None, lifecycle: Some("active".into()) },
    ];
    assert_eq!(count_active_subagents(&agents, "codersub"), 1);
}

#[test]
fn failed_calls_record_a_tool_failure_discovery() {
    let d = tool_failure_discovery("s-1", "Bash", "cargo build", Some("error: linker"), "error").unwrap();
    assert_eq!(d.discovery_type, "ToolFailure");
    assert_eq!(d.target, "tool:Bash");
    assert_eq!(d.session_id, "s-1");
    assert_eq!(d.input_summary, "cargo build");
    assert_eq!(d.output_summary, "error: linker");
    assert_eq!(tool_failure_discovery("s-1", "Bash", "x", None, "error").unwrap().output_summary, "");
    assert!(tool_failure_discovery("s-1", "Bash", "x", None, "success").is_none());
}
