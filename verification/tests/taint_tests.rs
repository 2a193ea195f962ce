use pyspector_core::analysis::deduplicate;
use pyspector_core::analysis::program_taint::{analyze_program_for_taint, collect_seeds, overlap};
use pyspector_core::analysis::taint_analysis::{
    analyze_function, apply_statement, check_sinks, find_taint, join_predecessors, matching_source,
    merge_taint, report_issue, run_block, set_taint, solve_taint, taints_within, Taint,
};
use pyspector_core::ast_parser::{AstNode, ChildRole, Field, FieldValue, PythonFile};
use pyspector_core::call_names::same_call;
use pyspector_core::graph::call_graph_builder::{
    build_call_graph, collect_call_names, make_function_id, may_call,
};
use pyspector_core::graph::cfg_builder::build_cfg;
use pyspector_core::issues::Severity;
use pyspector_core::rules::{Rule, RuleSet, TaintSinkRule, TaintSourceRule};
use regex::Regex;
use std::collections::{HashMap, HashSet};

fn flow_node(kind: &str, line: isize) -> AstNode {
    AstNode {
        node_type: kind.to_string(),
        lineno: line,
        col_offset: 0,
        children: vec![],
        fields: vec![],
    }
}

fn flow_children(mut node: AstNode, role: &str, nodes: Vec<AstNode>) -> AstNode {
    node.children.push(ChildRole { role: role.to_string(), nodes });
    node
}

fn flow_field(mut node: AstNode, name: &str, value: &str) -> AstNode {
    node.fields.push(Field { name: name.to_string(), value: FieldValue::Str(value.to_string()) });
    node
}

fn var(id: &str, line: isize) -> AstNode {
    flow_field(flow_node("Name", line), "id", id)
}

fn call(name: &str, args: Vec<AstNode>, line: isize) -> AstNode {
    flow_children(
        flow_children(flow_node("Call", line), "func", vec![var(name, line)]),
        "args",
        args,
    )
}

fn assign(target: &str, value: AstNode, line: isize) -> AstNode {
    flow_children(
        flow_children(flow_node("Assign", line), "targets", vec![var(target, line)]),
        "value",
        vec![value],
    )
}

fn expr(value: AstNode, line: isize) -> AstNode {
    flow_children(flow_node("Expr", line), "value", vec![value])
}

fn joined(names: &[&str], line: isize) -> AstNode {
    let mut values = vec![flow_node("Constant", line)];
    for name in names {
        values.push(flow_children(flow_node("FormattedValue", line), "value", vec![var(name, line)]));
    }
    flow_children(flow_node("JoinedStr", line), "values", values)
}

fn function(name: &str, body: Vec<AstNode>) -> AstNode {
    flow_children(flow_field(flow_node("FunctionDef", 1), "id", name), "body", body)
}

fn vulnerability(id: &str, severity: Severity) -> Rule {
    Rule {
        id: id.to_string(),
        description: format!("flow into {}", id),
        severity,
        confidence: "Medium".to_string(),
        remediation: String::new(),
        pattern: Some(Regex::new("^never matches anything$").unwrap()),
        ast_match: None,
        file_pattern: None,
    }
}

fn source(id: &str, name: &str) -> TaintSourceRule {
    TaintSourceRule {
        id: id.to_string(),
        description: String::new(),
        function_call: name.to_string(),
        taint_target: "return".to_string(),
    }
}

fn sink(id: &str, vulnerability_id: &str, name: &str, index: usize) -> TaintSinkRule {
    TaintSinkRule {
        id: id.to_string(),
        vulnerability_id: vulnerability_id.to_string(),
        description: String::new(),
        function_call: name.to_string(),
        vulnerable_parameter_index: index,
    }
}

fn shell_rules() -> RuleSet {
    RuleSet {
        rules: vec![vulnerability("V1", Severity::Critical)],
        taint_sources: vec![source("S1", "read_input")],
        taint_sinks: vec![sink("K1", "V1", "run_shell", 0)],
        taint_sanitizers: vec![],
    }
}

fn found(ruleset: &RuleSet, body: Vec<AstNode>, content: &str) -> Vec<(String, usize, String)> {
    let def = function("f", body);
    let cfg = build_cfg(&def);
    let mut got: Vec<(String, usize, String)> = analyze_function(&cfg, ruleset, "app.py", content)
        .iter()
        .map(|i| (i.rule_id.clone(), i.line_number, i.code.clone()))
        .collect();
    got.sort();
    got.dedup();
    got
}

#[test]
fn intraprocedural_taint_scenario() {
    let rules = shell_rules();
    let def = function(
        "f",
        vec![
            assign("x", call("read_input", vec![], 1), 1),
            expr(call("run_shell", vec![var("x", 2)], 2), 2),
        ],
    );
    let cfg = build_cfg(&def);
    let raw = analyze_function(&cfg, &rules, "app.py", "x = read_input()\nrun_shell(x)");
    assert!(raw.iter().all(|i| i.rule_id == "V1" && i.line_number == 2));
    let issues = deduplicate(raw);
    assert_eq!(issues.len(), 1);
    assert_eq!(issues[0].rule_id, "V1");
    assert_eq!(issues[0].file_path, "app.py");
    assert_eq!(issues[0].line_number, 2);
    assert_eq!(issues[0].code, "run_shell(x)");
    assert_eq!(issues[0].severity, Severity::Critical);
    assert_eq!(issues[0].get_fingerprint(), "b80236b9b81e6cb91343dc890c2619313c212df8");
}

#[test]
fn joined_string_propagation_scenario() {
    let rules = RuleSet {
        rules: vec![vulnerability("V2", Severity::High)],
        taint_sources: vec![source("S1", "read_input")],
        taint_sinks: vec![sink("K2", "V2", "execute", 0)],
        taint_sanitizers: vec![],
    };
    let content = "x = read_input()\nq = f\"SELECT {x}\"\nexecute(q)";
    let body = vec![
        assign("x", call("read_input", vec![], 1), 1),
        assign("q", joined(&["x"], 2), 2),
        expr(call("execute", vec![var("q", 3)], 3), 3),
    ];
    assert_eq!(found(&rules, body, content), vec![("V2".to_string(), 3, "execute(q)".to_string())]);
}

#[test]
fn untainted_argument_is_not_reported() {
    let rules = shell_rules();
    let body = vec![
        assign("x", call("read_input", vec![], 1), 1),
        assign("y", call("constant", vec![], 2), 2),
        expr(call("run_shell", vec![var("y", 3)], 3), 3),
    ];
    assert!(found(&rules, body, "a\nb\nc").is_empty());
}

#[test]
fn only_the_vulnerable_position_counts() {
    let rules = RuleSet { taint_sinks: vec![sink("K1", "V1", "run_shell", 1)], ..shell_rules() };
    let first = vec![
        assign("x", call("read_input", vec![], 1), 1),
        expr(call("run_shell", vec![var("x", 2), var("y", 2)], 2), 2),
    ];
    assert!(found(&rules, first, "a\nb").is_empty());
    let second = vec![
        assign("x", call("read_input", vec![], 1), 1),
        expr(call("run_shell", vec![var("y", 2), var("x", 2)], 2), 2),
    ];
    assert_eq!(found(&rules, second, "a\nb").len(), 1);
    let missing = vec![
        assign("x", call("read_input", vec![], 1), 1),
        expr(call("run_shell", vec![var("x", 2)], 2), 2),
    ];
    assert!(found(&rules, missing, "a\nb").is_empty());
}

#[test]
fn sink_before_source_is_not_reported_in_straight_code() {
    let rules = shell_rules();
    let body = vec![
        expr(call("run_shell", vec![var("x", 1)], 1), 1),
        assign("x", call("read_input", vec![], 2), 2),
    ];
    assert!(found(&rules, body, "a\nb").is_empty());
}

#[test]
fn taint_flows_around_a_loop() {
    let rules = shell_rules();
    let body = vec![flow_children(
        flow_node("While", 1),
        "body",
        vec![
            expr(call("run_shell", vec![var("x", 2)], 2), 2),
            assign("x", call("read_input", vec![], 3), 3),
        ],
    )];
    let def = function("f", body);
    let cfg = build_cfg(&def);
    let lines = vec!["while c:".to_string(), "run_shell(x)".to_string(), "x = read_input()".to_string()];
    let solution = solve_taint(&cfg, &rules, "app.py", &lines);
    assert!(solution.issues.iter().all(|i| i.rule_id == "V1" && i.line_number == 2));
    assert!(!solution.issues.is_empty());
    assert!(solution.sweeps >= 2);
    assert!(solution.sweeps <= cfg.blocks.len() * 1 + 1);
    assert_eq!(solution.outs.len(), cfg.blocks.len());
    assert!(find_taint(&solution.outs[&1], "x").is_some());
    assert!(find_taint(&solution.outs[&0], "x").is_none());
    assert!(solution.outs.values().all(|state| state.iter().all(|t| t.source_rule_id == "S1")));
}

#[test]
fn taint_from_one_branch_reaches_the_merge() {
    let rules = shell_rules();
    let body = vec![
        flow_children(
            flow_children(
                flow_node("If", 1),
                "body",
                vec![assign("x", call("read_input", vec![], 2), 2)],
            ),
            "orelse",
            vec![assign("x", call("constant", vec![], 4), 4)],
        ),
        expr(call("run_shell", vec![var("x", 5)], 5), 5),
    ];
    assert_eq!(
        found(&rules, body, "if c:\n x = read_input()\nelse:\n x = constant()\nrun_shell(x)"),
        vec![("V1".to_string(), 5, "run_shell(x)".to_string())]
    );
}

#[test]
fn code_after_break_is_unreachable() {
    let rules = shell_rules();
    let body = vec![
        assign("x", call("read_input", vec![], 1), 1),
        flow_node("Break", 2),
        expr(call("run_shell", vec![var("x", 3)], 3), 3),
    ];
    assert!(found(&rules, body, "a\nb\nc").is_empty());
}

#[test]
fn statement_may_fire_several_sinks() {
    let rules = RuleSet {
        rules: vec![vulnerability("V1", Severity::Critical), vulnerability("V2", Severity::Low)],
        taint_sources: vec![source("S1", "read_input")],
        taint_sinks: vec![
            sink("K1", "V1", "run_shell", 0),
            sink("K2", "V2", "run_shell", 0),
            sink("K3", "V9", "run_shell", 0),
        ],
        taint_sanitizers: vec![],
    };
    let body = vec![
        assign("x", call("read_input", vec![], 1), 1),
        expr(call("run_shell", vec![var("x", 2)], 2), 2),
    ];
    assert_eq!(
        found(&rules, body, "a\nrun_shell(x)"),
        vec![
            ("V1".to_string(), 2, "run_shell(x)".to_string()),
            ("V2".to_string(), 2, "run_shell(x)".to_string())
        ]
    );
}

#[test]
fn source_must_match_exactly_within_a_function() {
    let rules = shell_rules();
    let body = vec![
        assign("x", call("read_input_file", vec![], 1), 1),
        expr(call("run_shell", vec![var("x", 2)], 2), 2),
    ];
    assert!(found(&rules, body, "a\nb").is_empty());
}

#[test]
fn taint_state_operations() {
    let x = "x".to_string();
    let y = "y".to_string();
    let s1 = "S1".to_string();
    let s2 = "S2".to_string();
    let mut state: Vec<Taint> = vec![];
    assert!(find_taint(&state, "x").is_none());
    set_taint(&mut state, &x, &s1);
    assert_eq!(find_taint(&state, "x"), Some(0));
    set_taint(&mut state, &x, &s2);
    assert_eq!(state.len(), 1);
    assert_eq!(state[0].source_rule_id, "S2");
    let mut other: Vec<Taint> = vec![];
    set_taint(&mut other, &y, &s1);
    set_taint(&mut other, &x, &s1);
    assert!(taints_within(&state, &other));
    assert!(!taints_within(&other, &state));
    merge_taint(&mut state, &other);
    assert_eq!(state.len(), 2);
    assert_eq!(state[0].variable, "x");
    assert_eq!(state[0].source_rule_id, "S2");
    assert_eq!(state[1].variable, "y");
    assert!(taints_within(&other, &state));
    let outs = HashMap::from([(0, vec![]), (1, other), (2, state)]);
    let joined = join_predecessors(&outs, &HashSet::from([0, 1]));
    assert_eq!(joined.len(), 2);
    assert_eq!(joined[0].variable, "y");
    let all = join_predecessors(&outs, &HashSet::from([0, 1, 2]));
    let mut names: Vec<&str> = all.iter().map(|t| t.variable.as_str()).collect();
    names.sort();
    assert_eq!(names, vec!["x", "y"]);
    assert!(join_predecessors(&outs, &HashSet::new()).is_empty());
}

#[test]
fn last_matching_source_rule_gives_the_tag() {
    let sources = vec![source("S1", "read"), source("S2", "other"), source("S3", "read")];
    assert_eq!(matching_source(&sources, "read").unwrap(), "S3");
    assert_eq!(matching_source(&sources, "other").unwrap(), "S2");
    assert!(matching_source(&sources, "rea").is_none());
    assert!(matching_source(&sources, "").is_none());
}

#[test]
fn statements_and_blocks() {
    let rules = shell_rules();
    let first = assign("x", call("read_input", vec![], 1), 1);
    let second = assign("q", joined(&["a", "x"], 2), 2);
    let third = assign("r", joined(&["a"], 3), 3);
    let fourth = expr(call("run_shell", vec![var("q", 4)], 4), 4);
    let mut state: Vec<Taint> = vec![];
    apply_statement(&first, &rules.taint_sources, &mut state);
    assert_eq!(state.len(), 1);
    apply_statement(&second, &rules.taint_sources, &mut state);
    assert_eq!(state.len(), 2);
    assert_eq!(state[1].variable, "q");
    assert_eq!(state[1].source_rule_id, "S1");
    apply_statement(&third, &rules.taint_sources, &mut state);
    apply_statement(&fourth, &rules.taint_sources, &mut state);
    assert_eq!(state.len(), 2);

    let lines = vec!["1".to_string(), "2".to_string(), "3".to_string(), "run_shell(q)".to_string()];
    let mut issues = vec![];
    check_sinks(&fourth, &rules, &state, "a.py", &lines, &mut issues);
    check_sinks(&first, &rules, &state, "a.py", &lines, &mut issues);
    assert_eq!(issues.len(), 1);
    assert_eq!(issues[0].code, "run_shell(q)");

    let block = vec![&first, &second, &third, &fourth];
    let mut more = vec![];
    let end = run_block(&block, &rules, vec![], "a.py", &lines, &mut more);
    assert_eq!(end.len(), 2);
    assert_eq!(more.len(), 1);
    assert_eq!(more[0].line_number, 4);
}

#[test]
fn report_needs_a_rule_of_the_catalog() {
    let rules = shell_rules();
    let node = flow_node("Expr", 2);
    let lines = vec!["one".to_string(), "  two  ".to_string()];
    let mut issues = vec![];
    report_issue(&rules, "V9", "a.py", &node, &lines, &mut issues);
    assert!(issues.is_empty());
    report_issue(&rules, "V1", "a.py", &node, &lines, &mut issues);
    assert_eq!(issues.len(), 1);
    assert_eq!(issues[0].rule_id, "V1");
    assert_eq!(issues[0].line_number, 2);
    assert_eq!(issues[0].code, "two");
    assert_eq!(issues[0].description, "flow into V1");
}

#[test]
fn function_ids_and_call_targets() {
    assert_eq!(make_function_id("pkg/a.py", "run"), "pkg/a.py::run");
    let names = vec!["run".to_string(), "os.system".to_string()];
    assert!(may_call("pkg/a.py::run", &names));
    assert!(may_call("b.py::os.system", &names));
    assert!(!may_call("pkg/a.py::rerun", &names));
    assert!(!may_call("pkg/a.py::run2", &names));
    assert!(!may_call("run", &names));
    assert!(!may_call("a.py::run", &vec![]));
}

#[test]
fn call_graph_of_two_files() {
    let a = flow_children(
        flow_node("Module", 0),
        "body",
        vec![
            function("main", vec![expr(call("helper", vec![], 2), 2), expr(call("print", vec![], 3), 3)]),
            function("helper", vec![expr(call("main", vec![], 5), 5)]),
        ],
    );
    let b = flow_children(
        flow_node("Module", 0),
        "body",
        vec![function("helper", vec![]), flow_node("FunctionDef", 9)],
    );
    let files = vec![
        PythonFile::new("a.py".to_string(), "text of a".to_string(), Some(a)),
        PythonFile::new("b.py".to_string(), "text of b".to_string(), Some(b)),
        PythonFile::new("c.py".to_string(), "text of c".to_string(), None),
    ];
    let graph = build_call_graph(&files);
    let ids: Vec<&str> = graph.functions.iter().map(|f| f.id.as_str()).collect();
    assert_eq!(ids, vec!["a.py::main", "a.py::helper", "b.py::helper"]);
    assert_eq!(graph.functions[2].file_path, "b.py");
    assert_eq!(graph.graph.len(), 3);
    assert_eq!(graph.graph[0].caller, "a.py::main");
    assert_eq!(graph.graph[0].callees, vec!["a.py::helper", "b.py::helper"]);
    assert_eq!(graph.graph[1].callees, vec!["a.py::main"]);
    assert!(graph.graph[2].callees.is_empty());
    assert_eq!(graph.file_contents.len(), 3);
    assert_eq!(graph.content_of("b.py"), "text of b");
    assert_eq!(graph.content_of("c.py"), "text of c");
    assert_eq!(graph.content_of("d.py"), "");
    assert_eq!(collect_call_names(graph.functions[0].node), vec!["helper", "print"]);
}

#[test]
fn later_definition_replaces_earlier_one() {
    let module = flow_children(
        flow_node("Module", 0),
        "body",
        vec![
            function("f", vec![flow_node("Pass", 2)]),
            function("g", vec![]),
            flow_children(flow_field(flow_node("FunctionDef", 7), "id", "f"), "body", vec![]),
        ],
    );
    let files = vec![
        PythonFile::new("a.py".to_string(), "first".to_string(), Some(module)),
        PythonFile::new("a.py".to_string(), "second".to_string(), None),
    ];
    let graph = build_call_graph(&files);
    let ids: Vec<&str> = graph.functions.iter().map(|f| f.id.as_str()).collect();
    assert_eq!(ids, vec!["a.py::f", "a.py::g"]);
    assert_eq!(graph.functions[0].node.lineno, 7);
    assert_eq!(graph.file_contents.len(), 1);
    assert_eq!(graph.content_of("a.py"), "second");
}

#[test]
fn names_overlap_either_way() {
    assert!(overlap("os.system", "system"));
    assert!(overlap("system", "os.system"));
    assert!(overlap("eval", "eval"));
    assert!(!overlap("", "eval"));
    assert!(!overlap("eval", ""));
    assert!(!overlap("", ""));
    assert!(!overlap("exec", "eval"));
    assert!(!overlap("os.system", "sys.os"));
}

#[test]
fn seeds_of_a_function() {
    let rules = shell_rules();
    let two_targets = flow_children(
        flow_children(flow_node("Assign", 3), "targets", vec![var("a", 3), var("b", 3), flow_node("Tuple", 3)]),
        "value",
        vec![call("my_read_input_now", vec![], 3)],
    );
    let def = function(
        "f",
        vec![
            assign("x", call("read_input", vec![], 1), 1),
            assign("y", call("other", vec![], 2), 2),
            two_targets,
            assign("z", var("x", 4), 4),
        ],
    );
    let mut seeds: Vec<String> =
        collect_seeds(&def, &rules.taint_sources).iter().map(|s| s.to_string()).collect();
    seeds.sort();
    assert_eq!(seeds, vec!["a", "b", "x"]);
}

#[test]
fn project_taint_ignores_statement_order() {
    let rules = shell_rules();
    let module = flow_children(
        flow_node("Module", 0),
        "body",
        vec![
            function(
                "late",
                vec![
                    expr(call("run_shell", vec![var("x", 2)], 2), 2),
                    assign("x", call("read_input", vec![], 3), 3),
                ],
            ),
            function("clean", vec![expr(call("run_shell", vec![var("x", 6)], 6), 6)]),
        ],
    );
    let content = "def late():\n    run_shell(x)\n    x = read_input()\ndef clean():\n    pass\n    run_shell(x)";
    let files = vec![PythonFile::new("a.py".to_string(), content.to_string(), Some(module))];
    let graph = build_call_graph(&files);
    let issues = analyze_program_for_taint(&graph, &rules);
    assert_eq!(issues.len(), 1);
    assert_eq!(issues[0].rule_id, "V1");
    assert_eq!(issues[0].file_path, "a.py");
    assert_eq!(issues[0].line_number, 2);
    assert_eq!(issues[0].code, "run_shell(x)");
}

#[test]
fn project_taint_matches_by_containment() {
    let rules = shell_rules();
    let module = function(
        "f",
        vec![
            assign("x", call("safe_read_input", vec![], 1), 1),
            expr(call("shell", vec![var("x", 2)], 2), 2),
        ],
    );
    let files = vec![PythonFile::new("a.py".to_string(), "a\nshell(x)".to_string(), Some(module))];
    let graph = build_call_graph(&files);
    let issues = analyze_program_for_taint(&graph, &rules);
    assert_eq!(issues.len(), 1);
    assert_eq!(issues[0].line_number, 2);
    assert_eq!(issues[0].code, "shell(x)");
}

#[test]
fn call_without_a_name_matches_no_rule_in_the_project_pass() {
    let rules = shell_rules();
    let unnamed = flow_children(
        flow_children(flow_node("Call", 3), "func", vec![call("make", vec![], 3)]),
        "args",
        vec![var("x", 3)],
    );
    let module = function(
        "f",
        vec![assign("x", call("read_input", vec![], 2), 2), expr(unnamed, 3)],
    );
    let files = vec![PythonFile::new("a.py".to_string(), "a\nb\nc".to_string(), Some(module))];
    let graph = build_call_graph(&files);
    assert!(analyze_program_for_taint(&graph, &rules).is_empty());

    let from_unnamed = flow_children(
        flow_children(flow_node("Assign", 2), "targets", vec![var("x", 2)]),
        "value",
        vec![flow_children(flow_node("Call", 2), "func", vec![flow_node("Lambda", 2)])],
    );
    let other = function(
        "g",
        vec![from_unnamed, expr(call("run_shell", vec![var("x", 3)], 3), 3)],
    );
    let files = vec![PythonFile::new("b.py".to_string(), "a\nb\nc".to_string(), Some(other))];
    let graph = build_call_graph(&files);
    assert!(analyze_program_for_taint(&graph, &rules).is_empty());
}

#[test]
fn call_without_a_name_matches_no_rule_within_a_function() {
    let rules = RuleSet {
        rules: vec![vulnerability("V1", Severity::Critical)],
        taint_sources: vec![source("S0", ""), source("S1", "read_input")],
        taint_sinks: vec![sink("K0", "V1", "", 0)],
        taint_sanitizers: vec![],
    };
    let unnamed_source = flow_children(flow_node("Call", 1), "func", vec![flow_node("Lambda", 1)]);
    let unnamed_sink = flow_children(
        flow_children(flow_node("Call", 3), "func", vec![flow_node("Lambda", 3)]),
        "args",
        vec![var("y", 3)],
    );
    let body = vec![
        assign("x", unnamed_source, 1),
        assign("y", call("read_input", vec![], 2), 2),
        expr(unnamed_sink, 3),
    ];
    assert!(found(&rules, body, "a\nb\nc").is_empty());
    assert!(matching_source(&rules.taint_sources, "").is_none());
    assert!(same_call("eval", "eval"));
    assert!(!same_call("", ""));
    assert!(!same_call("eval", "evil"));
}
