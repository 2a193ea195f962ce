use pyspector_core::analysis::{
    analyze_parsed_file, analyze_units, deduplicate, fingerprints, finish_analysis, generic_unit,
    is_excluded, parsed_unit, wants_line_scan,
    retain_first, run_analysis, scan_generic_file, takes_line_scan, AnalysisContext, GenericUnit,
    ParsedUnit, WalkedFile,
};
use pyspector_core::ast_parser::{AstNode, ChildRole, Field, FieldValue, PythonFile};
use pyspector_core::issues::{Issue, Severity};
use pyspector_core::rules::{Rule, RuleSet, TaintSanitizerRule, TaintSinkRule, TaintSourceRule};
use regex::Regex;

fn leaf(kind: &str, line: isize) -> AstNode {
    AstNode {
        node_type: kind.to_string(),
        lineno: line,
        col_offset: 0,
        children: vec![],
        fields: vec![],
    }
}

fn under(mut node: AstNode, role: &str, nodes: Vec<AstNode>) -> AstNode {
    node.children.push(ChildRole { role: role.to_string(), nodes });
    node
}

fn named(mut node: AstNode, name: &str, value: &str) -> AstNode {
    node.fields.push(Field { name: name.to_string(), value: FieldValue::Str(value.to_string()) });
    node
}

fn ident(id: &str, line: isize) -> AstNode {
    named(leaf("Name", line), "id", id)
}

fn invoke(name: &str, args: Vec<AstNode>, line: isize) -> AstNode {
    under(under(leaf("Call", line), "func", vec![ident(name, line)]), "args", args)
}

fn shell_module() -> AstNode {
    let body = vec![
        under(
            under(leaf("Assign", 2), "targets", vec![ident("x", 2)]),
            "value",
            vec![invoke("read_input", vec![], 2)],
        ),
        under(leaf("Expr", 3), "value", vec![invoke("run_shell", vec![ident("x", 3)], 3)]),
    ];
    under(
        leaf("Module", 0),
        "body",
        vec![under(named(leaf("FunctionDef", 1), "id", "main"), "body", body)],
    )
}

fn shell_content() -> String {
    "def main():\n    x = read_input()\n    run_shell(x)\n".to_string()
}

fn plain_rule(id: &str, pattern: Option<&str>, query: Option<&str>) -> Rule {
    Rule {
        id: id.to_string(),
        description: format!("rule {}", id),
        severity: Severity::Critical,
        confidence: "Medium".to_string(),
        remediation: String::new(),
        pattern: pattern.map(|p| Regex::new(p).unwrap()),
        ast_match: query.map(|q| q.to_string()),
        file_pattern: None,
    }
}

fn full_catalog() -> RuleSet {
    RuleSet {
        rules: vec![
            plain_rule("V1", Some("^never matches anything$"), None),
            plain_rule("W1", Some(r"password\s*="), None),
            plain_rule("A1", None, Some("Call(func.id=run_shell)")),
        ],
        taint_sources: vec![TaintSourceRule {
            id: "S1".to_string(),
            description: String::new(),
            function_call: "read_input".to_string(),
            taint_target: "return".to_string(),
        }],
        taint_sinks: vec![TaintSinkRule {
            id: "K1".to_string(),
            vulnerability_id: "V1".to_string(),
            description: String::new(),
            function_call: "run_shell".to_string(),
            vulnerable_parameter_index: 0,
        }],
        taint_sanitizers: vec![TaintSanitizerRule {
            id: "Z1".to_string(),
            description: String::new(),
            function_call: "escape".to_string(),
        }],
    }
}

fn walked(path: &str, content: &str) -> WalkedFile {
    WalkedFile { path: path.to_string(), content: content.to_string() }
}

fn summary(issues: &[Issue]) -> Vec<(String, String, usize)> {
    let mut got: Vec<(String, String, usize)> = issues
        .iter()
        .map(|i| (i.rule_id.clone(), i.file_path.clone(), i.line_number))
        .collect();
    got.sort();
    got
}

fn issue_at(rule: &str, path: &str, line: usize, code: &str) -> Issue {
    Issue::new(
        rule.to_string(),
        String::new(),
        path.to_string(),
        line,
        code.to_string(),
        Severity::Low,
        "Medium".to_string(),
        String::new(),
    )
}

fn distinct_fingerprints(issues: &[Issue]) -> bool {
    let mut prints: Vec<String> = issues.iter().map(|i| i.get_fingerprint()).collect();
    let before = prints.len();
    prints.sort();
    prints.dedup();
    prints.len() == before
}

#[test]
fn exclusion_by_substring_of_the_path() {
    let exclusions = vec!["vendor".to_string(), "build/".to_string()];
    assert!(is_excluded("/src/vendor/lib.py", "lib.py", &exclusions));
    assert!(is_excluded("/src/build/out.txt", "out.txt", &exclusions));
    assert!(!is_excluded("/src/builder/out.txt", "out.txt", &exclusions));
    assert!(!is_excluded("/src/app.py", "app.py", &exclusions));
    assert!(!is_excluded("/src/app.py", "app.py", &vec![]));
    assert!(is_excluded("/src/app.py", "app.py", &vec!["".to_string()]));
}

#[test]
fn exclusion_by_pattern_on_the_file_name() {
    let exclusions = vec!["*.min.js".to_string(), "test_?.py".to_string()];
    assert!(is_excluded("/web/app.min.js", "app.min.js", &exclusions));
    assert!(!is_excluded("/web/app.js", "app.js", &exclusions));
    assert!(is_excluded("/t/test_a.py", "test_a.py", &exclusions));
    assert!(!is_excluded("/t/test_ab.py", "test_ab.py", &exclusions));
    assert!(!is_excluded("/t/test_a.py", "other.py", &vec!["test_?.py".to_string()]));
    assert!(is_excluded("/t/x", "test_a.py", &vec!["test_?.py".to_string()]));
}

#[test]
fn generic_unit_scans_other_files_only() {
    let rules = full_catalog();
    let file = walked("/p/conf.ini", "a\npassword = 1\n");
    let unit = GenericUnit { file: &file, file_name: "conf.ini".to_string(), extension: Some("ini".to_string()) };
    let found = scan_generic_file(&unit, &rules, &vec![]);
    assert_eq!(summary(&found), vec![("W1".to_string(), "/p/conf.ini".to_string(), 2)]);
    assert!(scan_generic_file(&unit, &rules, &vec!["conf.*".to_string()]).is_empty());
    assert!(scan_generic_file(&unit, &rules, &vec!["/p/".to_string()]).is_empty());
    let source = GenericUnit { file: &file, file_name: "conf.ini".to_string(), extension: Some("py".to_string()) };
    assert!(scan_generic_file(&source, &rules, &vec![]).is_empty());
    let bare = GenericUnit { file: &file, file_name: "conf.ini".to_string(), extension: None };
    assert_eq!(scan_generic_file(&bare, &rules, &vec![]).len(), 1);
}

#[test]
fn parsed_unit_runs_every_pass() {
    let rules = full_catalog();
    let content = format!("{}password = 1\n", shell_content());
    let file = PythonFile::new("/p/app.py".to_string(), content, Some(shell_module()));
    let unit = ParsedUnit { file: &file, file_name: "app.py".to_string() };
    let found = deduplicate(analyze_parsed_file(&unit, &rules, &vec![]));
    assert_eq!(
        summary(&found),
        vec![
            ("A1".to_string(), "/p/app.py".to_string(), 3),
            ("V1".to_string(), "/p/app.py".to_string(), 3),
            ("W1".to_string(), "/p/app.py".to_string(), 4)
        ]
    );
    assert!(analyze_parsed_file(&unit, &rules, &vec!["app.*".to_string()]).is_empty());
}

#[test]
fn file_without_tree_is_scanned_by_line_only() {
    let rules = full_catalog();
    let file = PythonFile::new("/p/app.py".to_string(), "run_shell(x)\npassword=1".to_string(), None);
    let unit = ParsedUnit { file: &file, file_name: "app.py".to_string() };
    let found = analyze_parsed_file(&unit, &rules, &vec![]);
    assert_eq!(summary(&found), vec![("W1".to_string(), "/p/app.py".to_string(), 2)]);
}

#[test]
fn deduplication_keeps_first_occurrences_in_order() {
    let issues = vec![
        issue_at("A", "f", 1, "x"),
        issue_at("B", "f", 1, "x"),
        issue_at("A", "f", 1, "  x  "),
        issue_at("C", "f", 2, "y"),
        issue_at("B", "f", 1, "x"),
        issue_at("A", "g", 1, "x"),
    ];
    let mut marked = issues.clone();
    marked[2].description = "later".to_string();
    let kept = deduplicate(marked);
    let got: Vec<(String, String)> =
        kept.iter().map(|i| (i.rule_id.clone(), i.file_path.clone())).collect();
    assert_eq!(
        got,
        vec![
            ("A".to_string(), "f".to_string()),
            ("B".to_string(), "f".to_string()),
            ("C".to_string(), "f".to_string()),
            ("A".to_string(), "g".to_string())
        ]
    );
    assert_eq!(kept[0].description, "");
    assert!(distinct_fingerprints(&kept));
    assert!(deduplicate(vec![]).is_empty());
    assert_eq!(fingerprints(&issues).len(), 6);
    assert_eq!(fingerprints(&issues)[0], fingerprints(&issues)[2]);
}

#[test]
fn retain_first_goes_by_the_given_keys() {
    let issues = vec![issue_at("A", "f", 1, "x"), issue_at("B", "f", 1, "x"), issue_at("C", "f", 1, "x")];
    let keys = vec!["k".to_string(), "k".to_string(), "m".to_string()];
    let kept = retain_first(&issues, &keys);
    let ids: Vec<&str> = kept.iter().map(|i| i.rule_id.as_str()).collect();
    assert_eq!(ids, vec!["A", "C"]);
    let short = retain_first(&issues, &vec!["k".to_string()]);
    assert_eq!(short.len(), 1);
    let all = retain_first(&issues, &vec!["1".to_string(), "2".to_string(), "3".to_string(), "4".to_string()]);
    assert_eq!(all.len(), 3);
}

#[test]
fn deduplication_across_passes_scenario() {
    let rules = full_catalog();
    let files = vec![PythonFile::new("/p/app.py".to_string(), shell_content(), Some(shell_module()))];
    let context = AnalysisContext {
        root_path: "/p".to_string(),
        exclusions: vec![],
        ruleset: rules,
        py_files: &files,
    };
    let found = run_analysis(&context, &vec![]);
    let flows: Vec<&Issue> = found.iter().filter(|i| i.rule_id == "V1").collect();
    assert_eq!(flows.len(), 1);
    assert_eq!(flows[0].line_number, 3);
    assert_eq!(flows[0].code, "run_shell(x)");
    assert_eq!(
        summary(&found),
        vec![
            ("A1".to_string(), "/p/app.py".to_string(), 3),
            ("V1".to_string(), "/p/app.py".to_string(), 3)
        ]
    );
    assert!(distinct_fingerprints(&found));
}

#[test]
fn finish_adds_project_findings_and_removes_repetitions() {
    let files = vec![PythonFile::new("/p/app.py".to_string(), shell_content(), Some(shell_module()))];
    let context = AnalysisContext {
        root_path: "/p".to_string(),
        exclusions: vec!["app.py".to_string()],
        ruleset: full_catalog(),
        py_files: &files,
    };
    let from_units = vec![issue_at("X", "other", 1, "a"), issue_at("X", "other", 1, "a")];
    let found = finish_analysis(&context, from_units);
    assert_eq!(
        summary(&found),
        vec![
            ("V1".to_string(), "/p/app.py".to_string(), 3),
            ("X".to_string(), "other".to_string(), 1)
        ]
    );
    assert_eq!(found[0].rule_id, "X");
}

#[test]
fn run_scans_walked_files_by_extension_and_name() {
    let walked_files = vec![
        walked("/p/settings.ini", "password = 1"),
        walked("/p/app.py", "password = 2"),
        walked("/p/sub/secret.txt", "password = 3"),
        walked("/p/notes", "password = 4"),
    ];
    let files: Vec<PythonFile> = vec![];
    let context = AnalysisContext {
        root_path: "/p".to_string(),
        exclusions: vec!["secret.*".to_string()],
        ruleset: full_catalog(),
        py_files: &files,
    };
    let found = run_analysis(&context, &walked_files);
    assert_eq!(
        summary(&found),
        vec![
            ("W1".to_string(), "/p/notes".to_string(), 1),
            ("W1".to_string(), "/p/settings.ini".to_string(), 1)
        ]
    );
}

#[test]
fn run_resolves_the_names_of_parsed_files() {
    let files = vec![
        PythonFile::new("/p/pkg/app.py".to_string(), "password = 1".to_string(), None),
        PythonFile::new("/p/pkg/test_app.py".to_string(), "password = 2".to_string(), None),
    ];
    let context = AnalysisContext {
        root_path: "/p".to_string(),
        exclusions: vec!["test_*".to_string()],
        ruleset: full_catalog(),
        py_files: &files,
    };
    let found = run_analysis(&context, &vec![]);
    assert_eq!(summary(&found), vec![("W1".to_string(), "/p/pkg/app.py".to_string(), 1)]);
}

#[test]
fn adding_an_exclusion_never_adds_findings() {
    let walked_files = vec![
        walked("/p/a.ini", "password = 1\npassword = 2"),
        walked("/p/b.cfg", "password = 3"),
    ];
    let files = vec![PythonFile::new(
        "/p/app.py".to_string(),
        format!("{}password = 9\n", shell_content()),
        Some(shell_module()),
    )];
    let mut exclusions: Vec<String> = vec![];
    let mut last = usize::MAX;
    for more in ["nothing-matches", "*.cfg", "app.py", "/p/", "*"] {
        let context = AnalysisContext {
            root_path: "/p".to_string(),
            exclusions: exclusions.clone(),
            ruleset: full_catalog(),
            py_files: &files,
        };
        let count = run_analysis(&context, &walked_files).len();
        assert!(count <= last);
        last = count;
        exclusions.push(more.to_string());
    }
    let context = AnalysisContext {
        root_path: "/p".to_string(),
        exclusions,
        ruleset: full_catalog(),
        py_files: &files,
    };
    let rest = run_analysis(&context, &walked_files);
    assert_eq!(summary(&rest), vec![("V1".to_string(), "/p/app.py".to_string(), 3)]);
}

#[test]
fn order_of_units_does_not_change_the_fingerprints() {
    let rules_files = vec![PythonFile::new("/p/app.py".to_string(), shell_content(), Some(shell_module()))];
    let a = walked("/p/a.ini", "password = 1");
    let b = walked("/p/b.ini", "password = 1\npassword = 1");
    let one = vec![
        GenericUnit { file: &a, file_name: "a.ini".to_string(), extension: Some("ini".to_string()) },
        GenericUnit { file: &b, file_name: "b.ini".to_string(), extension: Some("ini".to_string()) },
    ];
    let other = vec![
        GenericUnit { file: &b, file_name: "b.ini".to_string(), extension: Some("ini".to_string()) },
        GenericUnit { file: &a, file_name: "a.ini".to_string(), extension: Some("ini".to_string()) },
    ];
    let parsed = vec![ParsedUnit { file: &rules_files[0], file_name: "app.py".to_string() }];
    let context = AnalysisContext {
        root_path: "/p".to_string(),
        exclusions: vec![],
        ruleset: full_catalog(),
        py_files: &rules_files,
    };
    let mut first: Vec<String> =
        analyze_units(&context, &one, &parsed).iter().map(|i| i.get_fingerprint()).collect();
    let mut second: Vec<String> =
        analyze_units(&context, &other, &parsed).iter().map(|i| i.get_fingerprint()).collect();
    assert_ne!(first, second);
    first.sort();
    second.sort();
    assert_eq!(first, second);
    assert_eq!(first.len(), 5);
}

#[test]
fn empty_project_has_no_findings() {
    let files: Vec<PythonFile> = vec![];
    let context = AnalysisContext {
        root_path: String::new(),
        exclusions: vec![],
        ruleset: RuleSet { rules: vec![], taint_sources: vec![], taint_sinks: vec![], taint_sanitizers: vec![] },
        py_files: &files,
    };
    assert!(run_analysis(&context, &vec![]).is_empty());
}

fn flow_catalog(vulnerability: &str, severity: Severity, sink: &str) -> RuleSet {
    let mut rule = plain_rule(vulnerability, Some("^never matches anything$"), None);
    rule.severity = severity;
    RuleSet {
        rules: vec![rule],
        taint_sources: vec![TaintSourceRule {
            id: "S1".to_string(),
            description: String::new(),
            function_call: "read_input".to_string(),
            taint_target: "return".to_string(),
        }],
        taint_sinks: vec![TaintSinkRule {
            id: "K1".to_string(),
            vulnerability_id: vulnerability.to_string(),
            description: String::new(),
            function_call: sink.to_string(),
            vulnerable_parameter_index: 0,
        }],
        taint_sanitizers: vec![],
    }
}

fn assignment(target: &str, value: AstNode, line: isize) -> AstNode {
    under(under(leaf("Assign", line), "targets", vec![ident(target, line)]), "value", vec![value])
}

#[test]
fn intraprocedural_taint_end_to_end() {
    let body = vec![
        assignment("x", invoke("read_input", vec![], 1), 1),
        under(leaf("Expr", 2), "value", vec![invoke("run_shell", vec![ident("x", 2)], 2)]),
    ];
    let module = under(
        leaf("Module", 0),
        "body",
        vec![under(named(leaf("FunctionDef", 0), "id", "f"), "body", body)],
    );
    let files = vec![PythonFile::new(
        "app.py".to_string(),
        "x = read_input()\nrun_shell(x)".to_string(),
        Some(module),
    )];
    let context = AnalysisContext {
        root_path: ".".to_string(),
        exclusions: vec![],
        ruleset: flow_catalog("V1", Severity::Critical, "run_shell"),
        py_files: &files,
    };
    let found = run_analysis(&context, &vec![]);
    assert_eq!(found.len(), 1);
    assert_eq!(found[0].rule_id, "V1");
    assert_eq!(found[0].file_path, "app.py");
    assert_eq!(found[0].line_number, 2);
    assert_eq!(found[0].code, "run_shell(x)");
    assert_eq!(found[0].severity, Severity::Critical);
}

#[test]
fn joined_string_propagation_end_to_end() {
    let interpolation = under(leaf("FormattedValue", 2), "value", vec![ident("x", 2)]);
    let template = under(leaf("JoinedStr", 2), "values", vec![leaf("Constant", 2), interpolation]);
    let body = vec![
        assignment("x", invoke("read_input", vec![], 1), 1),
        assignment("q", template, 2),
        under(leaf("Expr", 3), "value", vec![invoke("execute", vec![ident("q", 3)], 3)]),
    ];
    let module = under(
        leaf("Module", 0),
        "body",
        vec![under(named(leaf("FunctionDef", 0), "id", "f"), "body", body)],
    );
    let files = vec![PythonFile::new(
        "db.py".to_string(),
        "x = read_input()\nq = f\"SELECT {x}\"\nexecute(q)".to_string(),
        Some(module),
    )];
    let context = AnalysisContext {
        root_path: ".".to_string(),
        exclusions: vec![],
        ruleset: flow_catalog("V2", Severity::High, "execute"),
        py_files: &files,
    };
    let found = run_analysis(&context, &vec![]);
    assert_eq!(found.len(), 1);
    assert_eq!(found[0].rule_id, "V2");
    assert_eq!(found[0].line_number, 3);
    assert_eq!(found[0].code, "execute(q)");
}

#[test]
fn regex_and_glob_end_to_end() {
    let mut rule = plain_rule("R1", Some(r"password\s*="), None);
    rule.severity = Severity::High;
    rule.file_pattern = Some("*.ini".to_string());
    let files: Vec<PythonFile> = vec![];
    let context = AnalysisContext {
        root_path: "".to_string(),
        exclusions: vec![],
        ruleset: RuleSet { rules: vec![rule], taint_sources: vec![], taint_sinks: vec![], taint_sanitizers: vec![] },
        py_files: &files,
    };
    let walked_files = vec![
        walked("config/app.ini", "[db]\nuser=admin\npassword=hunter2\n"),
        walked("notes.txt", "# password=hunter2"),
        walked("config/app.txt", "password=hunter2"),
    ];
    let found = run_analysis(&context, &walked_files);
    assert_eq!(found.len(), 1);
    assert_eq!(found[0].rule_id, "R1");
    assert_eq!(found[0].file_path, "config/app.ini");
    assert_eq!(found[0].line_number, 3);
    assert_eq!(found[0].code, "password=hunter2");
    assert_eq!(found[0].severity, Severity::High);
}

#[test]
fn line_scan_is_for_other_files_that_are_not_excluded() {
    let none: Vec<String> = vec![];
    assert!(takes_line_scan("/p/a.ini", "a.ini", &Some("ini".to_string()), &none));
    assert!(takes_line_scan("/p/Makefile", "Makefile", &None, &none));
    assert!(!takes_line_scan("/p/a.py", "a.py", &Some("py".to_string()), &none));
    assert!(takes_line_scan("/p/a.PY", "a.PY", &Some("PY".to_string()), &none));
    assert!(!takes_line_scan("/p/a.ini", "a.ini", &Some("ini".to_string()), &vec!["*.ini".to_string()]));
    assert!(!takes_line_scan("/p/a.ini", "a.ini", &Some("ini".to_string()), &vec!["/p".to_string()]));
}

#[test]
fn units_take_name_and_extension_from_the_path() {
    let file = walked("dir/sub/settings.local.ini", "x");
    let unit = generic_unit(&file);
    assert_eq!(unit.file.path, "dir/sub/settings.local.ini");
    assert_eq!(unit.file_name, "settings.local.ini");
    assert_eq!(unit.extension, Some("ini".to_string()));
    let bare = walked("dir/Makefile", "x");
    assert_eq!(generic_unit(&bare).file_name, "Makefile");
    assert_eq!(generic_unit(&bare).extension, None);
    let source = PythonFile::new("pkg/mod/app.py".to_string(), String::new(), None);
    assert_eq!(parsed_unit(&source).file_name, "app.py");
    assert!(wants_line_scan("dir/a.txt", &vec![]));
    assert!(!wants_line_scan("dir/a.py", &vec![]));
    assert!(!wants_line_scan("dir/a.txt", &vec!["a.*".to_string()]));
    assert!(wants_line_scan("dir/a.txt", &vec!["dir".to_string() + "x"]));
}

fn plain_form(path: &str) -> bool {
    !path.is_empty()
        && !path.contains('\\')
        && !path.contains(':')
        && !path.starts_with("//")
        && !path.ends_with('/')
        && !path.ends_with('.')
}

fn name_after_last_slash(path: &str) -> String {
    match path.rfind('/') {
        Some(at) => path[at + 1..].to_string(),
        None => path.to_string(),
    }
}

fn extension_after_last_dot(name: &str) -> Option<String> {
    match name.rfind('.') {
        Some(at) if at >= 1 => Some(name[at + 1..].to_string()),
        _ => None,
    }
}

#[test]
fn plain_paths_have_the_name_after_the_last_slash() {
    let alphabet = ['a', 'B', '.', '/'];
    let mut paths: Vec<String> = vec![String::new()];
    let mut checked = 0;
    for _ in 0..7 {
        let mut longer = vec![];
        for path in &paths {
            for c in alphabet {
                let mut next = path.clone();
                next.push(c);
                longer.push(next);
            }
        }
        for path in &longer {
            if plain_form(path) {
                let file = walked(path, "");
                let unit = generic_unit(&file);
                let name = name_after_last_slash(path);
                assert_eq!(unit.file_name, name, "name of {:?}", path);
                assert_eq!(unit.extension, extension_after_last_dot(&name), "extension of {:?}", path);
                let source = PythonFile::new(path.clone(), String::new(), None);
                assert_eq!(parsed_unit(&source).file_name, name);
                checked += 1;
            }
        }
        paths = longer;
    }
    assert!(checked > 5000);
}

#[test]
fn names_of_some_plain_paths() {
    for (path, name, extension) in [
        ("config/app.ini", "app.ini", Some("ini")),
        ("/usr/local/bin/tool", "tool", None),
        ("notes.txt", "notes.txt", Some("txt")),
        ("./src/main.py", "main.py", Some("py")),
        ("home/.profile", ".profile", None),
        ("a b/archive.tar.gz", "archive.tar.gz", Some("gz")),
        ("dir//file", "file", None),
    ] {
        let file = walked(path, "");
        let unit = generic_unit(&file);
        assert_eq!(unit.file_name, name);
        assert_eq!(unit.extension, extension.map(|e| e.to_string()));
    }
}

#[test]
fn units_of_paths_that_are_not_plain_still_fit() {
    for path in ["", "dir/", "dir/.", "dir/..", "/", "a/b."] {
        let file = walked(path, "");
        let unit = generic_unit(&file);
        assert!(path.contains(unit.file_name.as_str()));
        if let Some(e) = unit.extension {
            assert!(!e.contains('.'));
            assert!(path.contains(&format!(".{}", e)));
        }
    }
}

#[test]
fn line_scan_goes_by_the_extension_of_the_name() {
    let none: Vec<String> = vec![];
    assert!(wants_line_scan("py", &none));
    assert!(wants_line_scan(".py", &none));
    assert!(wants_line_scan("a.py/b", &none));
    assert!(wants_line_scan("a/b.pyc", &none));
    assert!(wants_line_scan("a/b.PY", &none));
    assert!(!wants_line_scan("a/.b.py", &none));
    assert!(!wants_line_scan("x.py", &none));
    assert!(!wants_line_scan("a.b/c.d.py", &none));
    assert!(!wants_line_scan("a/b.txt", &vec!["b.t?t".to_string()]));
    assert!(wants_line_scan("b.txt/a", &vec!["b.t?t".to_string()]));
}
