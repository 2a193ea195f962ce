use pyspector_core::analysis::config_analysis::{
    applies_to, is_in_comment_or_string, scan_file, scan_line,
};
use pyspector_core::issues::Severity;
use pyspector_core::rules::{Rule, RuleSet};
use regex::Regex;

fn regex_rule(id: &str, severity: Severity, pattern: &str, glob: Option<&str>) -> Rule {
    Rule {
        id: id.to_string(),
        description: format!("rule {}", id),
        severity,
        confidence: "Medium".to_string(),
        remediation: String::new(),
        pattern: Some(Regex::new(pattern).unwrap()),
        ast_match: None,
        file_pattern: glob.map(|g| g.to_string()),
    }
}

fn catalog(rules: Vec<Rule>) -> RuleSet {
    RuleSet { rules, taint_sources: vec![], taint_sinks: vec![], taint_sanitizers: vec![] }
}

#[test]
fn regex_and_glob_scenario() {
    let rules = catalog(vec![regex_rule("R1", Severity::High, r"password\s*=", Some("*.ini"))]);
    let content = "[db]\nuser=admin\npassword=hunter2\n";
    let issues = scan_file("config/app.ini", content, &rules);
    assert_eq!(issues.len(), 1);
    assert_eq!(issues[0].rule_id, "R1");
    assert_eq!(issues[0].file_path, "config/app.ini");
    assert_eq!(issues[0].line_number, 3);
    assert_eq!(issues[0].code, "password=hunter2");
    assert_eq!(issues[0].severity, Severity::High);
    assert_eq!(issues[0].description, "rule R1");
}

#[test]
fn comment_suppression_scenario() {
    let rules = catalog(vec![regex_rule("R1", Severity::High, r"password\s*=", Some("*.txt"))]);
    let issues = scan_file("notes.txt", "# password=hunter2", &rules);
    assert!(issues.is_empty());
}

#[test]
fn glob_must_match_the_whole_path() {
    let rules = catalog(vec![regex_rule("R1", Severity::High, r"password\s*=", Some("*.ini"))]);
    assert!(scan_file("config/app.ini.bak", "password=1", &rules).is_empty());
    assert!(scan_file("config/app.txt", "password=1", &rules).is_empty());
    assert_eq!(scan_file("x.ini", "password=1", &rules).len(), 1);
    let single = catalog(vec![regex_rule("R1", Severity::Low, "a", Some("?.py"))]);
    assert_eq!(scan_file("x.py", "a", &single).len(), 1);
    assert!(scan_file("xy.py", "a", &single).is_empty());
    assert!(scan_file(".py", "a", &single).is_empty());
}

#[test]
fn rule_without_glob_applies_to_every_file() {
    let rule = regex_rule("R1", Severity::Low, "secret", None);
    assert!(applies_to(&rule, "any/where.bin"));
    assert!(applies_to(&rule, ""));
}

#[test]
fn rule_without_pattern_is_skipped() {
    let rule = Rule {
        id: "A1".to_string(),
        description: String::new(),
        severity: Severity::Low,
        confidence: "Medium".to_string(),
        remediation: String::new(),
        pattern: None,
        ast_match: Some("Call".to_string()),
        file_pattern: None,
    };
    assert!(!applies_to(&rule, "a.py"));
    let rules = catalog(vec![rule]);
    assert!(scan_file("a.py", "Call\nCall", &rules).is_empty());
}

#[test]
fn findings_come_rule_by_rule_and_line_by_line() {
    let rules = catalog(vec![
        regex_rule("B", Severity::Low, "b", None),
        regex_rule("A", Severity::Medium, "a", None),
    ]);
    let issues = scan_file("f.cfg", "a\nab\nb\n", &rules);
    let got: Vec<(String, usize)> =
        issues.iter().map(|i| (i.rule_id.clone(), i.line_number)).collect();
    assert_eq!(
        got,
        vec![
            ("B".to_string(), 2),
            ("B".to_string(), 3),
            ("A".to_string(), 1),
            ("A".to_string(), 2)
        ]
    );
}

#[test]
fn snippet_is_the_trimmed_line() {
    let rules = catalog(vec![regex_rule("R", Severity::Low, "key", None)]);
    let issues = scan_file("f.cfg", "first\r\n    key = 1   \r\n", &rules);
    assert_eq!(issues.len(), 1);
    assert_eq!(issues[0].line_number, 2);
    assert_eq!(issues[0].code, "key = 1");
}

#[test]
fn scan_line_reports_only_matched_unsuppressed_lines() {
    let rule = regex_rule("R", Severity::Critical, "unused", None);
    let hit = scan_line(&rule, "f.py", 9, "  token = 1", true).unwrap();
    assert_eq!(hit.rule_id, "R");
    assert_eq!(hit.file_path, "f.py");
    assert_eq!(hit.line_number, 9);
    assert_eq!(hit.code, "token = 1");
    assert_eq!(hit.severity, Severity::Critical);
    assert!(scan_line(&rule, "f.py", 9, "  token = 1", false).is_none());
    assert!(scan_line(&rule, "f.py", 9, "# token = 1", true).is_none());
    assert!(scan_line(&rule, "f.py", 9, "# token = 1", false).is_none());
}

#[test]
fn suppression_of_comments() {
    assert!(is_in_comment_or_string("# comment"));
    assert!(is_in_comment_or_string("   # indented comment"));
    assert!(is_in_comment_or_string("#"));
    assert!(!is_in_comment_or_string("x = 1  # trailing comment"));
}

#[test]
fn suppression_of_triple_quoted_lines() {
    assert!(is_in_comment_or_string("\"\"\"a docstring\"\"\""));
    assert!(is_in_comment_or_string("'''a docstring'''"));
    assert!(is_in_comment_or_string("  '''x = 1'''  "));
    assert!(is_in_comment_or_string("\"\"\"a = b\"\"\""));
    assert!(!is_in_comment_or_string("x = '''a'''"));
}

#[test]
fn suppression_of_quoted_literals() {
    assert!(is_in_comment_or_string("\"just a string\""));
    assert!(is_in_comment_or_string("'just a string'"));
    assert!(is_in_comment_or_string("\"a=b\""));
    assert!(!is_in_comment_or_string("\"a = b\""));
    assert!(!is_in_comment_or_string("'a = b'"));
    assert!(is_in_comment_or_string("\""));
    assert!(!is_in_comment_or_string("\"open"));
}

#[test]
fn suppression_of_lines_with_triple_quotes_inside() {
    assert!(is_in_comment_or_string("text \"\"\" more"));
    assert!(is_in_comment_or_string("text ''' more"));
    assert!(!is_in_comment_or_string("x = \"\"\" more"));
    assert!(!is_in_comment_or_string("f(\"\"\" more"));
    assert!(is_in_comment_or_string("\"\"\""));
    assert!(is_in_comment_or_string("\"\"\"\"\"\""));
}

#[test]
fn ordinary_lines_are_not_suppressed() {
    assert!(!is_in_comment_or_string("password=hunter2"));
    assert!(!is_in_comment_or_string(""));
    assert!(!is_in_comment_or_string("   "));
    assert!(!is_in_comment_or_string("x = \"a\""));
}

#[test]
fn suppression_verdict_is_that_of_the_trimmed_line() {
    for line in ["  # c", "\t'''d'''\n", "  x = 1 ", "\"s\"  ", "   ", " a ''' b "] {
        assert_eq!(
            is_in_comment_or_string(line),
            is_in_comment_or_string(line.trim()),
            "line {:?}",
            line
        );
        assert_eq!(is_in_comment_or_string(line), is_in_comment_or_string(line));
    }
}

#[test]
fn suppressed_lines_are_not_reported() {
    let rules = catalog(vec![regex_rule("R", Severity::Low, "password", None)]);
    let content = "password=1\n# password=2\n'password=3'\n\"\"\"password\"\"\"\npassword=5";
    let issues = scan_file("a.cfg", content, &rules);
    let lines: Vec<usize> = issues.iter().map(|i| i.line_number).collect();
    assert_eq!(lines, vec![1, 5]);
}
