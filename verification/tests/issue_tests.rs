use pyspector_core::issues::{Issue, Severity};
use pyspector_core::rules::default_confidence;

fn sample_issue(rule: &str, path: &str, line: usize, code: &str) -> Issue {
    Issue::new(
        rule.to_string(),
        "description".to_string(),
        path.to_string(),
        line,
        code.to_string(),
        Severity::High,
        default_confidence(),
        String::new(),
    )
}

#[test]
fn new_issue_trims_the_snippet() {
    let issue = sample_issue("R1", "a.txt", 12, "   x = 1 \t");
    assert_eq!(issue.rule_id, "R1");
    assert_eq!(issue.description, "description");
    assert_eq!(issue.file_path, "a.txt");
    assert_eq!(issue.line_number, 12);
    assert_eq!(issue.code, "x = 1");
    assert_eq!(issue.severity, Severity::High);
    assert_eq!(issue.confidence, "Medium");
    assert_eq!(issue.remediation, "");
}

#[test]
fn fingerprint_is_sha1_of_the_key() {
    let issue = sample_issue("R1", "config/app.ini", 3, "password=hunter2");
    assert_eq!(issue.get_fingerprint(), "a471975b7638bb0831d3aa23842c45bc4071d95e");
    let other = sample_issue("R1", "a.txt", 12, "  x = 1  ");
    assert_eq!(other.get_fingerprint(), "b20a3ee72db5a226bcad616e628bd95757397edc");
    let empty = sample_issue("", "", 0, "");
    assert_eq!(empty.get_fingerprint(), "5e9f3560aabdf5f4a7cab5ec77888e6f93b088e1");
}

#[test]
fn fingerprint_is_lower_case_hex_of_forty_digits() {
    let print = sample_issue("R9", "x/y.py", 77, "eval(z)").get_fingerprint();
    assert_eq!(print.len(), 40);
    assert!(print.chars().all(|c| c.is_ascii_digit() || ('a'..='f').contains(&c)));
}

#[test]
fn fingerprint_ignores_fields_outside_the_key() {
    let a = sample_issue("R1", "a.py", 4, "run(x)");
    let mut b = sample_issue("R1", "a.py", 4, "  run(x)  ");
    b.description = "another description".to_string();
    b.severity = Severity::Low;
    b.confidence = "High".to_string();
    b.remediation = "do not".to_string();
    assert_eq!(a.get_fingerprint(), b.get_fingerprint());
}

#[test]
fn fingerprint_trims_a_snippet_that_was_changed() {
    let a = sample_issue("R1", "a.py", 4, "run(x)");
    let mut b = sample_issue("R1", "a.py", 4, "run(x)");
    b.code = "  run(x)\n".to_string();
    assert_eq!(a.get_fingerprint(), b.get_fingerprint());
}

#[test]
fn fingerprint_changes_with_each_part_of_the_key() {
    let base = sample_issue("R1", "a.py", 4, "run(x)").get_fingerprint();
    assert_ne!(base, sample_issue("R2", "a.py", 4, "run(x)").get_fingerprint());
    assert_ne!(base, sample_issue("R1", "b.py", 4, "run(x)").get_fingerprint());
    assert_ne!(base, sample_issue("R1", "a.py", 5, "run(x)").get_fingerprint());
    assert_ne!(base, sample_issue("R1", "a.py", 4, "run(y)").get_fingerprint());
}

#[test]
fn cloned_issue_has_the_same_fields() {
    let issue = sample_issue("R1", "a.py", 4, "run(x)");
    let copy = issue.clone();
    assert_eq!(copy.rule_id, issue.rule_id);
    assert_eq!(copy.file_path, issue.file_path);
    assert_eq!(copy.line_number, issue.line_number);
    assert_eq!(copy.code, issue.code);
    assert_eq!(copy.severity, issue.severity);
    assert_eq!(copy.get_fingerprint(), issue.get_fingerprint());
}

#[test]
fn default_confidence_is_medium() {
    assert_eq!(default_confidence(), "Medium");
}
