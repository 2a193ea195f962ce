//! The rule catalog.

use crate::issues::{Issue, IssueView, Severity};
use crate::text::trimmed;
use regex::Regex;
use vstd::prelude::*;
use vstd::string::*;

verus! {

/// A rule that matches lines by regular expression, syntax nodes by query,
/// or both. A taint sink refers to the rule it reports by `id`.
#[derive(Debug)]
pub struct Rule {
    pub id: String,
    pub description: String,
    pub severity: Severity,
    pub confidence: String,
    pub remediation: String,
    pub pattern: Option<Regex>,
    pub ast_match: Option<String>,
    pub file_pattern: Option<String>,
}

/// The confidence of a rule that states none.
pub fn default_confidence() -> (r: String)
    ensures
        r@ == "Medium"@,
{
    String::from_str("Medium")
}

/// A call whose result is untrusted data.
#[derive(Debug)]
pub struct TaintSourceRule {
    pub id: String,
    pub description: String,
    pub function_call: String,
    pub taint_target: String,
}

/// A call that must not receive untrusted data in one of its arguments.
#[derive(Debug)]
pub struct TaintSinkRule {
    pub id: String,
    pub vulnerability_id: String,
    pub description: String,
    pub function_call: String,
    pub vulnerable_parameter_index: usize,
}

/// A call that cleans untrusted data. Declared in the catalog; the engines
/// do not consult it.
#[derive(Debug)]
pub struct TaintSanitizerRule {
    pub id: String,
    pub description: String,
    pub function_call: String,
}

/// The whole catalog: four ordered collections, loaded once.
#[derive(Debug)]
pub struct RuleSet {
    pub rules: Vec<Rule>,
    pub taint_sources: Vec<TaintSourceRule>,
    pub taint_sinks: Vec<TaintSinkRule>,
    pub taint_sanitizers: Vec<TaintSanitizerRule>,
}

/// The finding that `rule` reports in `file_path` at `line_number` on the
/// line `snippet`.
pub open spec fn finding_of(
    rule: Rule,
    file_path: Seq<char>,
    line_number: nat,
    snippet: Seq<char>,
) -> IssueView {
    IssueView {
        rule_id: rule.id@,
        description: rule.description@,
        file_path: file_path,
        line_number: line_number,
        code: trimmed(snippet),
        severity: rule.severity,
        confidence: rule.confidence@,
        remediation: rule.remediation@,
    }
}

impl Rule {
    /// The finding that this rule reports in `file_path` at `line_number` on
    /// the line `snippet`.
    pub fn issue_at(&self, file_path: &str, line_number: usize, snippet: &str) -> (r: Issue)
        ensures
            r@ == finding_of(*self, file_path@, line_number as nat, snippet@),
    {
        Issue::new(
            self.id.clone(),
            self.description.clone(),
            String::from_str(file_path),
            line_number,
            String::from_str(snippet),
            self.severity,
            self.confidence.clone(),
            self.remediation.clone(),
        )
    }
}

/// Position of the first rule at or after `i` whose id is `id`.
pub open spec fn rule_index(rules: Seq<Rule>, id: Seq<char>, i: int) -> Option<int>
    decreases rules.len() - i,
{
    if i < 0 || i >= rules.len() {
        None
    } else if rules[i].id@ == id {
        Some(i)
    } else {
        rule_index(rules, id, i + 1)
    }
}

impl RuleSet {
    /// The first rule of the catalog whose id is `id`.
    pub fn find_rule(&self, id: &str) -> (r: Option<&Rule>)
        ensures
            match r {
                Some(rule) => rule_index(self.rules@, id@, 0) matches Some(k) && 0 <= k
                    < self.rules@.len() && self.rules@[k] == *rule,
                None => rule_index(self.rules@, id@, 0) is None,
            },
    {
        let mut i: usize = 0;
        while i < self.rules.len()
            invariant
                i <= self.rules@.len(),
                rule_index(self.rules@, id@, 0) == rule_index(self.rules@, id@, i as int),
            decreases self.rules@.len() - i,
        {
            if self.rules[i].id.as_str().eq(id) {
                return Some(&self.rules[i]);
            }
            i += 1;
        }
        None
    }
}

} // verus!
