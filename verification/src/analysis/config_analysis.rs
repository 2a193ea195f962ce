//! The line scanner: regular-expression rules applied to the lines of a
//! file.

use crate::issues::{issue_views, Issue, IssueView};
use crate::patterns::{glob_matches, regex_accepts, regex_is_match, wildcard_match};
use crate::rules::{finding_of, Rule, RuleSet};
use crate::text::{
    chars_of, contains, contains_char, ends_with, has_infix, has_prefix, has_suffix,
    lemma_trimmed_idempotent, lines_of, split_lines, starts_with, strings_view, trim_chars,
    trimmed,
};
use vstd::prelude::*;
use vstd::string::*;

verus! {

/// Three quote characters in a row.
pub open spec fn triple(q: char) -> Seq<char> {
    seq![q, q, q]
}

/// Whether the text starts and ends with the quote character `q`.
pub open spec fn quoted_by(t: Seq<char>, q: char) -> bool {
    t.len() > 0 && t[0] == q && t.last() == q
}

/// Whether a line is taken for a comment or a string literal, and therefore
/// not scanned. With `t` the line without leading and trailing white space,
/// the line is suppressed if
///
/// - `t` starts with `#`; or
/// - `t` starts and ends with three double quotes, or with three single
///   quotes, and is longer than six characters; or
/// - `t` starts and ends with a double quote, or with a single quote, and
///   does not contain ` = `; or
/// - `t` contains three quotes of one kind in a row and neither `=` nor `(`.
pub open spec fn is_suppressed(line: Seq<char>) -> bool {
    let t = trimmed(line);
    ||| (t.len() > 0 && t[0] == '#')
    ||| (has_prefix(t, triple('"')) && has_suffix(t, triple('"')) && t.len() > 6)
    ||| (has_prefix(t, triple('\'')) && has_suffix(t, triple('\'')) && t.len() > 6)
    ||| (quoted_by(t, '"') && !has_infix(t, seq![' ', '=', ' ']))
    ||| (quoted_by(t, '\'') && !has_infix(t, seq![' ', '=', ' ']))
    ||| ((has_infix(t, triple('"')) || has_infix(t, triple('\''))) && !t.contains('=')
        && !t.contains('('))
}

/// The verdict on a line is the verdict on its trimmed form: suppressing
/// twice decides as suppressing once.
pub proof fn lemma_suppression_idempotent(line: Seq<char>)
    ensures
        is_suppressed(trimmed(line)) == is_suppressed(line),
{
    lemma_trimmed_idempotent(line);
}

fn is_quoted_by(t: &Vec<char>, q: char) -> (r: bool)
    ensures
        r == quoted_by(t@, q),
{
    t.len() > 0 && t[0] == q && t[t.len() - 1] == q
}

/// Whether `line` is taken for a comment or a string literal.
pub fn is_in_comment_or_string(line: &str) -> (r: bool)
    ensures
        r == is_suppressed(line@),
{
    let chars = chars_of(line);
    let t = trim_chars(&chars);
    if t.len() > 0 && t[0] == '#' {
        return true;
    }
    let double3: Vec<char> = vec!['"', '"', '"'];
    let single3: Vec<char> = vec!['\'', '\'', '\''];
    let spaced_equals: Vec<char> = vec![' ', '=', ' '];
    assert(double3@ =~= triple('"'));
    assert(single3@ =~= triple('\''));
    assert(spaced_equals@ =~= seq![' ', '=', ' ']);
    if starts_with(&t, &double3) && ends_with(&t, &double3) && t.len() > 6 {
        return true;
    }
    if starts_with(&t, &single3) && ends_with(&t, &single3) && t.len() > 6 {
        return true;
    }
    if is_quoted_by(&t, '"') && !contains(&t, &spaced_equals) {
        return true;
    }
    if is_quoted_by(&t, '\'') && !contains(&t, &spaced_equals) {
        return true;
    }
    if (contains(&t, &double3) || contains(&t, &single3)) && !contains_char(&t, '=')
        && !contains_char(&t, '(') {
        return true;
    }
    false
}

/// Whether `rule` takes part in the line scan of the file `file_path`: it
/// has a regular expression, and its file pattern, if it has one, matches
/// the whole path.
pub open spec fn rule_applies(rule: Rule, file_path: Seq<char>) -> bool {
    &&& rule.pattern is Some
    &&& rule.file_pattern matches Some(glob) ==> glob_matches(glob@, file_path)
}

/// Whether `rule`, which has a regular expression, fires on `line`.
pub open spec fn line_fires(rule: Rule, line: Seq<char>) -> bool {
    !is_suppressed(line) && regex_accepts(rule.pattern->0, line)
}

/// The findings of `rule` in the first `n` lines of `lines`, in line order;
/// line numbers start at 1.
pub open spec fn line_findings(
    rule: Rule,
    file_path: Seq<char>,
    lines: Seq<Seq<char>>,
    n: int,
) -> Seq<IssueView>
    decreases n,
{
    if n <= 0 {
        Seq::empty()
    } else {
        let before = line_findings(rule, file_path, lines, n - 1);
        if line_fires(rule, lines[n - 1]) {
            before.push(finding_of(rule, file_path, n as nat, lines[n - 1]))
        } else {
            before
        }
    }
}

/// The findings of the first `k` rules of `rules` in a file: rule by rule in
/// catalog order, and for each rule line by line.
pub open spec fn scan_findings(
    rules: Seq<Rule>,
    file_path: Seq<char>,
    lines: Seq<Seq<char>>,
    k: int,
) -> Seq<IssueView>
    decreases k,
{
    if k <= 0 {
        Seq::empty()
    } else {
        let before = scan_findings(rules, file_path, lines, k - 1);
        if rule_applies(rules[k - 1], file_path) {
            before + line_findings(rules[k - 1], file_path, lines, lines.len() as int)
        } else {
            before
        }
    }
}

/// The finding of `rule` on one line, given whether the regular expression
/// of the rule matched the line: a finding is reported when it matched and
/// the line is not suppressed.
pub fn scan_line(
    rule: &Rule,
    file_path: &str,
    line_number: usize,
    line: &str,
    matched: bool,
) -> (r: Option<Issue>)
    ensures
        r is Some <==> matched && !is_suppressed(line@),
        r matches Some(issue) ==> issue@ == finding_of(
            *rule,
            file_path@,
            line_number as nat,
            line@,
        ),
{
    if matched && !is_in_comment_or_string(line) {
        Some(rule.issue_at(file_path, line_number, line))
    } else {
        None
    }
}

/// Whether `rule` takes part in the line scan of the file `file_path`.
pub fn applies_to(rule: &Rule, file_path: &str) -> (r: bool)
    ensures
        r == rule_applies(*rule, file_path@),
{
    if rule.pattern.is_none() {
        return false;
    }
    match &rule.file_pattern {
        Some(glob) => wildcard_match(glob.as_str(), file_path),
        None => true,
    }
}

/// Scans the lines of `content` with the regular-expression rules of the
/// catalog and returns the findings, rule by rule and line by line.
pub fn scan_file(file_path: &str, content: &str, ruleset: &RuleSet) -> (issues: Vec<Issue>)
    ensures
        issue_views(issues@) == scan_findings(
            ruleset.rules@,
            file_path@,
            lines_of(content@),
            ruleset.rules@.len() as int,
        ),
{
    let mut issues: Vec<Issue> = Vec::new();
    let lines = split_lines(content);
    let ghost texts = lines_of(content@);
    assert(issue_views(issues@) =~= Seq::<IssueView>::empty());
    let mut k: usize = 0;
    while k < ruleset.rules.len()
        invariant
            k <= ruleset.rules@.len(),
            strings_view(lines@) == texts,
            issue_views(issues@) == scan_findings(ruleset.rules@, file_path@, texts, k as int),
        decreases ruleset.rules@.len() - k,
    {
        let rule = &ruleset.rules[k];
        if applies_to(rule, file_path) {
            let ghost before = issue_views(issues@);
            match &rule.pattern {
                Some(pattern) => {
                    let mut i: usize = 0;
                    while i < lines.len()
                        invariant
                            i <= lines@.len(),
                            strings_view(lines@) == texts,
                            rule.pattern == Some(*pattern),
                            issue_views(issues@) == before + line_findings(
                                *rule,
                                file_path@,
                                texts,
                                i as int,
                            ),
                        decreases lines@.len() - i,
                    {
                        let line = lines[i].as_str();
                        assert(texts[i as int] == line@);
                        let matched = regex_is_match(pattern, line);
                        let ghost so_far = issue_views(issues@);
                        match scan_line(rule, file_path, i + 1, line, matched) {
                            Some(issue) => {
                                issues.push(issue);
                                assert(issue_views(issues@) =~= so_far.push(issue@));
                            },
                            None => {},
                        }
                        i += 1;
                    }
                },
                None => {},
            }
        }
        k += 1;
    }
    issues
}

} // verus!
