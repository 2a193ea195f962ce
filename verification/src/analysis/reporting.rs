//! Findings at syntax nodes.

use crate::ast_parser::AstNode;
use crate::issues::{Issue, IssueView};
use crate::rules::{finding_of, Rule};
use crate::text::strings_view;
use vstd::prelude::*;
use vstd::string::*;

verus! {

/// The text of line `lineno` (counted from 1) of `lines`; the empty text if
/// there is no such line.
pub open spec fn snippet_at(lines: Seq<Seq<char>>, lineno: int) -> Seq<char> {
    if 1 <= lineno <= lines.len() {
        lines[lineno - 1]
    } else {
        Seq::empty()
    }
}

/// The line number that is reported for a node: its own, or 0 if its own is
/// not positive.
pub open spec fn reported_line(lineno: int) -> nat {
    if lineno > 0 {
        lineno as nat
    } else {
        0
    }
}

/// The finding of `rule` at `node`: it carries the line number of the node
/// and the text of that line.
pub open spec fn node_finding(
    rule: Rule,
    node: AstNode,
    file_path: Seq<char>,
    lines: Seq<Seq<char>>,
) -> IssueView {
    finding_of(
        rule,
        file_path,
        reported_line(node.lineno as int),
        snippet_at(lines, node.lineno as int),
    )
}

/// The finding of `rule` at `node` in the file `file_path` with the lines
/// `lines`.
pub fn issue_for_node(rule: &Rule, node: &AstNode, file_path: &str, lines: &Vec<String>) -> (r:
    Issue)
    ensures
        r@ == node_finding(*rule, *node, file_path@, strings_view(lines@)),
{
    if node.lineno > 0 {
        let line_number = node.lineno as usize;
        if line_number <= lines.len() {
            rule.issue_at(file_path, line_number, lines[line_number - 1].as_str())
        } else {
            let r = rule.issue_at(file_path, line_number, "");
            proof {
                reveal_strlit("");
                assert(""@ =~= Seq::<char>::empty());
            }
            r
        }
    } else {
        let r = rule.issue_at(file_path, 0, "");
        proof {
            reveal_strlit("");
            assert(""@ =~= Seq::<char>::empty());
        }
        r
    }
}

} // verus!
