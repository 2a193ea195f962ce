//! The syntax-tree matcher: rules with a node query, evaluated at every
//! node of a tree.
//!
//! A query is a node kind, optionally followed by a parenthesized list of
//! predicates separated by commas: `Kind`, `Kind(a=v)`, `Kind(a.b=v)`,
//! `Kind(a.*.b=v)`. A predicate is a dotted path and an expected value. The
//! last part of a path names a field; each part before it names a child
//! role and moves to the first child under that role, or, followed by `*`,
//! to any child under it.

use crate::analysis::reporting::{issue_for_node, node_finding};
use crate::ast_parser::{
    children_of, field_of, lemma_role_index, nodes_view, preorder, preorder_nodes, AstNode,
    FieldValue,
};
use crate::issues::{issue_views, Issue, IssueView};
use crate::rules::{Rule, RuleSet};
use crate::text::{
    chars_of, find_from, last_index_end, lines_of, lowercase_of,
    next_index_of, pieces_view, rfind_end, slice_chars, split, split_lines, split_on,
    string_of, strings_view, to_lowercase, trim_chars, trimmed,
};
use vstd::prelude::*;
use vstd::string::*;

verus! {

/// Whether a truth value equals an expected text, given the lower-case form
/// of that text.
pub open spec fn truth_matches(b: bool, lowered: Seq<char>) -> bool {
    if b {
        lowered == "true"@
    } else {
        lowered == "false"@
    }
}

/// Whether a field value equals the expected text of a predicate: a text
/// literally, a truth value as `true` or `false` without regard to case, a
/// number by its decimal text. No other value equals anything.
pub open spec fn value_matches(value: FieldValue, expected: Seq<char>) -> bool {
    match value {
        FieldValue::Str(s) => s@ == expected,
        FieldValue::Bool(b) => truth_matches(b, lowercase_of(expected)),
        FieldValue::Number(n) => n@ == expected,
        _ => false,
    }
}

/// Whether the field `name` of `node` holds a value that equals `expected`.
pub open spec fn field_matches(node: AstNode, name: Seq<char>, expected: Seq<char>) -> bool {
    match field_of(node, name) {
        Some(value) => value_matches(value, expected),
        None => false,
    }
}

/// Whether `node` satisfies the predicate with the path `path[i..]` and the
/// expected value `expected`. An empty path, an unknown role and an unknown
/// field are not satisfied.
pub open spec fn has_property(
    node: AstNode,
    path: Seq<Seq<char>>,
    i: int,
    expected: Seq<char>,
) -> bool
    decreases node, path.len() - i,
{
    if i < 0 || i >= path.len() {
        false
    } else if i + 1 == path.len() {
        field_matches(node, path[i], expected)
    } else {
        match children_of(node, path[i]) {
            Some(nodes) => {
                proof {
                    lemma_role_index(node.children@, path[i], 0);
                }
                if path[i + 1] == seq!['*'] {
                    any_has_property(nodes, 0, path, i + 2, expected)
                } else if nodes.len() > 0 {
                    has_property(nodes[0], path, i + 1, expected)
                } else {
                    false
                }
            },
            None => false,
        }
    }
}

/// Whether one of the nodes `nodes[j..]` satisfies the predicate with the
/// path `path[i..]`.
pub open spec fn any_has_property(
    nodes: Seq<AstNode>,
    j: int,
    path: Seq<Seq<char>>,
    i: int,
    expected: Seq<char>,
) -> bool
    decreases nodes, nodes.len() - j,
{
    if 0 <= j < nodes.len() {
        has_property(nodes[j], path, i, expected) || any_has_property(
            nodes,
            j + 1,
            path,
            i,
            expected,
        )
    } else {
        false
    }
}

/// Where the predicate list of a query opens: the position of the first
/// `(`, or the length of the query if it has none.
pub open spec fn query_open(query: Seq<char>) -> int {
    next_index_of(query, '(', 0)
}

/// Where the predicate list of a query closes: the position of the last
/// `)`, or the length of the query if it has none.
pub open spec fn query_close(query: Seq<char>) -> int {
    let end = last_index_end(query, ')', query.len() as int);
    if end == 0 {
        query.len() as int
    } else {
        end - 1
    }
}

/// Whether a query has the shape of a query: it has no `(`, or its last `)`
/// does not stand before its first `(`.
pub open spec fn query_well_formed(query: Seq<char>) -> bool {
    query_open(query) < query.len() ==> query_open(query) < query_close(query)
}

/// The node kind that a query asks for.
pub open spec fn query_kind(query: Seq<char>) -> Seq<char> {
    query.subrange(0, query_open(query))
}

/// The predicates of a query, as written: the texts between the commas of
/// its parenthesized list. A query without a list has none.
pub open spec fn query_predicates(query: Seq<char>) -> Seq<Seq<char>> {
    if query_open(query) < query.len() && query_open(query) < query_close(query) {
        split_on(query.subrange(query_open(query) + 1, query_close(query)), ',')
    } else {
        Seq::empty()
    }
}

/// Whether `node` satisfies one predicate as written. White space around the
/// predicate is ignored. The text before the first `=` is the path, split at
/// its dots, and the text after it the expected value; a predicate without
/// `=` asks for nothing.
pub open spec fn predicate_holds(node: AstNode, predicate: Seq<char>) -> bool {
    let t = trimmed(predicate);
    let eq = next_index_of(t, '=', 0);
    eq < t.len() ==> has_property(
        node,
        split_on(t.subrange(0, eq), '.'),
        0,
        t.subrange(eq + 1, t.len() as int),
    )
}

/// Whether `node` matches `query`: the query is well formed, the kind of the
/// node is the kind it asks for, and the node satisfies all its predicates.
pub open spec fn query_matches(node: AstNode, query: Seq<char>) -> bool {
    &&& query_well_formed(query)
    &&& node.node_type@ == query_kind(query)
    &&& forall|k: int|
        0 <= k < query_predicates(query).len() ==> predicate_holds(
            node,
            #[trigger] query_predicates(query)[k],
        )
}

/// Whether a truth value equals an expected text, given the lower-case form
/// of that text.
pub fn truth_text_matches(b: bool, lowered: &str) -> (r: bool)
    ensures
        r == truth_matches(b, lowered@),
{
    if b {
        lowered.eq("true")
    } else {
        lowered.eq("false")
    }
}

fn field_value_matches(value: &FieldValue, expected: &str) -> (r: bool)
    ensures
        r == value_matches(*value, expected@),
{
    match value {
        FieldValue::Str(s) => s.as_str().eq(expected),
        FieldValue::Bool(b) => {
            let lowered = to_lowercase(expected);
            truth_text_matches(*b, lowered.as_str())
        },
        FieldValue::Number(n) => n.as_str().eq(expected),
        _ => false,
    }
}

fn is_wildcard(part: &String) -> (r: bool)
    ensures
        r == (part@ == seq!['*']),
{
    proof {
        reveal_strlit("*");
        assert("*"@ =~= seq!['*']);
    }
    part.as_str().eq("*")
}

/// Whether `node` satisfies the predicate with the path `path[i..]` and the
/// expected value `expected_value`.
#[verifier::loop_isolation(false)]
pub fn node_has_property(node: &AstNode, path: &Vec<String>, i: usize, expected_value: &str) -> (r:
    bool)
    ensures
        r == has_property(*node, strings_view(path@), i as int, expected_value@),
    decreases *node, path@.len() - i,
{
    let ghost parts = strings_view(path@);
    if i >= path.len() {
        return false;
    }
    assert(parts[i as int] == path@[i as int]@);
    if i + 1 == path.len() {
        return match node.field(path[i].as_str()) {
            Some(value) => field_value_matches(value, expected_value),
            None => false,
        };
    }
    assert(parts[i + 1] == path@[i + 1]@);
    match node.child_list(path[i].as_str()) {
        Some(nodes) => {
            if is_wildcard(&path[i + 1]) {
                let mut j: usize = 0;
                while j < nodes.len()
                    invariant
                        j <= nodes@.len(),
                        i + 1 < path@.len(),
                        parts == strings_view(path@),
                        decreases_to!(*node => nodes@),
                        any_has_property(nodes@, 0, parts, i + 2, expected_value@)
                            == any_has_property(nodes@, j as int, parts, i + 2, expected_value@),
                    decreases nodes@.len() - j,
                {
                    if node_has_property(&nodes[j], path, i + 2, expected_value) {
                        return true;
                    }
                    j += 1;
                }
                false
            } else if nodes.len() > 0 {
                node_has_property(&nodes[0], path, i + 1, expected_value)
            } else {
                false
            }
        },
        None => false,
    }
}

fn to_strings(pieces: &Vec<Vec<char>>) -> (r: Vec<String>)
    ensures
        strings_view(r@) == pieces_view(pieces@),
{
    let mut out: Vec<String> = Vec::new();
    let mut k: usize = 0;
    while k < pieces.len()
        invariant
            k <= pieces@.len(),
            strings_view(out@) == pieces_view(pieces@).take(k as int),
        decreases pieces@.len() - k,
    {
        let s = string_of(&pieces[k], 0, pieces[k].len());
        assert(pieces@[k as int]@.subrange(0, pieces@[k as int]@.len() as int)
            =~= pieces@[k as int]@);
        let ghost before = strings_view(out@);
        out.push(s);
        assert(strings_view(out@) =~= before.push(pieces@[k as int]@));
        assert(pieces_view(pieces@).take(k + 1) =~= pieces_view(pieces@).take(k as int).push(
            pieces@[k as int]@,
        ));
        k += 1;
    }
    assert(pieces_view(pieces@).take(k as int) =~= pieces_view(pieces@));
    out
}

fn check_predicate(node: &AstNode, predicate: &Vec<char>) -> (r: bool)
    ensures
        r == predicate_holds(*node, predicate@),
{
    let t = trim_chars(predicate);
    let eq = find_from(&t, '=', 0);
    if eq < t.len() {
        let path_text = slice_chars(&t, 0, eq);
        let pieces = split(&path_text, '.');
        let path = to_strings(&pieces);
        let expected = string_of(&t, eq + 1, t.len());
        node_has_property(node, &path, 0, expected.as_str())
    } else {
        true
    }
}

/// Whether `node` matches the query `match_pattern`. A query that is not
/// well formed matches no node.
#[verifier::loop_isolation(false)]
pub fn check_node_match(node: &AstNode, match_pattern: &str) -> (r: bool)
    ensures
        r == query_matches(*node, match_pattern@),
{
    let query = chars_of(match_pattern);
    let n = query.len();
    let open = find_from(&query, '(', 0);
    let kind = string_of(&query, 0, open);
    if open >= n {
        assert(query_predicates(query@) =~= Seq::<Seq<char>>::empty());
        return node.is_kind(kind.as_str());
    }
    let end = rfind_end(&query, ')');
    let close = if end == 0 {
        n
    } else {
        end - 1
    };
    if close <= open {
        return false;
    }
    if !node.is_kind(kind.as_str()) {
        return false;
    }
    let props = slice_chars(&query, open + 1, close);
    let predicates = split(&props, ',');
    let ghost texts = query_predicates(query@);
    assert(texts == pieces_view(predicates@));
    let mut k: usize = 0;
    while k < predicates.len()
        invariant
            k <= predicates@.len(),
            texts == pieces_view(predicates@),
            forall|j: int| 0 <= j < k ==> predicate_holds(*node, #[trigger] texts[j]),
        decreases predicates@.len() - k,
    {
        assert(texts[k as int] == predicates@[k as int]@);
        if !check_predicate(node, &predicates[k]) {
            return false;
        }
        k += 1;
    }
    true
}

/// The findings of the first `k` rules of `rules` at `node`: one for each
/// rule whose query matches the node, in catalog order.
pub open spec fn node_findings(
    rules: Seq<Rule>,
    node: AstNode,
    file_path: Seq<char>,
    lines: Seq<Seq<char>>,
    k: int,
) -> Seq<IssueView>
    decreases k,
{
    if k <= 0 {
        Seq::empty()
    } else {
        let before = node_findings(rules, node, file_path, lines, k - 1);
        match rules[k - 1].ast_match {
            Some(query) => if query_matches(node, query@) {
                before.push(node_finding(rules[k - 1], node, file_path, lines))
            } else {
                before
            },
            None => before,
        }
    }
}

/// The findings at the first `n` nodes of `nodes`, node by node.
pub open spec fn tree_findings(
    rules: Seq<Rule>,
    nodes: Seq<AstNode>,
    file_path: Seq<char>,
    lines: Seq<Seq<char>>,
    n: int,
) -> Seq<IssueView>
    decreases n,
{
    if n <= 0 {
        Seq::empty()
    } else {
        tree_findings(rules, nodes, file_path, lines, n - 1) + node_findings(
            rules,
            nodes[n - 1],
            file_path,
            lines,
            rules.len() as int,
        )
    }
}

/// Checks each node of `nodes` against the rules of the catalog that have a
/// query, and appends the findings to `issues`.
pub fn walk_ast(
    nodes: &Vec<&AstNode>,
    file_path: &str,
    lines: &Vec<String>,
    ruleset: &RuleSet,
    issues: &mut Vec<Issue>,
)
    ensures
        issue_views(final(issues)@) == issue_views(old(issues)@) + tree_findings(
            ruleset.rules@,
            nodes_view(nodes@),
            file_path@,
            strings_view(lines@),
            nodes@.len() as int,
        ),
{
    let ghost start = issue_views(issues@);
    let ghost texts = strings_view(lines@);
    let ghost all = nodes_view(nodes@);
    assert(issue_views(issues@) =~= start + Seq::<IssueView>::empty());
    let mut n: usize = 0;
    while n < nodes.len()
        invariant
            n <= nodes@.len(),
            all == nodes_view(nodes@),
            texts == strings_view(lines@),
            issue_views(issues@) == start + tree_findings(
                ruleset.rules@,
                all,
                file_path@,
                texts,
                n as int,
            ),
        decreases nodes@.len() - n,
    {
        let node = nodes[n];
        assert(all[n as int] == *node);
        let ghost before = issue_views(issues@);
        assert(issue_views(issues@) =~= before + Seq::<IssueView>::empty());
        let mut k: usize = 0;
        while k < ruleset.rules.len()
            invariant
                k <= ruleset.rules@.len(),
                texts == strings_view(lines@),
                issue_views(issues@) == before + node_findings(
                    ruleset.rules@,
                    *node,
                    file_path@,
                    texts,
                    k as int,
                ),
            decreases ruleset.rules@.len() - k,
        {
            let rule = &ruleset.rules[k];
            let ghost so_far = issue_views(issues@);
            match &rule.ast_match {
                Some(query) => {
                    if check_node_match(node, query.as_str()) {
                        let issue = issue_for_node(rule, node, file_path, lines);
                        issues.push(issue);
                        assert(issue_views(issues@) =~= so_far.push(issue@));
                    }
                },
                None => {},
            }
            k += 1;
        }
        n += 1;
    }
}

/// The findings of the query rules of the catalog in the tree `ast` of the
/// file `file_path`: at each node of the tree in pre-order, one finding for
/// each rule whose query matches the node.
pub fn scan_ast(ast: &AstNode, file_path: &str, content: &str, ruleset: &RuleSet) -> (issues: Vec<
    Issue,
>)
    ensures
        issue_views(issues@) == tree_findings(
            ruleset.rules@,
            preorder(*ast),
            file_path@,
            lines_of(content@),
            preorder(*ast).len() as int,
        ),
{
    let mut issues: Vec<Issue> = Vec::new();
    assert(issue_views(issues@) =~= Seq::<IssueView>::empty());
    let nodes = preorder_nodes(ast);
    let lines = split_lines(content);
    walk_ast(&nodes, file_path, &lines, ruleset, &mut issues);
    assert(nodes_view(nodes@).len() == nodes@.len());
    issues
}

} // verus!
