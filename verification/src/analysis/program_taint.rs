//! Taint tracking over the whole project, without regard to the order of
//! statements.
//!
//! A variable is tainted in a function if some assignment in the function
//! assigns it the result of a call that matches a source. A finding is
//! reported where a call in the function matches a sink and hands it a
//! tainted variable. A call name matches the call name of a rule if one of
//! the two contains the other and neither is empty.

use crate::analysis::reporting::node_finding;
use crate::analysis::taint_analysis::report_issue;
use crate::ast_parser::{
    children_of, find_assignments, find_call_sites, first_child_of, nodes_view, nodes_with_kind,
    AstNode,
};
use crate::call_names::{call_name_of, get_full_call_name, get_name_from_node, name_of};
use crate::graph::call_graph_builder::{entries_view, text_of, texts_view, CallGraph, Declaration};
use crate::issues::{issue_views, Issue, IssueView};
use crate::rules::{rule_index, RuleSet, TaintSinkRule, TaintSourceRule};
use crate::text::{chars_of, contains, has_infix, lines_of, split_lines, strings_view};
use vstd::prelude::*;
use vstd::string::*;

verus! {

/// Whether one of two names contains the other. A call without a name has
/// the empty name, which overlaps with no name.
pub open spec fn names_overlap(a: Seq<char>, b: Seq<char>) -> bool {
    a.len() > 0 && b.len() > 0 && (has_infix(a, b) || has_infix(b, a))
}

/// Whether `call_name` matches the call name of one of the source rules.
pub open spec fn overlaps_source(sources: Seq<TaintSourceRule>, call_name: Seq<char>) -> bool {
    exists|k: int|
        0 <= k < sources.len() && names_overlap(call_name, (#[trigger] sources[k]).function_call@)
}

/// Whether the value of the assignment `assign` is a call that matches a
/// source.
pub open spec fn assigns_from_source(assign: AstNode, sources: Seq<TaintSourceRule>) -> bool {
    match first_child_of(assign, "value"@) {
        Some(value) => value.node_type@ == "Call"@ && overlaps_source(
            sources,
            call_name_of(value),
        ),
        None => false,
    }
}

/// Whether `name` is one of the targets of the assignment `assign`.
pub open spec fn is_target(assign: AstNode, name: Seq<char>) -> bool {
    match children_of(assign, "targets"@) {
        Some(targets) => exists|t: int|
            0 <= t < targets.len() && name_of(#[trigger] targets[t]) == Some(name),
        None => false,
    }
}

/// Whether one of the first `n` assignments of `assigns` taints `name`.
pub open spec fn seeded_upto(
    assigns: Seq<AstNode>,
    sources: Seq<TaintSourceRule>,
    name: Seq<char>,
    n: int,
) -> bool {
    exists|a: int|
        0 <= a < n && assigns_from_source(#[trigger] assigns[a], sources) && is_target(
            assigns[a],
            name,
        )
}

/// Whether `name` is tainted in the function `func`: some assignment in its
/// tree assigns it the result of a call that matches a source.
pub open spec fn seeded(func: AstNode, sources: Seq<TaintSourceRule>, name: Seq<char>) -> bool {
    let assigns = nodes_with_kind(func, seq!["Assign"@]);
    seeded_upto(assigns, sources, name, assigns.len() as int)
}

/// Whether the sink rule `sink` fires at the call node `call` of the
/// function `func`: the call matches the sink, and the argument at the
/// vulnerable position is a name that is tainted in the function.
pub open spec fn program_sink_fires(
    call: AstNode,
    sink: TaintSinkRule,
    func: AstNode,
    sources: Seq<TaintSourceRule>,
) -> bool {
    &&& names_overlap(call_name_of(call), sink.function_call@)
    &&& children_of(call, "args"@) matches Some(args)
    &&& sink.vulnerable_parameter_index < args.len()
    &&& name_of(args[sink.vulnerable_parameter_index as int]) matches Some(arg)
    &&& seeded(func, sources, arg)
}

/// The findings of the first `k` sink rules at the call node `call` of the
/// function `func`, in catalog order.
pub open spec fn call_findings(
    ruleset: &RuleSet,
    file_path: Seq<char>,
    lines: Seq<Seq<char>>,
    call: AstNode,
    func: AstNode,
    k: int,
) -> Seq<IssueView>
    decreases k,
{
    if k <= 0 {
        Seq::empty()
    } else {
        let before = call_findings(ruleset, file_path, lines, call, func, k - 1);
        let sink = ruleset.taint_sinks@[k - 1];
        if program_sink_fires(call, sink, func, ruleset.taint_sources@) {
            match rule_index(ruleset.rules@, sink.vulnerability_id@, 0) {
                Some(r) => before.push(node_finding(ruleset.rules@[r], call, file_path, lines)),
                None => before,
            }
        } else {
            before
        }
    }
}

/// The findings at the first `n` call nodes `calls` of the function `func`.
pub open spec fn function_findings(
    ruleset: &RuleSet,
    file_path: Seq<char>,
    lines: Seq<Seq<char>>,
    func: AstNode,
    calls: Seq<AstNode>,
    n: int,
) -> Seq<IssueView>
    decreases n,
{
    if n <= 0 {
        Seq::empty()
    } else {
        function_findings(ruleset, file_path, lines, func, calls, n - 1) + call_findings(
            ruleset,
            file_path,
            lines,
            calls[n - 1],
            func,
            ruleset.taint_sinks@.len() as int,
        )
    }
}

/// The findings in one function of the call graph: at the call nodes of its
/// tree in pre-order, with the lines of its file.
pub open spec fn declaration_findings(
    ruleset: &RuleSet,
    contents: Seq<(Seq<char>, Seq<char>)>,
    d: Declaration,
) -> Seq<IssueView> {
    let calls = nodes_with_kind(d.node, seq!["Call"@]);
    function_findings(
        ruleset,
        d.file_path,
        lines_of(text_of(contents, d.file_path)),
        d.node,
        calls,
        calls.len() as int,
    )
}

/// The findings in the first `m` functions of `table`, function by
/// function.
pub open spec fn program_findings(
    ruleset: &RuleSet,
    table: Seq<Declaration>,
    contents: Seq<(Seq<char>, Seq<char>)>,
    m: int,
) -> Seq<IssueView>
    decreases m,
{
    if m <= 0 {
        Seq::empty()
    } else {
        program_findings(ruleset, table, contents, m - 1) + declaration_findings(
            ruleset,
            contents,
            table[m - 1],
        )
    }
}

/// Whether `name` is one of the names `list`.
pub open spec fn listed(list: Seq<&String>, name: Seq<char>) -> bool {
    exists|k: int| 0 <= k < list.len() && (#[trigger] list[k])@ == name
}

fn is_listed(list: &Vec<&String>, name: &str) -> (r: bool)
    ensures
        r == listed(list@, name@),
{
    let mut k: usize = 0;
    while k < list.len()
        invariant
            k <= list@.len(),
            forall|j: int| 0 <= j < k ==> (#[trigger] list@[j])@ != name@,
        decreases list@.len() - k,
    {
        if list[k].as_str().eq(name) {
            return true;
        }
        k += 1;
    }
    false
}

/// Whether one of two names contains the other.
pub fn overlap(a: &str, b: &str) -> (r: bool)
    ensures
        r == names_overlap(a@, b@),
{
    let x = chars_of(a);
    let y = chars_of(b);
    x.len() > 0 && y.len() > 0 && (contains(&x, &y) || contains(&y, &x))
}

fn matches_source(sources: &Vec<TaintSourceRule>, call_name: &str) -> (r: bool)
    ensures
        r == overlaps_source(sources@, call_name@),
{
    let mut k: usize = 0;
    while k < sources.len()
        invariant
            k <= sources@.len(),
            forall|j: int|
                0 <= j < k ==> !names_overlap(call_name@, (#[trigger] sources@[j]).function_call@),
        decreases sources@.len() - k,
    {
        if overlap(call_name, sources[k].function_call.as_str()) {
            return true;
        }
        k += 1;
    }
    false
}

fn from_source(assign: &AstNode, sources: &Vec<TaintSourceRule>) -> (r: bool)
    ensures
        r == assigns_from_source(*assign, sources@),
{
    match assign.first_child("value") {
        Some(value) => {
            if value.is_kind("Call") {
                let call_name = get_full_call_name(value);
                matches_source(sources, call_name.as_str())
            } else {
                false
            }
        },
        None => false,
    }
}

/// Whether one of the first `t` nodes of `targets` refers to `name`.
pub open spec fn names_upto(targets: Seq<AstNode>, name: Seq<char>, t: int) -> bool {
    exists|u: int| 0 <= u < t && name_of(#[trigger] targets[u]) == Some(name)
}

fn push_listed<'a>(list: &mut Vec<&'a String>, name: &'a String)
    ensures
        forall|x: Seq<char>| listed(final(list)@, x) <==> (listed(old(list)@, x) || x == name@),
{
    list.push(name);
    assert forall|x: Seq<char>| listed(list@, x) <==> (listed(old(list)@, x) || x == name@) by {
        if listed(list@, x) {
            let k = choose|k: int| 0 <= k < list@.len() && (#[trigger] list@[k])@ == x;
            if k < old(list)@.len() {
                assert(old(list)@[k]@ == x);
            }
        }
        if listed(old(list)@, x) {
            let k = choose|k: int| 0 <= k < old(list)@.len() && (#[trigger] old(list)@[k])@ == x;
            assert(list@[k]@ == x);
        }
        if x == name@ {
            assert(list@[old(list)@.len() as int]@ == x);
        }
    }
}

/// Adds the names that the targets of `assign` refer to to `seeds`.
fn push_targets<'a>(assign: &'a AstNode, seeds: &mut Vec<&'a String>)
    ensures
        forall|x: Seq<char>|
            listed(final(seeds)@, x) <==> (listed(old(seeds)@, x) || is_target(*assign, x)),
{
    match assign.child_list("targets") {
        Some(targets) => {
            let mut t: usize = 0;
            while t < targets.len()
                invariant
                    t <= targets@.len(),
                    forall|x: Seq<char>|
                        listed(seeds@, x) <==> (listed(old(seeds)@, x) || names_upto(
                            targets@,
                            x,
                            t as int,
                        )),
                decreases targets@.len() - t,
            {
                let ghost so_far = seeds@;
                match get_name_from_node(&targets[t]) {
                    Some(name) => {
                        push_listed(seeds, name);
                    },
                    None => {},
                }
                proof {
                    assert forall|x: Seq<char>|
                        listed(seeds@, x) <==> (listed(old(seeds)@, x) || names_upto(
                            targets@,
                            x,
                            t + 1,
                        )) by {
                        let here = name_of(targets@[t as int]) == Some(x);
                        assert(listed(seeds@, x) <==> (listed(so_far, x) || here));
                        if names_upto(targets@, x, t + 1) {
                            let u = choose|u: int|
                                0 <= u < t + 1 && name_of(#[trigger] targets@[u]) == Some(x);
                            if u < t {
                                assert(names_upto(targets@, x, t as int));
                            }
                        }
                        if names_upto(targets@, x, t as int) {
                            let u = choose|u: int|
                                0 <= u < t && name_of(#[trigger] targets@[u]) == Some(x);
                            assert(0 <= u < t + 1);
                        }
                    }
                }
                t += 1;
            }
            assert forall|x: Seq<char>|
                is_target(*assign, x) == names_upto(targets@, x, targets@.len() as int) by {}
        },
        None => {},
    }
}

/// The names that are tainted in the function `func`.
pub fn collect_seeds<'a>(func: &'a AstNode, sources: &Vec<TaintSourceRule>) -> (r: Vec<&'a String>)
    ensures
        forall|name: Seq<char>| listed(r@, name) <==> seeded(*func, sources@, name),
{
    let assigns = find_assignments(func);
    let ghost nodes = nodes_view(assigns@);
    let mut seeds: Vec<&'a String> = Vec::new();
    let mut a: usize = 0;
    while a < assigns.len()
        invariant
            a <= assigns@.len(),
            nodes == nodes_view(assigns@),
            forall|name: Seq<char>|
                listed(seeds@, name) <==> seeded_upto(nodes, sources@, name, a as int),
        decreases assigns@.len() - a,
    {
        let assign = assigns[a];
        assert(nodes[a as int] == *assign);
        let ghost before = seeds@;
        let tainting = from_source(assign, sources);
        if tainting {
            push_targets(assign, &mut seeds);
        }
        proof {
            assert forall|name: Seq<char>|
                listed(seeds@, name) <==> seeded_upto(nodes, sources@, name, a + 1) by {
                let here = assigns_from_source(*assign, sources@) && is_target(*assign, name);
                assert(listed(seeds@, name) <==> (listed(before, name) || here));
                assert(listed(before, name) <==> seeded_upto(nodes, sources@, name, a as int));
                if seeded_upto(nodes, sources@, name, a + 1) {
                    let w = choose|w: int|
                        0 <= w < a + 1 && assigns_from_source(#[trigger] nodes[w], sources@)
                            && is_target(nodes[w], name);
                    if w < a {
                        assert(seeded_upto(nodes, sources@, name, a as int));
                    }
                }
                if seeded_upto(nodes, sources@, name, a as int) {
                    let w = choose|w: int|
                        0 <= w < a && assigns_from_source(#[trigger] nodes[w], sources@)
                            && is_target(nodes[w], name);
                    assert(0 <= w < a + 1);
                }
                if here {
                    assert(assigns_from_source(nodes[a as int], sources@) && is_target(
                        nodes[a as int],
                        name,
                    ));
                }
            }
        }
        a += 1;
    }
    assert(nodes.len() == assigns@.len());
    seeds
}

/// Reports the findings of the sink rules at the call node `call`, given
/// the names `seeds` that are tainted in its function `func`.
#[verifier::loop_isolation(false)]
fn check_call(
    call: &AstNode,
    func: &AstNode,
    seeds: &Vec<&String>,
    ruleset: &RuleSet,
    file_path: &str,
    lines: &Vec<String>,
    issues: &mut Vec<Issue>,
)
    requires
        forall|name: Seq<char>|
            listed(seeds@, name) <==> seeded(*func, ruleset.taint_sources@, name),
    ensures
        issue_views(final(issues)@) == issue_views(old(issues)@) + call_findings(
            ruleset,
            file_path@,
            strings_view(lines@),
            *call,
            *func,
            ruleset.taint_sinks@.len() as int,
        ),
{
    let ghost start = issue_views(issues@);
    let ghost texts = strings_view(lines@);
    let callee = get_full_call_name(call);
    assert(issue_views(issues@) =~= start + Seq::<IssueView>::empty());
    let mut k: usize = 0;
    while k < ruleset.taint_sinks.len()
        invariant
            k <= ruleset.taint_sinks@.len(),
            issue_views(issues@) == start + call_findings(
                ruleset,
                file_path@,
                texts,
                *call,
                *func,
                k as int,
            ),
        decreases ruleset.taint_sinks@.len() - k,
    {
        let sink = &ruleset.taint_sinks[k];
        let fires = overlap(callee.as_str(), sink.function_call.as_str()) && match call.child_list(
            "args",
        ) {
            Some(args) => {
                sink.vulnerable_parameter_index < args.len() && match get_name_from_node(
                    &args[sink.vulnerable_parameter_index],
                ) {
                    Some(arg) => is_listed(seeds, arg.as_str()),
                    None => false,
                }
            },
            None => false,
        };
        assert(fires == program_sink_fires(*call, *sink, *func, ruleset.taint_sources@));
        if fires {
            report_issue(ruleset, sink.vulnerability_id.as_str(), file_path, call, lines, issues);
        }
        assert(issue_views(issues@) =~= start + call_findings(
            ruleset,
            file_path@,
            texts,
            *call,
            *func,
            k + 1,
        ));
        k += 1;
    }
}

/// The findings of the project-wide taint tracking: function by function in
/// the order of the call graph, and within a function call node by call
/// node.
pub fn analyze_program_for_taint(call_graph: &CallGraph, ruleset: &RuleSet) -> (issues: Vec<Issue>)
    ensures
        issue_views(issues@) == program_findings(
            ruleset,
            entries_view(call_graph.functions@),
            texts_view(call_graph.file_contents@),
            call_graph.functions@.len() as int,
        ),
{
    let ghost table = entries_view(call_graph.functions@);
    let ghost contents = texts_view(call_graph.file_contents@);
    let mut issues: Vec<Issue> = Vec::new();
    assert(issue_views(issues@) =~= Seq::<IssueView>::empty());
    let mut m: usize = 0;
    while m < call_graph.functions.len()
        invariant
            m <= call_graph.functions@.len(),
            table == entries_view(call_graph.functions@),
            contents == texts_view(call_graph.file_contents@),
            issue_views(issues@) == program_findings(ruleset, table, contents, m as int),
        decreases call_graph.functions@.len() - m,
    {
        let entry = &call_graph.functions[m];
        assert(table[m as int] == entry@);
        let content = call_graph.content_of(entry.file_path.as_str());
        let lines = split_lines(content);
        let seeds = collect_seeds(entry.node, &ruleset.taint_sources);
        let calls = find_call_sites(entry.node);
        let ghost nodes = nodes_view(calls@);
        let ghost before = issue_views(issues@);
        assert(issue_views(issues@) =~= before + Seq::<IssueView>::empty());
        let mut n: usize = 0;
        while n < calls.len()
            invariant
                n <= calls@.len(),
                nodes == nodes_view(calls@),
                forall|name: Seq<char>|
                    listed(seeds@, name) <==> seeded(*entry.node, ruleset.taint_sources@, name),
                issue_views(issues@) == before + function_findings(
                    ruleset,
                    entry.file_path@,
                    strings_view(lines@),
                    *entry.node,
                    nodes,
                    n as int,
                ),
            decreases calls@.len() - n,
        {
            assert(nodes[n as int] == *calls@[n as int]);
            check_call(
                calls[n],
                entry.node,
                &seeds,
                ruleset,
                entry.file_path.as_str(),
                &lines,
                &mut issues,
            );
            n += 1;
        }
        assert(nodes.len() == calls@.len());
        m += 1;
    }
    issues
}

} // verus!
