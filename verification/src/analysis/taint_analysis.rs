//! Taint tracking within one function: a forward data flow over the
//! control-flow graph of the function.
//!
//! Every block has a set of tainted variable names at its end. The set at
//! the start of a block is the union of the sets at the end of its
//! predecessors, and the statements of the block add to it: an assignment
//! from a source call taints its target, and so does an assignment of a
//! joined string that interpolates a tainted name. The sets only grow, so
//! sweeping over the blocks until nothing changes reaches the least
//! fixpoint. A finding is reported where a tainted name is handed to a sink.
//!
//! Every tainted name carries a tag, the id of the source rule that tainted
//! it. Tags do not decide what is reported or when the sweeps end: two
//! states with the same names count as the same state.

use crate::analysis::reporting::{issue_for_node, node_finding};
use crate::ast_parser::{children_of, first_child_of, nodes_view, AstNode};
use crate::call_names::{
    call_matches, call_name_of, get_full_call_name, get_name_from_node, name_of, same_call,
};
use crate::graph::representation::{BlockId, CfgModel, ControlFlowGraph};
use crate::issues::{issue_views, Issue, IssueView};
use crate::rules::{rule_index, Rule, RuleSet, TaintSinkRule, TaintSourceRule};
use crate::text::{lines_of, split_lines, strings_view};
use std::collections::{HashMap, HashSet};
use vstd::prelude::*;
use vstd::seq_lib::seq_to_set_is_finite;
use vstd::set_lib::{lemma_len_subset, lemma_set_subset_finite};
use vstd::std_specs::iter::IteratorSpec;
use vstd::string::*;

verus! {

/// A set of variable names.
pub type Names = Set<Seq<char>>;

/// Whether `call_name` is the call name of one of the source rules.
pub open spec fn source_matches(sources: Seq<TaintSourceRule>, call_name: Seq<char>) -> bool {
    exists|k: int|
        0 <= k < sources.len() && call_matches(call_name, (#[trigger] sources[k]).function_call@)
}

/// The name that one part of a joined string interpolates: the name that
/// the first child under `value` refers to.
pub open spec fn interpolated_name(part: AstNode) -> Option<Seq<char>> {
    match first_child_of(part, "value"@) {
        Some(inner) => name_of(inner),
        None => None,
    }
}

/// Whether one part of a joined string interpolates a name of `tainted`.
pub open spec fn interpolates_tainted(part: AstNode, tainted: Names) -> bool {
    match interpolated_name(part) {
        Some(name) => tainted.contains(name),
        None => false,
    }
}

/// Whether the joined string `joined` interpolates a name of `tainted`.
pub open spec fn joined_tainted(joined: AstNode, tainted: Names) -> bool {
    match children_of(joined, "values"@) {
        Some(values) => exists|j: int|
            0 <= j < values.len() && interpolates_tainted(#[trigger] values[j], tainted),
        None => false,
    }
}

/// The name that `stmt` assigns to, if it is an assignment whose first
/// target is a name reference and that has a value.
pub open spec fn assigned_name(stmt: AstNode) -> Option<Seq<char>> {
    if stmt.node_type@ == "Assign"@ && first_child_of(stmt, "value"@) is Some {
        match first_child_of(stmt, "targets"@) {
            Some(target) => name_of(target),
            None => None,
        }
    } else {
        None
    }
}

/// Whether the value `value` of an assignment is tainted when the names
/// `tainted` are: it is a call of a source, or a joined string that
/// interpolates a tainted name.
pub open spec fn value_tainted(
    value: AstNode,
    sources: Seq<TaintSourceRule>,
    tainted: Names,
) -> bool {
    ||| (value.node_type@ == "Call"@ && source_matches(sources, call_name_of(value)))
    ||| (value.node_type@ == "JoinedStr"@ && joined_tainted(value, tainted))
}

/// The name that `stmt` taints when the names `tainted` are tainted before
/// it, if it taints one.
pub open spec fn tainted_target(
    stmt: AstNode,
    sources: Seq<TaintSourceRule>,
    tainted: Names,
) -> Option<Seq<char>> {
    match assigned_name(stmt) {
        Some(name) => if value_tainted(first_child_of(stmt, "value"@)->0, sources, tainted) {
            Some(name)
        } else {
            None
        },
        None => None,
    }
}

/// The tainted names after `stmt`.
pub open spec fn transfer_statement(
    stmt: AstNode,
    sources: Seq<TaintSourceRule>,
    tainted: Names,
) -> Names {
    match tainted_target(stmt, sources, tainted) {
        Some(name) => tainted.insert(name),
        None => tainted,
    }
}

/// The tainted names after the first `n` statements of `stmts`, when the
/// names `tainted` are tainted before the first.
pub open spec fn transfer_upto(
    stmts: Seq<AstNode>,
    sources: Seq<TaintSourceRule>,
    tainted: Names,
    n: int,
) -> Names
    decreases n,
{
    if n <= 0 {
        tainted
    } else {
        transfer_statement(stmts[n - 1], sources, transfer_upto(stmts, sources, tainted, n - 1))
    }
}

/// The tainted names at the end of a block with the statements `stmts`.
pub open spec fn transfer_block(
    stmts: Seq<AstNode>,
    sources: Seq<TaintSourceRule>,
    tainted: Names,
) -> Names {
    transfer_upto(stmts, sources, tainted, stmts.len() as int)
}

/// The union of the sets of `outs` at the first `k` blocks of `preds`.
pub open spec fn join_upto(outs: Seq<Names>, preds: Seq<BlockId>, k: int) -> Names
    decreases k,
{
    if k <= 0 {
        Set::empty()
    } else {
        join_upto(outs, preds, k - 1).union(outs[preds[k - 1] as int])
    }
}

/// The statements of block `b` of `cfg`.
pub open spec fn block_statements(cfg: CfgModel, b: int) -> Seq<AstNode> {
    cfg.blocks[b]
}

/// The tainted names at the start of block `b`: the union over its
/// predecessors of the names at their end.
pub open spec fn block_in(cfg: CfgModel, outs: Seq<Names>, b: int) -> Names {
    Set::new(
        |name: Seq<char>|
            exists|a: int|
                0 <= a < cfg.blocks.len() && cfg.edges.dom().contains((a, b)) && (
                #[trigger] outs[a]).contains(name),
    )
}

/// The tainted names at the end of block `b`, computed from the names at
/// the end of its predecessors.
pub open spec fn block_out(
    cfg: CfgModel,
    sources: Seq<TaintSourceRule>,
    outs: Seq<Names>,
    b: int,
) -> Names {
    transfer_block(block_statements(cfg, b), sources, block_in(cfg, outs, b))
}

/// Whether `a` is below `b`: block by block, every name of `a` is a name of
/// `b`.
pub open spec fn below(a: Seq<Names>, b: Seq<Names>) -> bool {
    &&& a.len() == b.len()
    &&& forall|i: int| 0 <= i < a.len() ==> (#[trigger] a[i]).subset_of(b[i])
}

/// Whether `outs` is a fixpoint of the data flow: at every block the names
/// at its end are those that its statements make of the names at its start.
pub open spec fn is_fixpoint(
    cfg: CfgModel,
    sources: Seq<TaintSourceRule>,
    outs: Seq<Names>,
) -> bool {
    &&& outs.len() == cfg.blocks.len()
    &&& forall|b: int|
        0 <= b < outs.len() ==> #[trigger] outs[b] == block_out(cfg, sources, outs, b)
}

/// Whether `outs` is the least fixpoint of the data flow: a fixpoint that
/// is below every fixpoint.
pub open spec fn is_least_fixpoint(
    cfg: CfgModel,
    sources: Seq<TaintSourceRule>,
    outs: Seq<Names>,
) -> bool {
    &&& is_fixpoint(cfg, sources, outs)
    &&& forall|other: Seq<Names>| #[trigger] is_fixpoint(cfg, sources, other) ==> below(outs, other)
}

/// The least fixpoint of the data flow of `cfg`.
pub open spec fn least_fixpoint(cfg: CfgModel, sources: Seq<TaintSourceRule>) -> Seq<
    Names,
> {
    choose|outs: Seq<Names>| is_least_fixpoint(cfg, sources, outs)
}

/// There is at most one least fixpoint.
pub proof fn lemma_least_fixpoint_unique(
    cfg: CfgModel,
    sources: Seq<TaintSourceRule>,
    a: Seq<Names>,
    b: Seq<Names>,
)
    requires
        is_least_fixpoint(cfg, sources, a),
        is_least_fixpoint(cfg, sources, b),
    ensures
        a == b,
{
    assert(below(a, b));
    assert(below(b, a));
    assert forall|i: int| 0 <= i < a.len() implies a[i] == b[i] by {
        assert(a[i].subset_of(b[i]));
        assert(b[i].subset_of(a[i]));
        assert(a[i] =~= b[i]);
    }
    assert(a =~= b);
}

/// Whether the sink rule `sink` fires at `stmt` when the names `tainted`
/// are tainted: the statement is an expression statement that wraps a call
/// of the sink, and the argument at the vulnerable position is a tainted
/// name.
pub open spec fn sink_fires(stmt: AstNode, sink: TaintSinkRule, tainted: Names) -> bool {
    &&& stmt.node_type@ == "Expr"@
    &&& first_child_of(stmt, "value"@) matches Some(call)
    &&& call.node_type@ == "Call"@
    &&& call_matches(call_name_of(call), sink.function_call@)
    &&& children_of(call, "args"@) matches Some(args)
    &&& sink.vulnerable_parameter_index < args.len()
    &&& name_of(args[sink.vulnerable_parameter_index as int]) matches Some(arg)
    &&& tainted.contains(arg)
}

/// The finding that is reported when `sink` fires at `stmt`: the finding of
/// the rule that the sink names, at the statement. A sink that names no
/// rule of the catalog reports nothing.
pub open spec fn sink_finding(
    rules: Seq<Rule>,
    sink: TaintSinkRule,
    stmt: AstNode,
    file_path: Seq<char>,
    lines: Seq<Seq<char>>,
) -> Option<IssueView> {
    match rule_index(rules, sink.vulnerability_id@, 0) {
        Some(r) => Some(node_finding(rules[r], stmt, file_path, lines)),
        None => None,
    }
}

/// Whether `issue` is reported at `stmt` when the names `tainted` are
/// tainted.
pub open spec fn reported_at(
    ruleset: &RuleSet,
    file_path: Seq<char>,
    lines: Seq<Seq<char>>,
    stmt: AstNode,
    tainted: Names,
    issue: IssueView,
) -> bool {
    exists|s: int|
        0 <= s < ruleset.taint_sinks@.len() && sink_fires(
            stmt,
            #[trigger] ruleset.taint_sinks@[s],
            tainted,
        ) && sink_finding(ruleset.rules@, ruleset.taint_sinks@[s], stmt, file_path, lines)
            == Some(issue)
}

/// Whether `issue` is reported in a block with the statements `stmts` when
/// the names `tainted` are tainted at its start.
pub open spec fn reported_in_block(
    ruleset: &RuleSet,
    file_path: Seq<char>,
    lines: Seq<Seq<char>>,
    stmts: Seq<AstNode>,
    tainted: Names,
    issue: IssueView,
) -> bool {
    exists|i: int|
        0 <= i < stmts.len() && reported_at(
            ruleset,
            file_path,
            lines,
            #[trigger] stmts[i],
            transfer_upto(stmts, ruleset.taint_sources@, tainted, i),
            issue,
        )
}

/// Whether `issue` is reported in `cfg` when `outs` holds the tainted names
/// at the end of each block.
pub open spec fn reported(
    cfg: CfgModel,
    ruleset: &RuleSet,
    file_path: Seq<char>,
    lines: Seq<Seq<char>>,
    outs: Seq<Names>,
    issue: IssueView,
) -> bool {
    exists|b: int|
        0 <= b < cfg.blocks.len() && reported_in_block(
            ruleset,
            file_path,
            lines,
            #[trigger] block_statements(cfg, b),
            block_in(cfg, outs, b),
            issue,
        )
}

/// A statement taints more when more is tainted before it.
proof fn lemma_statement_monotone(
    stmt: AstNode,
    sources: Seq<TaintSourceRule>,
    small: Names,
    large: Names,
)
    requires
        small.subset_of(large),
    ensures
        transfer_statement(stmt, sources, small).subset_of(
            transfer_statement(stmt, sources, large),
        ),
{
    if tainted_target(stmt, sources, small) is Some {
        let value = first_child_of(stmt, "value"@)->0;
        if value.node_type@ == "JoinedStr"@ && joined_tainted(value, small) {
            let values = children_of(value, "values"@)->0;
            let j = choose|j: int|
                0 <= j < values.len() && interpolates_tainted(#[trigger] values[j], small);
            assert(interpolates_tainted(values[j], large));
            assert(joined_tainted(value, large));
        }
        assert(tainted_target(stmt, sources, large) == tainted_target(stmt, sources, small));
    }
}

/// A run of statements removes no taint and taints more when more is
/// tainted before it.
proof fn lemma_upto_monotone(
    stmts: Seq<AstNode>,
    sources: Seq<TaintSourceRule>,
    small: Names,
    large: Names,
    n: int,
)
    requires
        small.subset_of(large),
    ensures
        small.subset_of(transfer_upto(stmts, sources, small, n)),
        transfer_upto(stmts, sources, small, n).subset_of(transfer_upto(stmts, sources, large, n)),
    decreases n,
{
    if n > 0 {
        lemma_upto_monotone(stmts, sources, small, large, n - 1);
        lemma_statement_monotone(
            stmts[n - 1],
            sources,
            transfer_upto(stmts, sources, small, n - 1),
            transfer_upto(stmts, sources, large, n - 1),
        );
    }
}

/// A set of the union over predecessors is part of it.
proof fn lemma_join_contains(outs: Seq<Names>, preds: Seq<BlockId>, k: int, j: int)
    requires
        0 <= j < k <= preds.len(),
    ensures
        outs[preds[j] as int].subset_of(join_upto(outs, preds, k)),
    decreases k,
{
    if j < k - 1 {
        lemma_join_contains(outs, preds, k - 1, j);
    }
}

/// The names at the end of a block grow with the names at the end of all
/// blocks.
proof fn lemma_block_out_monotone(
    cfg: CfgModel,
    sources: Seq<TaintSourceRule>,
    small: Seq<Names>,
    large: Seq<Names>,
    b: int,
)
    requires
        small.len() == cfg.blocks.len(),
        below(small, large),
    ensures
        block_in(cfg, small, b).subset_of(block_in(cfg, large, b)),
        block_out(cfg, sources, small, b).subset_of(block_out(cfg, sources, large, b)),
{
    assert forall|name: Seq<char>| block_in(cfg, small, b).contains(name) implies block_in(
        cfg,
        large,
        b,
    ).contains(name) by {
        let a = choose|a: int|
            0 <= a < cfg.blocks.len() && cfg.edges.dom().contains((a, b)) && (
            #[trigger] small[a]).contains(name);
        assert(small[a].subset_of(large[a]));
        assert(large[a].contains(name));
    }
    lemma_upto_monotone(
        block_statements(cfg, b),
        sources,
        block_in(cfg, small, b),
        block_in(cfg, large, b),
        block_statements(cfg, b).len() as int,
    );
}

/// What is reported at a statement stays reported when more is tainted.
proof fn lemma_reported_at_monotone(
    ruleset: &RuleSet,
    file_path: Seq<char>,
    lines: Seq<Seq<char>>,
    stmt: AstNode,
    small: Names,
    large: Names,
    issue: IssueView,
)
    requires
        small.subset_of(large),
        reported_at(ruleset, file_path, lines, stmt, small, issue),
    ensures
        reported_at(ruleset, file_path, lines, stmt, large, issue),
{
    let s = choose|s: int|
        0 <= s < ruleset.taint_sinks@.len() && sink_fires(
            stmt,
            #[trigger] ruleset.taint_sinks@[s],
            small,
        ) && sink_finding(ruleset.rules@, ruleset.taint_sinks@[s], stmt, file_path, lines)
            == Some(issue);
    assert(sink_fires(stmt, ruleset.taint_sinks@[s], large));
}

/// What is reported in a graph stays reported when more is tainted.
proof fn lemma_reported_monotone(
    cfg: CfgModel,
    ruleset: &RuleSet,
    file_path: Seq<char>,
    lines: Seq<Seq<char>>,
    small: Seq<Names>,
    large: Seq<Names>,
    issue: IssueView,
)
    requires
        small.len() == cfg.blocks.len(),
        below(small, large),
        reported(cfg, ruleset, file_path, lines, small, issue),
    ensures
        reported(cfg, ruleset, file_path, lines, large, issue),
{
    let b = choose|b: int|
        0 <= b < cfg.blocks.len() && reported_in_block(
            ruleset,
            file_path,
            lines,
            #[trigger] block_statements(cfg, b),
            block_in(cfg, small, b),
            issue,
        );
    let stmts = block_statements(cfg, b);
    let i = choose|i: int|
        0 <= i < stmts.len() && reported_at(
            ruleset,
            file_path,
            lines,
            #[trigger] stmts[i],
            transfer_upto(stmts, ruleset.taint_sources@, block_in(cfg, small, b), i),
            issue,
        );
    lemma_block_out_monotone(cfg, ruleset.taint_sources@, small, large, b);
    lemma_upto_monotone(
        stmts,
        ruleset.taint_sources@,
        block_in(cfg, small, b),
        block_in(cfg, large, b),
        i,
    );
    lemma_reported_at_monotone(
        ruleset,
        file_path,
        lines,
        stmts[i],
        transfer_upto(stmts, ruleset.taint_sources@, block_in(cfg, small, b), i),
        transfer_upto(stmts, ruleset.taint_sources@, block_in(cfg, large, b), i),
        issue,
    );
    assert(reported_in_block(
        ruleset,
        file_path,
        lines,
        block_statements(cfg, b),
        block_in(cfg, large, b),
        issue,
    ));
}

/// A taint tag: the variable that is tainted and the source rule that
/// tainted it.
#[derive(Debug, Clone, Copy)]
pub struct Taint<'a> {
    pub variable: &'a String,
    pub source_rule_id: &'a String,
}

/// The names that the tags of `state` taint.
pub open spec fn state_names(state: Seq<Taint>) -> Names {
    Set::new(
        |name: Seq<char>|
            exists|k: int| 0 <= k < state.len() && (#[trigger] state[k]).variable@ == name,
    )
}

/// Whether `outs` holds exactly the blocks with the ids below its size.
pub open spec fn is_dense(outs: Map<BlockId, Vec<Taint>>) -> bool {
    forall|k: BlockId| #[trigger] outs.contains_key(k) <==> k < outs.len()
}

/// The taint at the end of each block, block by block in the order of the
/// ids.
pub open spec fn outs_seq(outs: Map<BlockId, Vec<Taint>>) -> Seq<Vec<Taint>> {
    Seq::new(outs.len(), |b: int| outs[b as usize])
}

/// Whether the taint at the end of each block is a map.
pub open spec fn all_taint_maps(outs: Seq<Vec<Taint>>) -> bool {
    forall|b: int| 0 <= b < outs.len() ==> is_taint_map((#[trigger] outs[b])@)
}

/// The names that are tainted at the end of each block.
pub open spec fn outs_names(outs: Seq<Vec<Taint>>) -> Seq<Names> {
    Seq::new(outs.len(), |b: int| state_names(outs[b]@))
}

/// Position of the first tag at or after `i` that is a tag of `name`.
pub open spec fn taint_index(state: Seq<Taint>, name: Seq<char>, i: int) -> Option<int>
    decreases state.len() - i,
{
    if i < 0 || i >= state.len() {
        None
    } else if state[i].variable@ == name {
        Some(i)
    } else {
        taint_index(state, name, i + 1)
    }
}

/// The source rule whose tag `name` carries in `state`, if `name` is
/// tainted.
pub open spec fn tag_of(state: Seq<Taint>, name: Seq<char>) -> Option<Seq<char>> {
    match taint_index(state, name, 0) {
        Some(k) => Some(state[k].source_rule_id@),
        None => None,
    }
}

/// The tags of tainted variables as a map from the name of the variable to
/// the id of the source rule.
pub type Tags = Map<Seq<char>, Seq<char>>;

/// The map that `state` holds: every tainted name with its tag.
pub open spec fn state_tags(state: Seq<Taint>) -> Tags {
    Map::new(
        |name: Seq<char>| tag_of(state, name) is Some,
        |name: Seq<char>| tag_of(state, name)->0,
    )
}

/// The tag of `name` in `tags`, if it has one.
pub open spec fn lookup(tags: Tags, name: Seq<char>) -> Option<Seq<char>> {
    if tags.dom().contains(name) {
        Some(tags[name])
    } else {
        None
    }
}

/// The tags at the end of each block.
pub open spec fn outs_tags(outs: Seq<Vec<Taint>>) -> Seq<Tags> {
    Seq::new(outs.len(), |b: int| state_tags(outs[b]@))
}

/// Whether `state` is a map: no variable has two tags.
pub open spec fn is_taint_map(state: Seq<Taint>) -> bool {
    forall|i: int, j: int|
        0 <= i < j < state.len() ==> (#[trigger] state[i]).variable@ != (
        #[trigger] state[j]).variable@
}

proof fn lemma_taint_index(state: Seq<Taint>, name: Seq<char>, i: int)
    requires
        0 <= i,
    ensures
        match taint_index(state, name, i) {
            Some(k) => i <= k < state.len() && state[k].variable@ == name,
            None => forall|k: int| i <= k < state.len() ==> (#[trigger] state[k]).variable@ != name,
        },
    decreases state.len() - i,
{
    if i < state.len() && state[i].variable@ != name {
        lemma_taint_index(state, name, i + 1);
    }
}

/// A name is tainted exactly if it carries a tag.
proof fn lemma_tagged_names(state: Seq<Taint>, name: Seq<char>)
    ensures
        state_names(state).contains(name) <==> tag_of(state, name) is Some,
{
    lemma_taint_index(state, name, 0);
    if state_names(state).contains(name) {
        let k = choose|k: int| 0 <= k < state.len() && (#[trigger] state[k]).variable@ == name;
        assert(taint_index(state, name, 0) is Some);
    }
}

proof fn lemma_taint_index_same_variables(a: Seq<Taint>, b: Seq<Taint>, name: Seq<char>, i: int)
    requires
        0 <= i,
        a.len() == b.len(),
        forall|k: int| 0 <= k < a.len() ==> (#[trigger] a[k]).variable@ == b[k].variable@,
    ensures
        taint_index(a, name, i) == taint_index(b, name, i),
    decreases a.len() - i,
{
    if i < a.len() {
        assert(a[i].variable@ == b[i].variable@);
        if a[i].variable@ != name {
            lemma_taint_index_same_variables(a, b, name, i + 1);
        }
    }
}

proof fn lemma_taint_index_push(state: Seq<Taint>, tag: Taint, name: Seq<char>, i: int)
    requires
        0 <= i <= state.len(),
    ensures
        taint_index(state.push(tag), name, i) == match taint_index(state, name, i) {
            Some(k) => Some(k),
            None => if tag.variable@ == name {
                Some(state.len() as int)
            } else {
                None
            },
        },
    decreases state.len() - i,
{
    let longer = state.push(tag);
    if i < state.len() {
        assert(longer[i] == state[i]);
        if state[i].variable@ != name {
            lemma_taint_index_push(state, tag, name, i + 1);
        }
    } else {
        assert(longer[i] == tag);
        assert(taint_index(longer, name, i + 1) is None);
    }
}

/// The tag of a name after one more tag was appended.
proof fn lemma_tag_of_push(state: Seq<Taint>, tag: Taint, name: Seq<char>)
    ensures
        tag_of(state.push(tag), name) == match tag_of(state, name) {
            Some(t) => Some(t),
            None => if tag.variable@ == name {
                Some(tag.source_rule_id@)
            } else {
                None
            },
        },
{
    lemma_taint_index_push(state, tag, name, 0);
    lemma_taint_index(state, name, 0);
    match taint_index(state, name, 0) {
        Some(k) => {
            assert(state.push(tag)[k] == state[k]);
        },
        None => {},
    }
}

/// The position of the tag of `name` in `state`, if `name` is tainted.
pub fn find_taint(state: &Vec<Taint>, name: &str) -> (r: Option<usize>)
    ensures
        match r {
            Some(k) => k < state@.len() && state@[k as int].variable@ == name@ && taint_index(
                state@,
                name@,
                0,
            ) == Some(k as int),
            None => !state_names(state@).contains(name@) && taint_index(state@, name@, 0) is None,
        },
{
    let mut k: usize = 0;
    while k < state.len()
        invariant
            k <= state@.len(),
            forall|j: int| 0 <= j < k ==> (#[trigger] state@[j]).variable@ != name@,
            taint_index(state@, name@, 0) == taint_index(state@, name@, k as int),
        decreases state@.len() - k,
    {
        if state[k].variable.as_str().eq(name) {
            return Some(k);
        }
        k += 1;
    }
    None
}

/// Taints `variable` with the tag of `source_rule_id`; a tag that the
/// variable already has is replaced.
pub fn set_taint<'a>(state: &mut Vec<Taint<'a>>, variable: &'a String, source_rule_id: &'a String)
    ensures
        state_names(final(state)@) == state_names(old(state)@).insert(variable@),
        state_tags(final(state)@) == state_tags(old(state)@).insert(variable@, source_rule_id@),
        is_taint_map(old(state)@) ==> is_taint_map(final(state)@),
{
    let tag = Taint { variable, source_rule_id };
    let ghost before = state@;
    match find_taint(state, variable.as_str()) {
        Some(k) => {
            state.set(k, tag);
            proof {
                assert forall|name: Seq<char>|
                    #[trigger] tag_of(state@, name) == if name == variable@ {
                        Some(source_rule_id@)
                    } else {
                        tag_of(before, name)
                    } by {
                    lemma_taint_index_same_variables(state@, before, name, 0);
                    lemma_taint_index(before, name, 0);
                }
                assert forall|i: int, j: int| 0 <= i < j < state@.len() && is_taint_map(
                    before,
                ) implies (#[trigger] state@[i]).variable@ != (#[trigger] state@[j]).variable@ by {
                    assert(state@[i].variable@ == before[i].variable@);
                    assert(state@[j].variable@ == before[j].variable@);
                }
            }
        },
        None => {
            state.push(tag);
            proof {
                assert forall|name: Seq<char>|
                    #[trigger] tag_of(state@, name) == if name == variable@ {
                        Some(source_rule_id@)
                    } else {
                        tag_of(before, name)
                    } by {
                    lemma_tag_of_push(before, tag, name);
                }
                lemma_taint_index(before, variable@, 0);
                assert forall|i: int, j: int| 0 <= i < j < state@.len() && is_taint_map(
                    before,
                ) implies (#[trigger] state@[i]).variable@ != (#[trigger] state@[j]).variable@ by {
                    if j < before.len() {
                        assert(state@[i] == before[i] && state@[j] == before[j]);
                    } else {
                        assert(state@[i] == before[i]);
                    }
                }
            }
        },
    }
    proof {
        assert forall|name: Seq<char>| state_names(state@).contains(name) == state_names(
            before,
        ).insert(variable@).contains(name) by {
            lemma_tagged_names(state@, name);
            lemma_tagged_names(before, name);
            assert(tag_of(state@, name) == if name == variable@ {
                Some(source_rule_id@)
            } else {
                tag_of(before, name)
            });
        }
        assert(state_names(state@) =~= state_names(before).insert(variable@));
        assert forall|name: Seq<char>|
            lookup(state_tags(state@), name) == lookup(
                state_tags(before).insert(variable@, source_rule_id@),
                name,
            ) by {
            assert(tag_of(state@, name) == if name == variable@ {
                Some(source_rule_id@)
            } else {
                tag_of(before, name)
            });
        }
        assert(state_tags(state@) =~= state_tags(before).insert(variable@, source_rule_id@)) by {
            assert forall|name: Seq<char>|
                state_tags(state@).dom().contains(name) == state_tags(before).insert(
                    variable@,
                    source_rule_id@,
                ).dom().contains(name) by {
                assert(lookup(state_tags(state@), name) == lookup(
                    state_tags(before).insert(variable@, source_rule_id@),
                    name,
                ));
            }
            assert forall|name: Seq<char>| state_tags(state@).dom().contains(name) implies state_tags(
                state@,
            )[name] == state_tags(before).insert(variable@, source_rule_id@)[name] by {
                assert(lookup(state_tags(state@), name) == lookup(
                    state_tags(before).insert(variable@, source_rule_id@),
                    name,
                ));
            }
        }
    }
}

/// Adds the tags of `other` to `state`; a variable that is tainted in both
/// keeps the tag it has in `state`.
pub fn merge_taint<'a>(state: &mut Vec<Taint<'a>>, other: &Vec<Taint<'a>>)
    ensures
        state_names(final(state)@) == state_names(old(state)@).union(state_names(other@)),
        state_tags(final(state)@) == state_tags(other@).union_prefer_right(
            state_tags(old(state)@),
        ),
        is_taint_map(old(state)@) ==> is_taint_map(final(state)@),
{
    let ghost first = state@;
    let mut k: usize = 0;
    proof {
        assert forall|name: Seq<char>| tag_of(other@.take(0), name) is None by {}
    }
    while k < other.len()
        invariant
            k <= other@.len(),
            forall|name: Seq<char>|
                #[trigger] tag_of(state@, name) == match tag_of(first, name) {
                    Some(t) => Some(t),
                    None => tag_of(other@.take(k as int), name),
                },
            is_taint_map(first) ==> is_taint_map(state@),
        decreases other@.len() - k,
    {
        let tag = other[k];
        let ghost before = state@;
        if find_taint(state, tag.variable.as_str()).is_none() {
            set_taint(state, tag.variable, tag.source_rule_id);
        }
        proof {
            assert forall|name: Seq<char>|
                tag_of(state@, name) == lookup(state_tags(state@), name) by {}
            assert forall|name: Seq<char>|
                tag_of(before, name) == lookup(state_tags(before), name) by {}
            assert(other@.take(k + 1) =~= other@.take(k as int).push(tag));
            assert forall|name: Seq<char>|
                #[trigger] tag_of(state@, name) == match tag_of(first, name) {
                    Some(t) => Some(t),
                    None => tag_of(other@.take(k + 1), name),
                } by {
                lemma_tag_of_push(other@.take(k as int), tag, name);
                assert(tag_of(before, name) == match tag_of(first, name) {
                    Some(t) => Some(t),
                    None => tag_of(other@.take(k as int), name),
                });
                if name == tag.variable@ {
                    assert(tag_of(before, tag.variable@) == match tag_of(first, tag.variable@) {
                        Some(t) => Some(t),
                        None => tag_of(other@.take(k as int), tag.variable@),
                    });
                }
            }
        }
        k += 1;
    }
    proof {
        assert(other@.take(k as int) =~= other@);
        assert forall|name: Seq<char>| state_names(state@).contains(name) == state_names(
            first,
        ).union(state_names(other@)).contains(name) by {
            lemma_tagged_names(state@, name);
            lemma_tagged_names(first, name);
            lemma_tagged_names(other@, name);
            assert(tag_of(state@, name) == match tag_of(first, name) {
                Some(t) => Some(t),
                None => tag_of(other@, name),
            });
        }
        assert(state_names(state@) =~= state_names(first).union(state_names(other@)));
        let merged = state_tags(other@).union_prefer_right(state_tags(first));
        assert forall|name: Seq<char>|
            lookup(state_tags(state@), name) == lookup(merged, name) by {
            assert(tag_of(state@, name) == match tag_of(first, name) {
                Some(t) => Some(t),
                None => tag_of(other@, name),
            });
        }
        assert(state_tags(state@) =~= merged) by {
            assert forall|name: Seq<char>|
                state_tags(state@).dom().contains(name) == merged.dom().contains(name) by {
                assert(lookup(state_tags(state@), name) == lookup(merged, name));
            }
            assert forall|name: Seq<char>| state_tags(state@).dom().contains(
                name,
            ) implies state_tags(state@)[name] == merged[name] by {
                assert(lookup(state_tags(state@), name) == lookup(merged, name));
            }
        }
    }
}

/// Whether every name that `state` taints is tainted in `other` too.
pub fn taints_within(state: &Vec<Taint>, other: &Vec<Taint>) -> (r: bool)
    ensures
        r == state_names(state@).subset_of(state_names(other@)),
{
    let mut k: usize = 0;
    while k < state.len()
        invariant
            k <= state@.len(),
            forall|j: int|
                0 <= j < k ==> state_names(other@).contains((#[trigger] state@[j]).variable@),
        decreases state@.len() - k,
    {
        if find_taint(other, state[k].variable.as_str()).is_none() {
            assert(state_names(state@).contains(state@[k as int].variable@));
            return false;
        }
        k += 1;
    }
    assert forall|name: Seq<char>| state_names(state@).contains(name) implies state_names(
        other@,
    ).contains(name) by {
        let j = choose|j: int| 0 <= j < state@.len() && (#[trigger] state@[j]).variable@ == name;
        assert(state_names(other@).contains(state@[j].variable@));
    }
    true
}

/// The id of the last of the first `n` source rules whose call name is
/// `call_name`.
pub open spec fn last_source_id(
    sources: Seq<TaintSourceRule>,
    call_name: Seq<char>,
    n: int,
) -> Option<Seq<char>>
    decreases n,
{
    if n <= 0 {
        None
    } else if call_matches(call_name, sources[n - 1].function_call@) {
        Some(sources[n - 1].id@)
    } else {
        last_source_id(sources, call_name, n - 1)
    }
}

/// The tag of the first tainted name that the parts `values[j..]` of a
/// joined string interpolate.
pub open spec fn first_joined_tag(values: Seq<AstNode>, tags: Tags, j: int) -> Option<Seq<char>>
    decreases values.len() - j,
{
    if j < 0 || j >= values.len() {
        None
    } else {
        let here = match interpolated_name(values[j]) {
            Some(name) => lookup(tags, name),
            None => None,
        };
        match here {
            Some(tag) => Some(tag),
            None => first_joined_tag(values, tags, j + 1),
        }
    }
}

/// The variable that `stmt` taints and the tag that it gives it, when
/// `tags` holds the taint before it: the target of an assignment from a
/// source call gets the tag of the last source rule with that call name,
/// and the target of an assignment of a joined string the tag of the first
/// tainted name that the string interpolates.
pub open spec fn statement_taint(
    stmt: AstNode,
    sources: Seq<TaintSourceRule>,
    tags: Tags,
) -> Option<(Seq<char>, Seq<char>)> {
    match assigned_name(stmt) {
        Some(name) => {
            let value = first_child_of(stmt, "value"@)->0;
            let tag = if value.node_type@ == "Call"@ {
                last_source_id(sources, call_name_of(value), sources.len() as int)
            } else if value.node_type@ == "JoinedStr"@ {
                match children_of(value, "values"@) {
                    Some(values) => first_joined_tag(values, tags, 0),
                    None => None,
                }
            } else {
                None
            };
            match tag {
                Some(t) => Some((name, t)),
                None => None,
            }
        },
        None => None,
    }
}

/// The tags after `stmt`.
pub open spec fn transfer_tags(stmt: AstNode, sources: Seq<TaintSourceRule>, tags: Tags) -> Tags {
    match statement_taint(stmt, sources, tags) {
        Some(tainted) => tags.insert(tainted.0, tainted.1),
        None => tags,
    }
}

/// The tags after the first `n` statements of `stmts`, when `tags` holds the
/// taint before the first.
pub open spec fn tags_upto(
    stmts: Seq<AstNode>,
    sources: Seq<TaintSourceRule>,
    tags: Tags,
    n: int,
) -> Tags
    decreases n,
{
    if n <= 0 {
        tags
    } else {
        transfer_tags(stmts[n - 1], sources, tags_upto(stmts, sources, tags, n - 1))
    }
}

/// The tags at the start of a block with the first `k` predecessors of
/// `preds`: the tags at the end of the predecessors, and of the tags of one
/// name that of the earliest predecessor.
pub open spec fn join_tags_upto(outs: Seq<Tags>, preds: Seq<BlockId>, k: int) -> Tags
    decreases k,
{
    if k <= 0 {
        Map::empty()
    } else {
        outs[preds[k - 1] as int].union_prefer_right(join_tags_upto(outs, preds, k - 1))
    }
}

/// Whether `id` is the id of one of the source rules.
pub open spec fn is_source_id(sources: Seq<TaintSourceRule>, id: Seq<char>) -> bool {
    exists|k: int| 0 <= k < sources.len() && (#[trigger] sources[k]).id@ == id
}

/// Whether every tag of `tags` is the id of one of the source rules.
pub open spec fn tags_from(tags: Tags, sources: Seq<TaintSourceRule>) -> bool {
    forall|name: Seq<char>| tags.dom().contains(name) ==> is_source_id(sources, #[trigger] tags[name])
}

/// Whether every tag at the end of every block is the id of one of the
/// source rules.
pub open spec fn all_tags_from(outs: Seq<Vec<Taint>>, sources: Seq<TaintSourceRule>) -> bool {
    forall|b: int| 0 <= b < outs.len() ==> tags_from(state_tags((#[trigger] outs[b])@), sources)
}

proof fn lemma_last_source_id(sources: Seq<TaintSourceRule>, call_name: Seq<char>, n: int)
    requires
        n <= sources.len(),
    ensures
        last_source_id(sources, call_name, n) matches Some(id) ==> is_source_id(sources, id),
    decreases n,
{
    if n > 0 && !call_matches(call_name, sources[n - 1].function_call@) {
        lemma_last_source_id(sources, call_name, n - 1);
    }
}

proof fn lemma_first_joined_tag(
    values: Seq<AstNode>,
    tags: Tags,
    j: int,
    sources: Seq<TaintSourceRule>,
)
    requires
        tags_from(tags, sources),
    ensures
        first_joined_tag(values, tags, j) matches Some(tag) ==> is_source_id(sources, tag),
    decreases values.len() - j,
{
    if 0 <= j < values.len() {
        lemma_first_joined_tag(values, tags, j + 1, sources);
    }
}

/// A statement gives tags of source rules only.
proof fn lemma_transfer_tags_from(stmt: AstNode, sources: Seq<TaintSourceRule>, tags: Tags)
    requires
        tags_from(tags, sources),
    ensures
        tags_from(transfer_tags(stmt, sources, tags), sources),
{
    match statement_taint(stmt, sources, tags) {
        Some(tainted) => {
            let value = first_child_of(stmt, "value"@)->0;
            lemma_last_source_id(sources, call_name_of(value), sources.len() as int);
            match children_of(value, "values"@) {
                Some(values) => {
                    lemma_first_joined_tag(values, tags, 0, sources);
                },
                None => {},
            }
            assert(is_source_id(sources, tainted.1));
            let next = tags.insert(tainted.0, tainted.1);
            assert forall|name: Seq<char>| next.dom().contains(name) implies is_source_id(
                sources,
                #[trigger] next[name],
            ) by {
                if name != tainted.0 {
                    assert(tags.dom().contains(name));
                    assert(next[name] == tags[name]);
                }
            }
        },
        None => {},
    }
}

proof fn lemma_tags_upto_from(
    stmts: Seq<AstNode>,
    sources: Seq<TaintSourceRule>,
    tags: Tags,
    n: int,
)
    requires
        tags_from(tags, sources),
    ensures
        tags_from(tags_upto(stmts, sources, tags, n), sources),
    decreases n,
{
    if n > 0 {
        lemma_tags_upto_from(stmts, sources, tags, n - 1);
        lemma_transfer_tags_from(stmts[n - 1], sources, tags_upto(stmts, sources, tags, n - 1));
    }
}

proof fn lemma_join_tags_from(
    outs: Seq<Tags>,
    preds: Seq<BlockId>,
    k: int,
    sources: Seq<TaintSourceRule>,
)
    requires
        0 <= k <= preds.len(),
        forall|j: int| 0 <= j < preds.len() ==> (#[trigger] preds[j]) < outs.len(),
        forall|b: int| 0 <= b < outs.len() ==> tags_from(#[trigger] outs[b], sources),
    ensures
        tags_from(join_tags_upto(outs, preds, k), sources),
    decreases k,
{
    if k > 0 {
        lemma_join_tags_from(outs, preds, k - 1, sources);
        let before = join_tags_upto(outs, preds, k - 1);
        let here = outs[preds[k - 1] as int];
        assert(tags_from(here, sources));
        let joined = here.union_prefer_right(before);
        assert forall|name: Seq<char>| joined.dom().contains(name) implies is_source_id(
            sources,
            #[trigger] joined[name],
        ) by {
            if before.dom().contains(name) {
                assert(joined[name] == before[name]);
            } else {
                assert(here.dom().contains(name));
                assert(joined[name] == here[name]);
            }
        }
    }
}

/// The id of the last source rule whose call name is `call_name`.
pub fn matching_source<'a>(sources: &'a Vec<TaintSourceRule>, call_name: &str) -> (r: Option<
    &'a String,
>)
    ensures
        r is Some <==> source_matches(sources@, call_name@),
        match r {
            Some(id) => last_source_id(sources@, call_name@, sources@.len() as int) == Some(id@),
            None => last_source_id(sources@, call_name@, sources@.len() as int) is None,
        },
{
    let mut found: Option<&'a String> = None;
    let mut k: usize = 0;
    while k < sources.len()
        invariant
            k <= sources@.len(),
            found is Some <==> exists|j: int|
                0 <= j < k && call_matches(call_name@, (#[trigger] sources@[j]).function_call@),
            match found {
                Some(id) => last_source_id(sources@, call_name@, k as int) == Some(id@),
                None => last_source_id(sources@, call_name@, k as int) is None,
            },
        decreases sources@.len() - k,
    {
        if same_call(call_name, sources[k].function_call.as_str()) {
            found = Some(&sources[k].id);
        }
        k += 1;
    }
    found
}

/// The tag of the first tainted name that the joined string `joined`
/// interpolates.
#[verifier::loop_isolation(false)]
pub fn joined_taint<'a>(joined: &AstNode, state: &Vec<Taint<'a>>) -> (r: Option<&'a String>)
    ensures
        r is Some <==> joined_tainted(*joined, state_names(state@)),
        match children_of(*joined, "values"@) {
            Some(values) => match r {
                Some(tag) => first_joined_tag(values, state_tags(state@), 0) == Some(tag@),
                None => first_joined_tag(values, state_tags(state@), 0) is None,
            },
            None => r is None,
        },
{
    match joined.child_list("values") {
        Some(values) => {
            let mut j: usize = 0;
            while j < values.len()
                invariant
                    j <= values@.len(),
                    forall|i: int|
                        0 <= i < j ==> !interpolates_tainted(
                            #[trigger] values@[i],
                            state_names(state@),
                        ),
                    first_joined_tag(values@, state_tags(state@), 0) == first_joined_tag(
                        values@,
                        state_tags(state@),
                        j as int,
                    ),
                decreases values@.len() - j,
            {
                match values[j].first_child("value") {
                    Some(inner) => match get_name_from_node(inner) {
                        Some(name) => {
                            proof {
                                lemma_tagged_names(state@, name@);
                            }
                            match find_taint(state, name.as_str()) {
                                Some(k) => {
                                    assert(state_names(state@).contains(
                                        state@[k as int].variable@,
                                    ));
                                    assert(interpolated_name(values@[j as int]) == Some(name@));
                                    assert(interpolates_tainted(
                                        values@[j as int],
                                        state_names(state@),
                                    ));
                                    assert(joined_tainted(*joined, state_names(state@))) by {
                                        let listed = children_of(*joined, "values"@)->0;
                                        assert(listed == values@);
                                        assert(0 <= j < listed.len() && interpolates_tainted(
                                            listed[j as int],
                                            state_names(state@),
                                        ));
                                    }
                                    return Some(state[k].source_rule_id);
                                },
                                None => {},
                            }
                        },
                        None => {},
                    },
                    None => {},
                }
                j += 1;
            }
            None
        },
        None => None,
    }
}

/// Applies the effect of `stmt` to `state`: an assignment from a source
/// taints its target with the tag of the source, and an assignment of a
/// joined string that interpolates a tainted name taints its target with
/// the tag of that name.
pub fn apply_statement<'a>(
    stmt: &'a AstNode,
    sources: &'a Vec<TaintSourceRule>,
    state: &mut Vec<Taint<'a>>,
)
    ensures
        state_names(final(state)@) == transfer_statement(
            *stmt,
            sources@,
            state_names(old(state)@),
        ),
        state_tags(final(state)@) == transfer_tags(*stmt, sources@, state_tags(old(state)@)),
        is_taint_map(old(state)@) ==> is_taint_map(final(state)@),
{
    if !stmt.is_kind("Assign") {
        return ;
    }
    let target = match stmt.first_child("targets") {
        Some(target) => target,
        None => {
            return ;
        },
    };
    let value = match stmt.first_child("value") {
        Some(value) => value,
        None => {
            return ;
        },
    };
    let name = match get_name_from_node(target) {
        Some(name) => name,
        None => {
            return ;
        },
    };
    proof {
        reveal_strlit("Call");
        reveal_strlit("JoinedStr");
        assert("Call"@.len() != "JoinedStr"@.len());
    }
    if value.is_kind("Call") {
        let call_name = get_full_call_name(value);
        match matching_source(sources, call_name.as_str()) {
            Some(source_rule_id) => {
                set_taint(state, name, source_rule_id);
            },
            None => {},
        }
    } else if value.is_kind("JoinedStr") {
        match joined_taint(value, state) {
            Some(source_rule_id) => {
                set_taint(state, name, source_rule_id);
            },
            None => {},
        }
    }
}

/// The findings of the first `k` sink rules at `stmt`, in catalog order,
/// when the names `tainted` are tainted.
pub open spec fn sink_findings(
    ruleset: &RuleSet,
    file_path: Seq<char>,
    lines: Seq<Seq<char>>,
    stmt: AstNode,
    tainted: Names,
    k: int,
) -> Seq<IssueView>
    decreases k,
{
    if k <= 0 {
        Seq::empty()
    } else {
        let before = sink_findings(ruleset, file_path, lines, stmt, tainted, k - 1);
        let sink = ruleset.taint_sinks@[k - 1];
        if sink_fires(stmt, sink, tainted) {
            match sink_finding(ruleset.rules@, sink, stmt, file_path, lines) {
                Some(issue) => before.push(issue),
                None => before,
            }
        } else {
            before
        }
    }
}

/// The findings at the first `n` statements of a block, statement by
/// statement, when the names `tainted` are tainted at its start.
pub open spec fn block_findings(
    ruleset: &RuleSet,
    file_path: Seq<char>,
    lines: Seq<Seq<char>>,
    stmts: Seq<AstNode>,
    tainted: Names,
    n: int,
) -> Seq<IssueView>
    decreases n,
{
    if n <= 0 {
        Seq::empty()
    } else {
        block_findings(ruleset, file_path, lines, stmts, tainted, n - 1) + sink_findings(
            ruleset,
            file_path,
            lines,
            stmts[n - 1],
            transfer_upto(stmts, ruleset.taint_sources@, tainted, n - 1),
            ruleset.taint_sinks@.len() as int,
        )
    }
}

/// The findings of the sink rules at a statement are the issues that are
/// reported there.
proof fn lemma_sink_findings(
    ruleset: &RuleSet,
    file_path: Seq<char>,
    lines: Seq<Seq<char>>,
    stmt: AstNode,
    tainted: Names,
    k: int,
    issue: IssueView,
)
    requires
        0 <= k <= ruleset.taint_sinks@.len(),
    ensures
        sink_findings(ruleset, file_path, lines, stmt, tainted, k).contains(issue) <==> exists|
            s: int,
        |
            0 <= s < k && sink_fires(stmt, #[trigger] ruleset.taint_sinks@[s], tainted)
                && sink_finding(ruleset.rules@, ruleset.taint_sinks@[s], stmt, file_path, lines)
                == Some(issue),
    decreases k,
{
    if k > 0 {
        lemma_sink_findings(ruleset, file_path, lines, stmt, tainted, k - 1, issue);
        let before = sink_findings(ruleset, file_path, lines, stmt, tainted, k - 1);
        let all = sink_findings(ruleset, file_path, lines, stmt, tainted, k);
        let sink = ruleset.taint_sinks@[k - 1];
        let fires_here = sink_fires(stmt, sink, tainted) && sink_finding(
            ruleset.rules@,
            sink,
            stmt,
            file_path,
            lines,
        ) == Some(issue);
        if all.contains(issue) {
            let j = choose|j: int| 0 <= j < all.len() && all[j] == issue;
            if j < before.len() {
                assert(before[j] == issue);
            } else {
                assert(fires_here);
            }
        }
        if fires_here {
            assert(all[before.len() as int] == issue);
        }
        if before.contains(issue) {
            let j = choose|j: int| 0 <= j < before.len() && before[j] == issue;
            assert(all[j] == issue);
        }
    }
}

/// The findings of a block are the issues that are reported in it.
proof fn lemma_block_findings(
    ruleset: &RuleSet,
    file_path: Seq<char>,
    lines: Seq<Seq<char>>,
    stmts: Seq<AstNode>,
    tainted: Names,
    n: int,
    issue: IssueView,
)
    requires
        0 <= n <= stmts.len(),
    ensures
        block_findings(ruleset, file_path, lines, stmts, tainted, n).contains(issue) <==> exists|
            i: int,
        |
            0 <= i < n && reported_at(
                ruleset,
                file_path,
                lines,
                #[trigger] stmts[i],
                transfer_upto(stmts, ruleset.taint_sources@, tainted, i),
                issue,
            ),
    decreases n,
{
    if n > 0 {
        lemma_block_findings(ruleset, file_path, lines, stmts, tainted, n - 1, issue);
        let before = block_findings(ruleset, file_path, lines, stmts, tainted, n - 1);
        let state = transfer_upto(stmts, ruleset.taint_sources@, tainted, n - 1);
        let here = sink_findings(
            ruleset,
            file_path,
            lines,
            stmts[n - 1],
            state,
            ruleset.taint_sinks@.len() as int,
        );
        let all = block_findings(ruleset, file_path, lines, stmts, tainted, n);
        lemma_sink_findings(
            ruleset,
            file_path,
            lines,
            stmts[n - 1],
            state,
            ruleset.taint_sinks@.len() as int,
            issue,
        );
        if all.contains(issue) {
            let j = choose|j: int| 0 <= j < all.len() && all[j] == issue;
            if j < before.len() {
                assert(before[j] == issue);
            } else {
                assert(here[j - before.len()] == issue);
                assert(reported_at(ruleset, file_path, lines, stmts[n - 1], state, issue));
            }
        }
        if before.contains(issue) {
            let j = choose|j: int| 0 <= j < before.len() && before[j] == issue;
            assert(all[j] == issue);
        }
        if here.contains(issue) {
            let j = choose|j: int| 0 <= j < here.len() && here[j] == issue;
            assert(all[before.len() + j] == issue);
        }
    }
}

/// Reports the finding of the rule `vuln_id` at `stmt`, if the catalog has
/// such a rule.
pub fn report_issue(
    ruleset: &RuleSet,
    vuln_id: &str,
    file_path: &str,
    stmt: &AstNode,
    lines: &Vec<String>,
    issues: &mut Vec<Issue>,
)
    ensures
        issue_views(final(issues)@) == match rule_index(ruleset.rules@, vuln_id@, 0) {
            Some(r) => issue_views(old(issues)@).push(
                node_finding(ruleset.rules@[r], *stmt, file_path@, strings_view(lines@)),
            ),
            None => issue_views(old(issues)@),
        },
{
    match ruleset.find_rule(vuln_id) {
        Some(rule) => {
            let issue = issue_for_node(rule, stmt, file_path, lines);
            let ghost before = issue_views(issues@);
            issues.push(issue);
            assert(issue_views(issues@) =~= before.push(issue@));
        },
        None => {},
    }
}

/// Whether the argument of `call` at position `index` is a name that
/// `state` taints.
fn argument_tainted(call: &AstNode, index: usize, state: &Vec<Taint>) -> (r: bool)
    ensures
        r <==> (children_of(*call, "args"@) matches Some(args) && index < args.len() && (name_of(
            args[index as int],
        ) matches Some(arg) && state_names(state@).contains(arg))),
{
    match call.child_list("args") {
        Some(args) => {
            if index < args.len() {
                match get_name_from_node(&args[index]) {
                    Some(arg) => match find_taint(state, arg.as_str()) {
                        Some(k) => {
                            assert(state_names(state@).contains(state@[k as int].variable@));
                            true
                        },
                        None => false,
                    },
                    None => false,
                }
            } else {
                false
            }
        },
        None => false,
    }
}

/// Reports the findings of the sink rules at `stmt` when `state` holds the
/// taint before it.
#[verifier::loop_isolation(false)]
pub fn check_sinks(
    stmt: &AstNode,
    ruleset: &RuleSet,
    state: &Vec<Taint>,
    file_path: &str,
    lines: &Vec<String>,
    issues: &mut Vec<Issue>,
)
    ensures
        issue_views(final(issues)@) == issue_views(old(issues)@) + sink_findings(
            ruleset,
            file_path@,
            strings_view(lines@),
            *stmt,
            state_names(state@),
            ruleset.taint_sinks@.len() as int,
        ),
{
    let ghost start = issue_views(issues@);
    let ghost tainted = state_names(state@);
    let ghost texts = strings_view(lines@);
    let call = if stmt.is_kind("Expr") {
        match stmt.first_child("value") {
            Some(call) => if call.is_kind("Call") {
                Some(call)
            } else {
                None
            },
            None => None,
        }
    } else {
        None
    };
    assert(issue_views(issues@) =~= start + Seq::<IssueView>::empty());
    match call {
        Some(call) => {
            let call_name = get_full_call_name(call);
            let mut k: usize = 0;
            while k < ruleset.taint_sinks.len()
                invariant
                    k <= ruleset.taint_sinks@.len(),
                    issue_views(issues@) == start + sink_findings(
                        ruleset,
                        file_path@,
                        texts,
                        *stmt,
                        tainted,
                        k as int,
                    ),
                decreases ruleset.taint_sinks@.len() - k,
            {
                let sink = &ruleset.taint_sinks[k];
                let ghost before = issue_views(issues@);
                if same_call(call_name.as_str(), sink.function_call.as_str()) && argument_tainted(
                    call,
                    sink.vulnerable_parameter_index,
                    state,
                ) {
                    assert(sink_fires(*stmt, *sink, tainted));
                    report_issue(
                        ruleset,
                        sink.vulnerability_id.as_str(),
                        file_path,
                        stmt,
                        lines,
                        issues,
                    );
                } else {
                    assert(!sink_fires(*stmt, *sink, tainted));
                }
                assert(issue_views(issues@) =~= start + sink_findings(
                    ruleset,
                    file_path@,
                    texts,
                    *stmt,
                    tainted,
                    k + 1,
                ));
                k += 1;
            }
        },
        None => {
            assert forall|k: int| 0 <= k <= ruleset.taint_sinks@.len() implies sink_findings(
                ruleset,
                file_path@,
                texts,
                *stmt,
                tainted,
                k,
            ) =~= Seq::<IssueView>::empty() by {
                lemma_no_sink_findings(ruleset, file_path@, texts, *stmt, tainted, k);
            }
        },
    }
}

/// A statement that is no expression statement around a call reports
/// nothing.
proof fn lemma_no_sink_findings(
    ruleset: &RuleSet,
    file_path: Seq<char>,
    lines: Seq<Seq<char>>,
    stmt: AstNode,
    tainted: Names,
    k: int,
)
    requires
        !(stmt.node_type@ == "Expr"@ && first_child_of(stmt, "value"@) is Some && first_child_of(
            stmt,
            "value"@,
        )->0.node_type@ == "Call"@),
    ensures
        sink_findings(ruleset, file_path, lines, stmt, tainted, k) == Seq::<IssueView>::empty(),
    decreases k,
{
    if k > 0 {
        lemma_no_sink_findings(ruleset, file_path, lines, stmt, tainted, k - 1);
    }
}

/// Runs the statements `stmts` of one block on the taint `state` at its
/// start: reports the findings of the sink rules and returns the taint at
/// its end.
pub fn run_block<'a>(
    stmts: &Vec<&'a AstNode>,
    ruleset: &'a RuleSet,
    state: Vec<Taint<'a>>,
    file_path: &str,
    lines: &Vec<String>,
    issues: &mut Vec<Issue>,
) -> (r: Vec<Taint<'a>>)
    ensures
        state_names(r@) == transfer_block(
            nodes_view(stmts@),
            ruleset.taint_sources@,
            state_names(state@),
        ),
        issue_views(final(issues)@) == issue_views(old(issues)@) + block_findings(
            ruleset,
            file_path@,
            strings_view(lines@),
            nodes_view(stmts@),
            state_names(state@),
            stmts@.len() as int,
        ),
        state_tags(r@) == tags_upto(
            nodes_view(stmts@),
            ruleset.taint_sources@,
            state_tags(state@),
            stmts@.len() as int,
        ),
        is_taint_map(state@) ==> is_taint_map(r@),
{
    let ghost start = issue_views(issues@);
    let ghost first = state_names(state@);
    let ghost first_tags = state_tags(state@);
    let ghost texts = strings_view(lines@);
    let ghost nodes = nodes_view(stmts@);
    let mut current = state;
    assert(issue_views(issues@) =~= start + Seq::<IssueView>::empty());
    let mut i: usize = 0;
    while i < stmts.len()
        invariant
            i <= stmts@.len(),
            nodes == nodes_view(stmts@),
            texts == strings_view(lines@),
            state_names(current@) == transfer_upto(
                nodes,
                ruleset.taint_sources@,
                first,
                i as int,
            ),
            issue_views(issues@) == start + block_findings(
                ruleset,
                file_path@,
                texts,
                nodes,
                first,
                i as int,
            ),
            state_tags(current@) == tags_upto(
                nodes,
                ruleset.taint_sources@,
                first_tags,
                i as int,
            ),
            is_taint_map(state@) ==> is_taint_map(current@),
        decreases stmts@.len() - i,
    {
        let stmt = stmts[i];
        assert(nodes[i as int] == *stmt);
        check_sinks(stmt, ruleset, &current, file_path, lines, issues);
        apply_statement(stmt, &ruleset.taint_sources, &mut current);
        i += 1;
    }
    current
}

/// Whether every set of `outs` holds names of `bound` only.
pub open spec fn within(outs: Seq<Names>, bound: Names) -> bool {
    forall|i: int| 0 <= i < outs.len() ==> (#[trigger] outs[i]).subset_of(bound)
}

/// The names that the first `n` statements of `stmts` assign to, one entry
/// for each assignment.
pub open spec fn targets_upto(stmts: Seq<AstNode>, n: int) -> Seq<Seq<char>>
    decreases n,
{
    if n <= 0 {
        Seq::empty()
    } else {
        let before = targets_upto(stmts, n - 1);
        match assigned_name(stmts[n - 1]) {
            Some(name) => before.push(name),
            None => before,
        }
    }
}

/// The names that the statements of the first `k` blocks assign to.
pub open spec fn all_targets(blocks: Seq<Seq<AstNode>>, k: int) -> Seq<Seq<char>>
    decreases k,
{
    if k <= 0 {
        Seq::empty()
    } else {
        all_targets(blocks, k - 1) + targets_upto(blocks[k - 1], blocks[k - 1].len() as int)
    }
}

/// The names that occur as the target of an assignment in `cfg`: the only
/// names that the data flow can taint.
pub open spec fn assigned_names(cfg: CfgModel) -> Names {
    all_targets(cfg.blocks, cfg.blocks.len() as int).to_set()
}

/// The number of names in the first `k` sets of `outs`, counted set by set.
pub open spec fn total_size(outs: Seq<Names>, k: int) -> nat
    decreases k,
{
    if k <= 0 {
        0
    } else {
        total_size(outs, k - 1) + outs[k - 1].len()
    }
}

/// Whether `outs` holds, at every block, no more names than the statements
/// of the block make of the names at its start.
pub open spec fn pre_fixpoint(
    cfg: CfgModel,
    sources: Seq<TaintSourceRule>,
    outs: Seq<Names>,
) -> bool {
    &&& outs.len() == cfg.blocks.len()
    &&& forall|b: int|
        0 <= b < outs.len() ==> (#[trigger] outs[b]).subset_of(block_out(cfg, sources, outs, b))
}

/// Whether `outs` is below every fixpoint of the data flow.
pub open spec fn below_fixpoints(
    cfg: CfgModel,
    sources: Seq<TaintSourceRule>,
    outs: Seq<Names>,
) -> bool {
    forall|other: Seq<Names>| #[trigger] is_fixpoint(cfg, sources, other) ==> below(outs, other)
}

proof fn lemma_targets_grow(stmts: Seq<AstNode>, i: int, n: int, name: Seq<char>)
    requires
        0 <= i <= n,
        targets_upto(stmts, i).contains(name),
    ensures
        targets_upto(stmts, n).contains(name),
    decreases n - i,
{
    if i < n {
        let shorter = targets_upto(stmts, i);
        let longer = targets_upto(stmts, i + 1);
        let j = choose|j: int| 0 <= j < shorter.len() && shorter[j] == name;
        assert(longer[j] == name);
        lemma_targets_grow(stmts, i + 1, n, name);
    }
}

/// A run of statements taints only what was tainted before it and what the
/// statements assign to.
proof fn lemma_transfer_within(
    stmts: Seq<AstNode>,
    sources: Seq<TaintSourceRule>,
    tainted: Names,
    n: int,
    bound: Names,
)
    requires
        0 <= n <= stmts.len(),
        tainted.subset_of(bound),
        targets_upto(stmts, stmts.len() as int).to_set().subset_of(bound),
    ensures
        transfer_upto(stmts, sources, tainted, n).subset_of(bound),
    decreases n,
{
    if n > 0 {
        lemma_transfer_within(stmts, sources, tainted, n - 1, bound);
        let before = transfer_upto(stmts, sources, tainted, n - 1);
        match tainted_target(stmts[n - 1], sources, before) {
            Some(name) => {
                let upto = targets_upto(stmts, n);
                assert(upto[upto.len() - 1] == name);
                assert(upto.contains(name));
                lemma_targets_grow(stmts, n, stmts.len() as int, name);
                assert(targets_upto(stmts, stmts.len() as int).to_set().contains(name));
            },
            None => {},
        }
    }
}

proof fn lemma_all_targets_contain(blocks: Seq<Seq<AstNode>>, k: int, b: int, name: Seq<char>)
    requires
        0 <= b < k <= blocks.len(),
        targets_upto(blocks[b], blocks[b].len() as int).contains(name),
    ensures
        all_targets(blocks, k).contains(name),
    decreases k,
{
    let before = all_targets(blocks, k - 1);
    let here = targets_upto(blocks[k - 1], blocks[k - 1].len() as int);
    if b == k - 1 {
        let j = choose|j: int| 0 <= j < here.len() && here[j] == name;
        assert((before + here)[before.len() + j] == name);
    } else {
        lemma_all_targets_contain(blocks, k - 1, b, name);
        let j = choose|j: int| 0 <= j < before.len() && before[j] == name;
        assert((before + here)[j] == name);
    }
}

/// The data flow taints assigned names only.
proof fn lemma_block_out_within(
    cfg: CfgModel,
    sources: Seq<TaintSourceRule>,
    outs: Seq<Names>,
    b: int,
)
    requires
        0 <= b < cfg.blocks.len(),
        outs.len() == cfg.blocks.len(),
        within(outs, assigned_names(cfg)),
    ensures
        block_out(cfg, sources, outs, b).subset_of(assigned_names(cfg)),
{
    let bound = assigned_names(cfg);
    let stmts = block_statements(cfg, b);
    assert forall|name: Seq<char>| block_in(cfg, outs, b).contains(name) implies bound.contains(
        name,
    ) by {
        let a = choose|a: int|
            0 <= a < cfg.blocks.len() && cfg.edges.dom().contains((a, b)) && (
            #[trigger] outs[a]).contains(name);
        assert(outs[a].subset_of(bound));
    }
    assert forall|name: Seq<char>|
        targets_upto(stmts, stmts.len() as int).to_set().contains(name) implies bound.contains(
        name,
    ) by {
        lemma_all_targets_contain(cfg.blocks, cfg.blocks.len() as int, b, name);
    }
    lemma_transfer_within(stmts, sources, block_in(cfg, outs, b), stmts.len() as int, bound);
}

/// Sets of names of `bound` hold at most as many names as `bound`, each.
proof fn lemma_total_size_bound(outs: Seq<Names>, bound: Names, k: int)
    requires
        bound.finite(),
        within(outs, bound),
        0 <= k <= outs.len(),
    ensures
        total_size(outs, k) <= k * bound.len(),
    decreases k,
{
    if k > 0 {
        lemma_total_size_bound(outs, bound, k - 1);
        assert(outs[k - 1].subset_of(bound));
        lemma_len_subset(outs[k - 1], bound);
        assert((k - 1) * bound.len() + bound.len() == k * bound.len()) by (nonlinear_arith);
    }
}

/// Replacing one set changes the count by the difference of the sizes.
proof fn lemma_total_size_update(outs: Seq<Names>, b: int, new: Names, k: int)
    requires
        0 <= b < outs.len(),
        0 <= k <= outs.len(),
    ensures
        total_size(outs.update(b, new), k) == if b < k {
            total_size(outs, k) - outs[b].len() + new.len()
        } else {
            total_size(outs, k) as int
        },
    decreases k,
{
    if k > 0 {
        lemma_total_size_update(outs, b, new, k - 1);
    }
}

/// A set to which a name was added has grown.
proof fn lemma_grown(old_names: Names, new_names: Names, name: Seq<char>)
    requires
        new_names.finite(),
        old_names.subset_of(new_names),
        new_names.contains(name),
        !old_names.contains(name),
    ensures
        old_names.len() + 1 <= new_names.len(),
{
    assert(old_names.subset_of(new_names.remove(name)));
    lemma_len_subset(old_names, new_names.remove(name));
}

/// Replacing the names at the end of one block by what the data flow makes
/// of the names so far keeps what the sweeps rely on, and moves upward.
proof fn lemma_update_step(
    cfg: CfgModel,
    sources: Seq<TaintSourceRule>,
    outs: Seq<Names>,
    b: int,
)
    requires
        0 <= b < cfg.blocks.len(),
        pre_fixpoint(cfg, sources, outs),
        below_fixpoints(cfg, sources, outs),
        within(outs, assigned_names(cfg)),
    ensures
        below(outs, outs.update(b, block_out(cfg, sources, outs, b))),
        pre_fixpoint(cfg, sources, outs.update(b, block_out(cfg, sources, outs, b))),
        below_fixpoints(cfg, sources, outs.update(b, block_out(cfg, sources, outs, b))),
        within(outs.update(b, block_out(cfg, sources, outs, b)), assigned_names(cfg)),
{
    let new_out = block_out(cfg, sources, outs, b);
    let next = outs.update(b, new_out);
    assert(outs[b].subset_of(new_out));
    assert(below(outs, next)) by {
        assert forall|i: int| 0 <= i < outs.len() implies (#[trigger] outs[i]).subset_of(
            next[i],
        ) by {}
    }
    assert forall|c: int| 0 <= c < next.len() implies (#[trigger] next[c]).subset_of(
        block_out(cfg, sources, next, c),
    ) by {
        lemma_block_out_monotone(cfg, sources, outs, next, c);
        if c != b {
            assert(outs[c].subset_of(block_out(cfg, sources, outs, c)));
        }
    }
    assert forall|other: Seq<Names>| #[trigger] is_fixpoint(cfg, sources, other) implies below(
        next,
        other,
    ) by {
        assert(below(outs, other));
        lemma_block_out_monotone(cfg, sources, outs, other, b);
        assert(other[b] == block_out(cfg, sources, other, b));
        assert forall|i: int| 0 <= i < next.len() implies (#[trigger] next[i]).subset_of(
            other[i],
        ) by {
            if i != b {
                assert(outs[i].subset_of(other[i]));
            }
        }
    }
    lemma_block_out_within(cfg, sources, outs, b);
    assert forall|i: int| 0 <= i < next.len() implies (#[trigger] next[i]).subset_of(
        assigned_names(cfg),
    ) by {
        if i != b {
            assert(outs[i].subset_of(assigned_names(cfg)));
        }
    }
}

/// What a sweep over the blocks relies on, and preserves: the names found
/// so far are below what the data flow makes of them and below every
/// fixpoint, they are assigned names, and every issue found so far is
/// reported with them.
pub open spec fn sweep_ready(
    cfg: CfgModel,
    ruleset: &RuleSet,
    file_path: Seq<char>,
    lines: Seq<Seq<char>>,
    outs: Seq<Names>,
    found: Seq<IssueView>,
) -> bool {
    &&& pre_fixpoint(cfg, ruleset.taint_sources@, outs)
    &&& below_fixpoints(cfg, ruleset.taint_sources@, outs)
    &&& within(outs, assigned_names(cfg))
    &&& forall|issue: IssueView| #[trigger]
        found.contains(issue) ==> reported(cfg, ruleset, file_path, lines, outs, issue)
}

/// Whether the blocks from `from` on are at rest: the names at their end
/// are what the data flow makes of the names so far, and every issue that
/// is reported in them was found.
pub open spec fn settled_from(
    cfg: CfgModel,
    ruleset: &RuleSet,
    file_path: Seq<char>,
    lines: Seq<Seq<char>>,
    outs: Seq<Names>,
    found: Seq<IssueView>,
    from: int,
) -> bool {
    &&& forall|b: int|
        from <= b < outs.len() ==> #[trigger] outs[b] == block_out(
            cfg,
            ruleset.taint_sources@,
            outs,
            b,
        )
    &&& forall|b: int, issue: IssueView|
        from <= b < outs.len() && reported_in_block(
            ruleset,
            file_path,
            lines,
            #[trigger] block_statements(cfg, b),
            block_in(cfg, outs, b),
            issue,
        ) ==> #[trigger] found.contains(issue)
}

/// The union over the predecessors of a block of a consistent graph, taken
/// in any order, is the union over the edges into the block.
proof fn lemma_join_is_block_in(
    cfg: &ControlFlowGraph,
    outs: Seq<Names>,
    b: int,
    order: Seq<BlockId>,
)
    requires
        cfg.wf(),
        0 <= b < cfg.size(),
        outs.len() == cfg.size(),
        order.to_set() == cfg.block(b).predecessors@,
    ensures
        join_upto(outs, order, order.len() as int) == block_in(cfg.model(), outs, b),
{
    let preds = cfg.block(b).predecessors@;
    let joined = join_upto(outs, order, order.len() as int);
    let n = cfg.size() as int;
    assert(cfg.block(b).edges_wf(n));
    assert forall|name: Seq<char>| joined.contains(name) implies block_in(
        cfg.model(),
        outs,
        b,
    ).contains(name) by {
        let j = lemma_join_member(outs, order, order.len() as int, name);
        let a = order[j] as int;
        assert(order.to_set().contains(order[j]));
        assert(cfg.block(b).has_predecessor(a));
        assert(cfg.block(a).has_successor(b));
        assert(cfg.model().edges.dom().contains((a, b)));
        assert(outs[a].contains(name));
    }
    assert forall|name: Seq<char>| block_in(cfg.model(), outs, b).contains(
        name,
    ) implies joined.contains(name) by {
        let a = choose|a: int|
            0 <= a < cfg.model().blocks.len() && cfg.model().edges.dom().contains((a, b)) && (
            #[trigger] outs[a]).contains(name);
        assert(cfg.block(a).has_successor(b));
        assert(cfg.block(b).has_predecessor(a));
        assert(order.to_set().contains(a as usize));
        let k = choose|k: int| 0 <= k < order.len() && order[k] == a as usize;
        lemma_join_contains(outs, order, order.len() as int, k);
    }
    assert(joined =~= block_in(cfg.model(), outs, b));
}

/// A name of the union over predecessors is a name at one of them.
proof fn lemma_join_member(outs: Seq<Names>, preds: Seq<BlockId>, k: int, name: Seq<char>) -> (j:
    int)
    requires
        0 <= k <= preds.len(),
        join_upto(outs, preds, k).contains(name),
    ensures
        0 <= j < k,
        outs[preds[j] as int].contains(name),
    decreases k,
{
    if outs[preds[k - 1] as int].contains(name) {
        k - 1
    } else {
        lemma_join_member(outs, preds, k - 1, name)
    }
}

/// Whether `state_names` and `state_tags` are the names and the tags of the
/// taint at the end of the blocks `order`, merged in that order, and `order`
/// holds the blocks of `preds`.
pub open spec fn is_join_in_order(
    state_names: Names,
    state_tags: Tags,
    outs: Seq<Vec<Taint>>,
    preds: Set<BlockId>,
    order: Seq<BlockId>,
) -> bool {
    &&& order.to_set() == preds
    &&& state_names == join_upto(outs_names(outs), order, order.len() as int)
    &&& state_tags == join_tags_upto(outs_tags(outs), order, order.len() as int)
}

/// The taint at the start of a block: the taint at the end of its
/// predecessors, merged in the order in which the set hands them out. A
/// name that is tainted at several predecessors keeps the tag of the first.
pub fn join_predecessors<'a>(
    outs: &HashMap<BlockId, Vec<Taint<'a>>>,
    preds: &HashSet<BlockId>,
) -> (r: Vec<Taint<'a>>)
    requires
        is_dense(outs@),
        forall|p: BlockId| #[trigger] preds@.contains(p) ==> p < outs@.len(),
    ensures
        exists|order: Seq<BlockId>| #[trigger]
            is_join_in_order(state_names(r@), state_tags(r@), outs_seq(outs@), preds@, order),
        is_taint_map(r@),
{
    let mut state: Vec<Taint<'a>> = Vec::new();
    assert(state_names(state@) =~= Set::<Seq<char>>::empty());
    assert(state_tags(state@) =~= Map::<Seq<char>, Seq<char>>::empty());
    let handed_out = preds.iter();
    let ghost order = handed_out.remaining().unref();
    for p in it: handed_out
        invariant
            order == it.seq().unref(),
            order.to_set() == preds@,
            is_dense(outs@),
            forall|q: BlockId| #[trigger] preds@.contains(q) ==> q < outs@.len(),
            state_names(state@) == join_upto(outs_names(outs_seq(outs@)), order, it.index()),
            state_tags(state@) == join_tags_upto(outs_tags(outs_seq(outs@)), order, it.index()),
            is_taint_map(state@),
    {
        assert(order[it.index()] == *p);
        assert(order.to_set().contains(*p));
        merge_taint(&mut state, state_at(outs, *p));
    }
    assert(is_join_in_order(
        state_names(state@),
        state_tags(state@),
        outs_seq(outs@),
        preds@,
        order,
    ));
    state
}

/// The taint at the end of block `b`.
pub fn state_at<'b, 'a>(outs: &'b HashMap<BlockId, Vec<Taint<'a>>>, b: BlockId) -> (r: &'b Vec<
    Taint<'a>,
>)
    requires
        outs@.contains_key(b),
    ensures
        *r == outs@[b],
{
    match outs.get(&b) {
        Some(state) => state,
        None => vstd::pervasive::unreached(),
    }
}

/// One sweep over the blocks, last block first: every block is run on the
/// taint at the end of its predecessors, and the taint at its end is
/// replaced if the run taints a name that was not tainted there. Returns
/// whether that happened at some block.
fn sweep<'a>(
    cfg: &ControlFlowGraph<'a>,
    ruleset: &'a RuleSet,
    file_path: &str,
    lines: &Vec<String>,
    outs: &mut HashMap<BlockId, Vec<Taint<'a>>>,
    issues: &mut Vec<Issue>,
) -> (changed: bool)
    requires
        cfg.wf(),
        is_dense(old(outs)@),
        old(outs)@.len() == cfg.size(),
        all_taint_maps(outs_seq(old(outs)@)),
        all_tags_from(outs_seq(old(outs)@), ruleset.taint_sources@),
        sweep_ready(
            cfg.model(),
            ruleset,
            file_path@,
            strings_view(lines@),
            outs_names(outs_seq(old(outs)@)),
            issue_views(old(issues)@),
        ),
    ensures
        is_dense(final(outs)@),
        final(outs)@.len() == cfg.size(),
        all_taint_maps(outs_seq(final(outs)@)),
        all_tags_from(outs_seq(final(outs)@), ruleset.taint_sources@),
        sweep_ready(
            cfg.model(),
            ruleset,
            file_path@,
            strings_view(lines@),
            outs_names(outs_seq(final(outs)@)),
            issue_views(final(issues)@),
        ),
        changed ==> total_size(outs_names(outs_seq(final(outs)@)), cfg.size() as int) >= total_size(
            outs_names(outs_seq(old(outs)@)),
            cfg.size() as int,
        ) + 1,
        !changed ==> outs_names(outs_seq(final(outs)@)) == outs_names(outs_seq(old(outs)@)) && settled_from(
            cfg.model(),
            ruleset,
            file_path@,
            strings_view(lines@),
            outs_names(outs_seq(final(outs)@)),
            issue_views(final(issues)@),
            0,
        ),
{
    let ghost texts = strings_view(lines@);
    let ghost sources = ruleset.taint_sources@;
    let ghost first = outs_names(outs_seq(outs@));
    let n = cfg.blocks.len();
    let mut changed = false;
    let mut b: usize = n;
    while b > 0
        invariant
            cfg.wf(),
            b <= n == cfg.size() == outs@.len(),
            is_dense(outs@),
            texts == strings_view(lines@),
            sources == ruleset.taint_sources@,
            first.len() == n,
            all_taint_maps(outs_seq(outs@)),
            all_tags_from(outs_seq(outs@), sources),
            sweep_ready(
                cfg.model(),
                ruleset,
                file_path@,
                texts,
                outs_names(outs_seq(outs@)),
                issue_views(issues@),
            ),
            changed ==> total_size(outs_names(outs_seq(outs@)), n as int) >= total_size(first, n as int) + 1,
            !changed ==> outs_names(outs_seq(outs@)) == first && settled_from(
                cfg.model(),
                ruleset,
                file_path@,
                texts,
                outs_names(outs_seq(outs@)),
                issue_views(issues@),
                b as int,
            ),
        decreases b,
    {
        b -= 1;
        let ghost names = outs_names(outs_seq(outs@));
        let ghost found = issue_views(issues@);
        let block = cfg.get_block(b);
        assert(block.edges_wf(n as int));
        let in_state = join_predecessors(outs, &block.predecessors);
        proof {
            let order = choose|order: Seq<BlockId>| #[trigger]
                is_join_in_order(
                    state_names(in_state@),
                    state_tags(in_state@),
                    outs_seq(outs@),
                    block.predecessors@,
                    order,
                );
            assert forall|j: int| 0 <= j < order.len() implies (#[trigger] order[j]) < n by {
                assert(order.to_set().contains(order[j]));
            }
            lemma_join_is_block_in(cfg, names, b as int, order);
            assert forall|c: int| 0 <= c < outs_tags(outs_seq(outs@)).len() implies tags_from(
                #[trigger] outs_tags(outs_seq(outs@))[c],
                sources,
            ) by {
                assert(tags_from(state_tags(outs_seq(outs@)[c]@), sources));
            }
            lemma_join_tags_from(outs_tags(outs_seq(outs@)), order, order.len() as int, sources);
            lemma_tags_upto_from(
                nodes_view(block.statements@),
                sources,
                state_tags(in_state@),
                block.statements@.len() as int,
            );
        }
        assert(state_names(in_state@) == block_in(cfg.model(), names, b as int));
        let new_out = run_block(&block.statements, ruleset, in_state, file_path, lines, issues);
        assert(nodes_view(block.statements@) == block_statements(cfg.model(), b as int));
        assert(state_names(new_out@) == block_out(cfg.model(), sources, names, b as int));
        let ghost added = block_findings(
            ruleset,
            file_path@,
            texts,
            block_statements(cfg.model(), b as int),
            block_in(cfg.model(), names, b as int),
            block.statements@.len() as int,
        );
        let ghost found_now = issue_views(issues@);
        assert(found_now == found + added);
        assert(names[b as int] == state_names(outs_seq(outs@)[b as int]@));
        proof {
            assert forall|issue: IssueView| #[trigger] found_now.contains(issue) implies reported(
                cfg.model(),
                ruleset,
                file_path@,
                texts,
                names,
                issue,
            ) by {
                let j = choose|j: int| 0 <= j < found_now.len() && found_now[j] == issue;
                if j < found.len() {
                    assert(found[j] == issue);
                    assert(found.contains(issue));
                } else {
                    assert(added[j - found.len()] == issue);
                    assert(added.contains(issue));
                    lemma_block_findings(
                        ruleset,
                        file_path@,
                        texts,
                        block_statements(cfg.model(), b as int),
                        block_in(cfg.model(), names, b as int),
                        block.statements@.len() as int,
                        issue,
                    );
                    assert(reported_in_block(
                        ruleset,
                        file_path@,
                        texts,
                        block_statements(cfg.model(), b as int),
                        block_in(cfg.model(), names, b as int),
                        issue,
                    ));
                }
            }
            assert forall|issue: IssueView| found.contains(issue) implies found_now.contains(
                issue,
            ) by {
                let j = choose|j: int| 0 <= j < found.len() && found[j] == issue;
                assert(found_now[j] == issue);
            }
        }
        if !taints_within(&new_out, state_at(outs, b)) {
            let ghost held = outs@;
            let ghost fresh = new_out;
            outs.insert(b, new_out);
            proof {
                assert(outs@.dom() =~= held.dom());
                assert(outs_seq(outs@) =~= outs_seq(held).update(b as int, fresh));
                assert(is_taint_map(fresh@));
                assert(tags_from(state_tags(fresh@), sources));
                assert forall|c: int| 0 <= c < outs_seq(outs@).len() implies is_taint_map(
                    (#[trigger] outs_seq(outs@)[c])@,
                ) by {
                    if c != b {
                        assert(outs_seq(outs@)[c] == outs_seq(held)[c]);
                    }
                }
                assert forall|c: int| 0 <= c < outs_seq(outs@).len() implies tags_from(
                    state_tags((#[trigger] outs_seq(outs@)[c])@),
                    sources,
                ) by {
                    if c != b {
                        assert(outs_seq(outs@)[c] == outs_seq(held)[c]);
                    }
                }
            }
            changed = true;
            proof {
                let grown = block_out(cfg.model(), sources, names, b as int);
                let next = names.update(b as int, grown);
                assert(outs_names(outs_seq(outs@)) =~= next);
                lemma_update_step(cfg.model(), sources, names, b as int);
                assert forall|issue: IssueView| #[trigger]
                    found_now.contains(issue) implies reported(
                    cfg.model(),
                    ruleset,
                    file_path@,
                    texts,
                    next,
                    issue,
                ) by {
                    lemma_reported_monotone(
                        cfg.model(),
                        ruleset,
                        file_path@,
                        texts,
                        names,
                        next,
                        issue,
                    );
                }
                let name = choose|name: Seq<char>|
                    grown.contains(name) && !names[b as int].contains(name);
                seq_to_set_is_finite(all_targets(cfg.model().blocks, n as int));
                lemma_set_subset_finite(assigned_names(cfg.model()), grown);
                assert(names[b as int].subset_of(grown));
                lemma_grown(names[b as int], grown, name);
                lemma_total_size_update(names, b as int, grown, n as int);
            }
        } else {
            proof {
                assert(names[b as int].subset_of(block_out(cfg.model(), sources, names, b as int)));
                assert(names[b as int] =~= block_out(cfg.model(), sources, names, b as int));
                if !changed {
                    assert forall|c: int, issue: IssueView|
                        b <= c < names.len() && reported_in_block(
                            ruleset,
                            file_path@,
                            texts,
                            #[trigger] block_statements(cfg.model(), c),
                            block_in(cfg.model(), names, c),
                            issue,
                        ) implies #[trigger] found_now.contains(issue) by {
                        if c == b {
                            lemma_block_findings(
                                ruleset,
                                file_path@,
                                texts,
                                block_statements(cfg.model(), b as int),
                                block_in(cfg.model(), names, b as int),
                                block.statements@.len() as int,
                                issue,
                            );
                            assert(added.contains(issue));
                            let j = choose|j: int| 0 <= j < added.len() && added[j] == issue;
                            assert(found_now[found.len() + j] == issue);
                        } else {
                            assert(found.contains(issue));
                        }
                    }
                }
            }
        }
    }
    changed
}

/// What the data flow of one function found: the taint at the end of each
/// block, the findings, and the number of sweeps over the blocks that it
/// took.
#[derive(Debug)]
pub struct TaintSolution<'a> {
    pub outs: HashMap<BlockId, Vec<Taint<'a>>>,
    pub issues: Vec<Issue>,
    pub sweeps: usize,
}

/// Runs the data flow of `cfg` to its least fixpoint.
///
/// The issues found are exactly those that are reported at the least
/// fixpoint. The taint at the end of each block is a map from the tainted
/// names to ids of source rules. Every sweep but the last taints at least one more name at some
/// block, so the number of sweeps is at most one more than the number of
/// blocks times the number of assigned names.
pub fn solve_taint<'a>(
    cfg: &ControlFlowGraph<'a>,
    ruleset: &'a RuleSet,
    file_path: &str,
    lines: &Vec<String>,
) -> (r: TaintSolution<'a>)
    requires
        cfg.wf(),
    ensures
        is_dense(r.outs@),
        is_least_fixpoint(cfg.model(), ruleset.taint_sources@, outs_names(outs_seq(r.outs@))),
        all_taint_maps(outs_seq(r.outs@)),
        all_tags_from(outs_seq(r.outs@), ruleset.taint_sources@),
        forall|issue: IssueView|
            issue_views(r.issues@).contains(issue) <==> reported(
                cfg.model(),
                ruleset,
                file_path@,
                strings_view(lines@),
                outs_names(outs_seq(r.outs@)),
                issue,
            ),
        r.sweeps <= cfg.size() * assigned_names(cfg.model()).len() + 1,
{
    let ghost texts = strings_view(lines@);
    let ghost sources = ruleset.taint_sources@;
    let ghost bound = assigned_names(cfg.model());
    let n = cfg.blocks.len();
    let mut outs: HashMap<BlockId, Vec<Taint<'a>>> = HashMap::new();
    let mut k: usize = 0;
    while k < n
        invariant
            k <= n,
            outs@.len() == k,
            is_dense(outs@),
            forall|i: BlockId| i < k ==> (#[trigger] outs@[i])@.len() == 0,
        decreases n - k,
    {
        let ghost held = outs@;
        outs.insert(k, Vec::new());
        assert(outs@.dom() =~= held.dom().insert(k));
        k += 1;
    }
    let mut issues: Vec<Issue> = Vec::new();
    proof {
        let names = outs_names(outs_seq(outs@));
        assert forall|i: int| 0 <= i < n implies (#[trigger] names[i]) =~= Set::<
            Seq<char>,
        >::empty() by {
            assert(outs_seq(outs@)[i]@.len() == 0);
        }
        assert(pre_fixpoint(cfg.model(), sources, names));
        assert forall|other: Seq<Names>| #[trigger] is_fixpoint(cfg.model(), sources, other) implies below(
            names,
            other,
        ) by {
            assert forall|i: int| 0 <= i < names.len() implies (#[trigger] names[i]).subset_of(
                other[i],
            ) by {}
        }
        assert(within(names, bound));
        assert(issue_views(issues@) =~= Seq::<IssueView>::empty());
        lemma_zero_size(names, n as int);
        seq_to_set_is_finite(all_targets(cfg.model().blocks, n as int));
        lemma_total_size_bound(names, bound, n as int);
    }
    let mut changed = true;
    let mut sweeps: usize = 0;
    while changed
        invariant
            cfg.wf(),
            n == cfg.size() == outs@.len(),
            is_dense(outs@),
            texts == strings_view(lines@),
            sources == ruleset.taint_sources@,
            bound == assigned_names(cfg.model()),
            bound.finite(),
            all_taint_maps(outs_seq(outs@)),
            all_tags_from(outs_seq(outs@), sources),
            sweep_ready(
                cfg.model(),
                ruleset,
                file_path@,
                texts,
                outs_names(outs_seq(outs@)),
                issue_views(issues@),
            ),
            total_size(outs_names(outs_seq(outs@)), n as int) <= n * bound.len(),
            !changed ==> settled_from(
                cfg.model(),
                ruleset,
                file_path@,
                texts,
                outs_names(outs_seq(outs@)),
                issue_views(issues@),
                0,
            ),
            sweeps <= total_size(outs_names(outs_seq(outs@)), n as int) + (if changed {
                0int
            } else {
                1int
            }),
        decreases
                n * bound.len() - total_size(outs_names(outs_seq(outs@)), n as int) + (if changed {
                    1int
                } else {
                    0int
                }),
    {
        changed = sweep(cfg, ruleset, file_path, lines, &mut outs, &mut issues);
        proof {
            lemma_total_size_bound(outs_names(outs_seq(outs@)), bound, n as int);
        }
        if sweeps < usize::MAX {
            sweeps += 1;
        }
    }
    proof {
        let names = outs_names(outs_seq(outs@));
        assert(is_fixpoint(cfg.model(), sources, names));
        assert forall|issue: IssueView|
            reported(cfg.model(), ruleset, file_path@, texts, names, issue) implies issue_views(
            issues@,
        ).contains(issue) by {
            let b = choose|b: int|
                0 <= b < cfg.size() && reported_in_block(
                    ruleset,
                    file_path@,
                    texts,
                    #[trigger] block_statements(cfg.model(), b),
                    block_in(cfg.model(), names, b),
                    issue,
                );
            assert(reported_in_block(
                ruleset,
                file_path@,
                texts,
                block_statements(cfg.model(), b),
                block_in(cfg.model(), names, b),
                issue,
            ));
        }
    }
    TaintSolution { outs, issues, sweeps }
}

proof fn lemma_zero_size(outs: Seq<Names>, k: int)
    requires
        0 <= k <= outs.len(),
        forall|i: int| 0 <= i < outs.len() ==> (#[trigger] outs[i]) == Set::<Seq<char>>::empty(),
    ensures
        total_size(outs, k) == 0,
    decreases k,
{
    if k > 0 {
        lemma_zero_size(outs, k - 1);
        assert(outs[k - 1] == Set::<Seq<char>>::empty());
    }
}

/// The findings of the taint tracking within one function.
///
/// An issue is found exactly if it is reported at the least fixpoint of the
/// data flow of `cfg`: at a statement that hands a name to a sink, where the
/// name is tainted on some path through the graph.
pub fn analyze_function<'a>(
    cfg: &ControlFlowGraph<'a>,
    ruleset: &'a RuleSet,
    file_path: &str,
    content: &str,
) -> (issues: Vec<Issue>)
    requires
        cfg.wf(),
    ensures
        is_least_fixpoint(
            cfg.model(),
            ruleset.taint_sources@,
            least_fixpoint(cfg.model(), ruleset.taint_sources@),
        ),
        forall|issue: IssueView|
            issue_views(issues@).contains(issue) <==> reported(
                cfg.model(),
                ruleset,
                file_path@,
                lines_of(content@),
                least_fixpoint(cfg.model(), ruleset.taint_sources@),
                issue,
            ),
{
    let lines = split_lines(content);
    let solution = solve_taint(cfg, ruleset, file_path, &lines);
    proof {
        lemma_least_fixpoint_unique(
            cfg.model(),
            ruleset.taint_sources@,
            outs_names(outs_seq(solution.outs@)),
            least_fixpoint(cfg.model(), ruleset.taint_sources@),
        );
    }
    solution.issues
}

} // verus!
