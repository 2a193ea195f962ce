//! Construction of the control-flow graph of a function.
//!
//! The graph is built by one walk over the statements of the function body.
//! The walk keeps a cursor, the block that the next statement goes to, and a
//! stack of the blocks that follow the loops it is inside of.

use crate::ast_parser::{lemma_role_index, role_index, AstNode};
use crate::graph::representation::{BlockId, CfgModel, ControlFlowGraph, EdgeType};
use vstd::prelude::*;

verus! {

/// Block ids as mathematical integers.
pub open spec fn int_ids(ids: Seq<BlockId>) -> Seq<int> {
    ids.map_values(|b: BlockId| b as int)
}

/// Whether `node` has at least one child under `role`.
pub open spec fn has_children(node: AstNode, role: Seq<char>) -> bool {
    match role_index(node.children@, role, 0) {
        Some(k) => 0 <= k < node.children@.len() && node.children@[k].nodes@.len() > 0,
        None => false,
    }
}

/// The graph and cursor after the statements `stmts[i..]` were added to the
/// graph `m` with the cursor at `current`.
pub open spec fn build_statements(
    m: CfgModel,
    stmts: Seq<AstNode>,
    i: int,
    current: int,
    loop_exits: Seq<int>,
) -> (CfgModel, int)
    decreases stmts, stmts.len() - i,
{
    if 0 <= i < stmts.len() {
        let (m1, c1) = build_statement(m, stmts[i], current, loop_exits);
        build_statements(m1, stmts, i + 1, c1, loop_exits)
    } else {
        (m, current)
    }
}

/// The graph and cursor after the children of `stmt` under `role` were added;
/// a statement without that role adds nothing.
pub open spec fn build_role(
    m: CfgModel,
    stmt: AstNode,
    role: Seq<char>,
    current: int,
    loop_exits: Seq<int>,
) -> (CfgModel, int)
    decreases stmt, 0int,
{
    match role_index(stmt.children@, role, 0) {
        Some(k) => if 0 <= k < stmt.children@.len() {
            build_statements(m, stmt.children@[k].nodes@, 0, current, loop_exits)
        } else {
            (m, current)
        },
        None => (m, current),
    }
}

/// The graph and cursor after one statement was added.
///
/// - `If` allocates a block for the body and a merge block, and a block for
///   the `orelse` branch if that branch has statements; otherwise the false
///   edge leads to the merge block. Both branches end in an edge to the
///   merge block, which becomes the cursor.
/// - `For` and `While` allocate a block for the body and a block after the
///   loop. The body is entered from the cursor, ends in a back edge to its
///   first block, and may be skipped by an edge from the cursor to the block
///   after the loop, which becomes the cursor.
/// - `Break` adds an edge to the block after the innermost loop, if there is
///   one, and moves the cursor to a fresh block that nothing leads to.
/// - Any other statement is appended to the block at the cursor.
pub open spec fn build_statement(
    m: CfgModel,
    stmt: AstNode,
    current: int,
    loop_exits: Seq<int>,
) -> (CfgModel, int)
    decreases stmt, 1int,
{
    let next = m.blocks.len() as int;
    if stmt.node_type@ == "If"@ {
        let if_body = next;
        let merge = next + 1;
        let has_else = has_children(stmt, "orelse"@);
        let else_body = if has_else {
            next + 2
        } else {
            merge
        };
        let m1 = if has_else {
            m.with_block().with_block().with_block()
        } else {
            m.with_block().with_block()
        };
        let m2 = m1.with_edge(current, if_body, EdgeType::Conditional(true)).with_edge(
            current,
            else_body,
            EdgeType::Conditional(false),
        );
        let (m3, end_if) = build_role(m2, stmt, "body"@, if_body, loop_exits);
        let m4 = m3.with_edge(end_if, merge, EdgeType::Unconditional);
        if has_else {
            let (m5, end_else) = build_role(m4, stmt, "orelse"@, else_body, loop_exits);
            (m5.with_edge(end_else, merge, EdgeType::Unconditional), merge)
        } else {
            (m4, merge)
        }
    } else if stmt.node_type@ == "For"@ || stmt.node_type@ == "While"@ {
        let loop_body = next;
        let after_loop = next + 1;
        let m1 = m.with_block().with_block().with_edge(
            current,
            loop_body,
            EdgeType::Unconditional,
        );
        let (m2, end_body) = build_role(m1, stmt, "body"@, loop_body, loop_exits.push(after_loop));
        (
            m2.with_edge(end_body, loop_body, EdgeType::Unconditional).with_edge(
                current,
                after_loop,
                EdgeType::Unconditional,
            ),
            after_loop,
        )
    } else if stmt.node_type@ == "Break"@ {
        let m1 = if loop_exits.len() > 0 {
            m.with_edge(current, loop_exits.last(), EdgeType::Unconditional)
        } else {
            m
        };
        (m1.with_block(), next)
    } else {
        (m.with_statement(current, stmt), current)
    }
}

/// The control-flow graph of a function definition: the graph that the walk
/// over its `body` builds from the entry block, with the last cursor as the
/// terminal block.
pub open spec fn cfg_of(function_node: AstNode) -> CfgModel {
    let (m, last) = build_role(CfgModel::initial(), function_node, "body"@, 0, Seq::empty());
    m.with_exit(last)
}

/// What the walk relies on at every step, and preserves: the graph is
/// consistent, the cursor and the blocks after the enclosing loops exist, and
/// no edge leads into the entry block.
pub open spec fn walk_ready(
    cfg: &ControlFlowGraph,
    current: BlockId,
    loop_exits: Seq<BlockId>,
) -> bool {
    &&& cfg.wf()
    &&& current < cfg.size()
    &&& forall|k: int|
        0 <= k < loop_exits.len() ==> 0 < #[trigger] loop_exits[k] < cfg.size()
    &&& cfg.model().entry_has_no_predecessor()
}

/// Adds the edge `from -> to`, which does not lead into the entry block.
fn connect(cfg: &mut ControlFlowGraph, from: BlockId, to: BlockId, edge_type: EdgeType)
    requires
        old(cfg).wf(),
        old(cfg).model().entry_has_no_predecessor(),
        from < old(cfg).size(),
        0 < to < old(cfg).size(),
    ensures
        final(cfg).wf(),
        final(cfg).model().entry_has_no_predecessor(),
        final(cfg).model() == old(cfg).model().with_edge(from as int, to as int, edge_type),
        final(cfg).size() == old(cfg).size(),
{
    cfg.add_edge(from, to, edge_type);
}

/// Allocates a block that nothing leads to yet.
fn allocate(cfg: &mut ControlFlowGraph) -> (id: BlockId)
    requires
        old(cfg).wf(),
        old(cfg).model().entry_has_no_predecessor(),
    ensures
        final(cfg).wf(),
        final(cfg).model().entry_has_no_predecessor(),
        final(cfg).model() == old(cfg).model().with_block(),
        id == old(cfg).size(),
        id > 0,
        final(cfg).size() == old(cfg).size() + 1,
{
    cfg.new_block()
}

/// Adds the children of `stmt` under `role` to the graph, starting at
/// `current`, and returns the cursor after the last of them.
fn build_from_role<'a>(
    cfg: &mut ControlFlowGraph<'a>,
    stmt: &'a AstNode,
    role: &str,
    current: BlockId,
    loop_exits: &mut Vec<BlockId>,
) -> (r: BlockId)
    requires
        walk_ready(old(cfg), current, old(loop_exits)@),
    ensures
        walk_ready(final(cfg), r, final(loop_exits)@),
        final(loop_exits)@ == old(loop_exits)@,
        old(cfg).size() <= final(cfg).size(),
        (final(cfg).model(), r as int) == build_role(
            old(cfg).model(),
            *stmt,
            role@,
            current as int,
            int_ids(old(loop_exits)@),
        ),
    decreases *stmt, 0int,
{
    proof {
        lemma_role_index(stmt.children@, role@, 0);
    }
    match stmt.child_list(role) {
        Some(nodes) => walk_statements(cfg, nodes, current, loop_exits),
        None => current,
    }
}

/// Adds one statement to the graph and returns the cursor after it.
fn add_statement<'a>(
    cfg: &mut ControlFlowGraph<'a>,
    stmt: &'a AstNode,
    current: BlockId,
    loop_exits: &mut Vec<BlockId>,
) -> (r: BlockId)
    requires
        walk_ready(old(cfg), current, old(loop_exits)@),
    ensures
        walk_ready(final(cfg), r, final(loop_exits)@),
        final(loop_exits)@ == old(loop_exits)@,
        old(cfg).size() <= final(cfg).size(),
        (final(cfg).model(), r as int) == build_statement(
            old(cfg).model(),
            *stmt,
            current as int,
            int_ids(old(loop_exits)@),
        ),
    decreases *stmt, 1int,
{
    let ghost exits = int_ids(loop_exits@);
    if stmt.is_kind("If") {
        let if_body = allocate(cfg);
        let merge = allocate(cfg);
        let has_else = match stmt.child_list("orelse") {
            Some(nodes) => nodes.len() > 0,
            None => false,
        };
        proof {
            lemma_role_index(stmt.children@, "orelse"@, 0);
            assert(has_else == has_children(*stmt, "orelse"@));
        }
        let else_body = if has_else {
            allocate(cfg)
        } else {
            merge
        };
        connect(cfg, current, if_body, EdgeType::Conditional(true));
        connect(cfg, current, else_body, EdgeType::Conditional(false));
        let end_if = build_from_role(cfg, stmt, "body", if_body, loop_exits);
        connect(cfg, end_if, merge, EdgeType::Unconditional);
        if has_else {
            let end_else = build_from_role(cfg, stmt, "orelse", else_body, loop_exits);
            connect(cfg, end_else, merge, EdgeType::Unconditional);
        }
        merge
    } else if stmt.is_kind("For") || stmt.is_kind("While") {
        let loop_body = allocate(cfg);
        let after_loop = allocate(cfg);
        connect(cfg, current, loop_body, EdgeType::Unconditional);
        loop_exits.push(after_loop);
        assert(int_ids(loop_exits@) =~= exits.push(after_loop as int));
        let end_body = build_from_role(cfg, stmt, "body", loop_body, loop_exits);
        connect(cfg, end_body, loop_body, EdgeType::Unconditional);
        loop_exits.pop();
        assert(loop_exits@ =~= old(loop_exits)@);
        connect(cfg, current, after_loop, EdgeType::Unconditional);
        after_loop
    } else if stmt.is_kind("Break") {
        let depth = loop_exits.len();
        if depth > 0 {
            let target = loop_exits[depth - 1];
            assert(exits.last() == target as int);
            connect(cfg, current, target, EdgeType::Unconditional);
        }
        allocate(cfg)
    } else {
        cfg.push_statement(current, stmt);
        current
    }
}

/// Adds the statements of one statement list to the graph, starting at
/// `current_block_id`, and returns the cursor after the last of them. The
/// terminal blocks stay as they are.
fn walk_statements<'a>(
    cfg: &mut ControlFlowGraph<'a>,
    stmts: &'a Vec<AstNode>,
    current_block_id: BlockId,
    loop_exits: &mut Vec<BlockId>,
) -> (r: BlockId)
    requires
        walk_ready(old(cfg), current_block_id, old(loop_exits)@),
    ensures
        walk_ready(final(cfg), r, final(loop_exits)@),
        final(loop_exits)@ == old(loop_exits)@,
        old(cfg).size() <= final(cfg).size(),
        (final(cfg).model(), r as int) == build_statements(
            old(cfg).model(),
            stmts@,
            0,
            current_block_id as int,
            int_ids(old(loop_exits)@),
        ),
    decreases stmts@, stmts@.len(),
{
    let ghost exits = int_ids(loop_exits@);
    let ghost goal = build_statements(cfg.model(), stmts@, 0, current_block_id as int, exits);
    let ghost first_len = cfg.size();
    let mut current = current_block_id;
    let mut i: usize = 0;
    while i < stmts.len()
        invariant
            i <= stmts@.len(),
            walk_ready(cfg, current, loop_exits@),
            int_ids(loop_exits@) == exits,
            loop_exits@ == old(loop_exits)@,
            first_len <= cfg.size(),
            goal == build_statements(cfg.model(), stmts@, i as int, current as int, exits),
        decreases stmts@.len() - i,
    {
        current = add_statement(cfg, &stmts[i], current, loop_exits);
        i += 1;
    }
    current
}

/// Adds the statements of one statement list to the graph, starting at
/// `current_block_id`, records the cursor after the last of them as a
/// terminal block, and returns it.
///
/// Statement lists inside the statements of the list add blocks and edges
/// but no terminal blocks of their own. `loop_exits` holds the blocks that
/// follow the loops around the list, innermost last; it is handed back as
/// it was.
pub fn build_from_statements<'a>(
    cfg: &mut ControlFlowGraph<'a>,
    stmts: &'a Vec<AstNode>,
    current_block_id: BlockId,
    loop_exits: &mut Vec<BlockId>,
) -> (r: BlockId)
    requires
        walk_ready(old(cfg), current_block_id, old(loop_exits)@),
    ensures
        walk_ready(final(cfg), r, final(loop_exits)@),
        final(loop_exits)@ == old(loop_exits)@,
        old(cfg).size() <= final(cfg).size(),
        r == build_statements(
            old(cfg).model(),
            stmts@,
            0,
            current_block_id as int,
            int_ids(old(loop_exits)@),
        ).1,
        final(cfg).model() == build_statements(
            old(cfg).model(),
            stmts@,
            0,
            current_block_id as int,
            int_ids(old(loop_exits)@),
        ).0.with_exit(r as int),
        final(cfg).exits@.contains(r),
{
    let last = walk_statements(cfg, stmts, current_block_id, loop_exits);
    cfg.add_exit(last);
    last
}

/// The control-flow graph of the function definition `function_node`.
///
/// The graph is structurally consistent, no edge leads into its entry
/// block, and it has a terminal block: the block at which the walk over the
/// function body ended.
pub fn build_cfg<'a>(function_node: &'a AstNode) -> (cfg: ControlFlowGraph<'a>)
    ensures
        cfg.wf(),
        cfg.model() == cfg_of(*function_node),
        cfg.model().entry_has_no_predecessor(),
        cfg.block(cfg.entry as int).predecessors@ == Set::<BlockId>::empty(),
        exists|b: BlockId| cfg.exits@.contains(b),
{
    let mut cfg = ControlFlowGraph::new();
    let mut loop_exits: Vec<BlockId> = Vec::new();
    assert(int_ids(loop_exits@) =~= Seq::<int>::empty());
    let last = build_from_role(&mut cfg, function_node, "body", 0, &mut loop_exits);
    cfg.add_exit(last);
    proof {
        let entry = cfg.block(0);
        assert forall|a: BlockId| !entry.predecessors@.contains(a) by {
            if entry.predecessors@.contains(a) {
                assert(entry.edges_wf(cfg.size() as int));
                assert(entry.has_predecessor(a as int));
                assert(cfg.block(a as int).has_successor(0));
                assert(cfg.model().edges.dom().contains((a as int, 0int)));
            }
        }
        assert(entry.predecessors@ =~= Set::<BlockId>::empty());
        assert(cfg.exits@.contains(last));
    }
    cfg
}

} // verus!
