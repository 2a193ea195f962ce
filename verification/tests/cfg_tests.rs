use pyspector_core::ast_parser::{AstNode, ChildRole};
use pyspector_core::graph::cfg_builder::{build_cfg, build_from_statements};
use pyspector_core::graph::representation::{BasicBlock, BlockId, ControlFlowGraph, EdgeType};

fn stmt(kind: &str, line: isize) -> AstNode {
    AstNode {
        node_type: kind.to_string(),
        lineno: line,
        col_offset: 0,
        children: vec![],
        fields: vec![],
    }
}

fn with_role(mut node: AstNode, role: &str, nodes: Vec<AstNode>) -> AstNode {
    node.children.push(ChildRole { role: role.to_string(), nodes });
    node
}

fn function_of(body: Vec<AstNode>) -> AstNode {
    with_role(stmt("FunctionDef", 1), "body", body)
}

fn successors_of(cfg: &ControlFlowGraph, block: BlockId) -> Vec<(BlockId, EdgeType)> {
    let mut edges: Vec<(BlockId, EdgeType)> =
        cfg.blocks[&block].successors.iter().map(|(to, label)| (*to, *label)).collect();
    edges.sort_by_key(|e| e.0);
    edges
}

fn predecessors_of(cfg: &ControlFlowGraph, block: BlockId) -> Vec<BlockId> {
    let mut ids: Vec<BlockId> = cfg.blocks[&block].predecessors.iter().copied().collect();
    ids.sort();
    ids
}

fn exits_of(cfg: &ControlFlowGraph) -> Vec<BlockId> {
    let mut ids: Vec<BlockId> = cfg.exits.iter().copied().collect();
    ids.sort();
    ids
}

fn edges_of(cfg: &ControlFlowGraph) -> Vec<(BlockId, BlockId, EdgeType)> {
    let mut edges = vec![];
    for block in cfg.blocks.values() {
        for (to, label) in &block.successors {
            edges.push((block.id, *to, *label));
        }
    }
    edges.sort_by_key(|e| (e.0, e.1));
    edges
}

fn lines_in(cfg: &ControlFlowGraph, block: BlockId) -> Vec<isize> {
    cfg.blocks[&block].statements.iter().map(|s| s.lineno).collect()
}

fn assert_consistent(cfg: &ControlFlowGraph) {
    assert!(!cfg.blocks.is_empty());
    assert_eq!(cfg.entry, 0);
    assert!(cfg.blocks[&cfg.entry].predecessors.is_empty());
    assert!(!cfg.exits.is_empty());
    for exit in &cfg.exits {
        assert!(*exit < cfg.blocks.len());
    }
    for (id, block) in &cfg.blocks {
        assert_eq!(block.id, *id);
        assert!(*id < cfg.blocks.len());
        for to in block.successors.keys() {
            assert!(*to < cfg.blocks.len());
            assert!(cfg.blocks[to].predecessors.contains(&block.id));
        }
        for from in &block.predecessors {
            assert!(*from < cfg.blocks.len());
            assert!(cfg.blocks[from].successors.contains_key(&block.id));
        }
    }
}

#[test]
fn new_graph_has_only_the_entry_block() {
    let cfg = ControlFlowGraph::new();
    assert_eq!(cfg.blocks.len(), 1);
    assert_eq!(cfg.entry, 0);
    assert_eq!(cfg.blocks[&0].id, 0);
    assert!(cfg.blocks[&0].statements.is_empty());
    assert!(cfg.blocks[&0].predecessors.is_empty());
    assert!(cfg.blocks[&0].successors.is_empty());
    assert!(cfg.exits.is_empty());
}

#[test]
fn new_block_is_empty() {
    let block = BasicBlock::new(5);
    assert_eq!(block.id, 5);
    assert!(block.statements.is_empty());
    assert!(block.predecessors.is_empty());
    assert!(block.successors.is_empty());
}

#[test]
fn add_block_gives_dense_ids() {
    let mut cfg = ControlFlowGraph::new();
    assert_eq!(cfg.add_block().id, 1);
    assert_eq!(cfg.add_block().id, 2);
    assert_eq!(cfg.new_block(), 3);
    assert_eq!(cfg.blocks.len(), 4);
    assert_eq!(cfg.blocks[&2].id, 2);
}

#[test]
fn add_edge_records_both_directions() {
    let mut cfg = ControlFlowGraph::new();
    cfg.new_block();
    cfg.new_block();
    cfg.add_edge(0, 1, EdgeType::Conditional(true));
    cfg.add_edge(0, 2, EdgeType::Conditional(false));
    cfg.add_edge(1, 2, EdgeType::Unconditional);
    assert_eq!(
        successors_of(&cfg, 0),
        vec![(1, EdgeType::Conditional(true)), (2, EdgeType::Conditional(false))]
    );
    assert_eq!(predecessors_of(&cfg, 1), vec![0]);
    assert_eq!(predecessors_of(&cfg, 2), vec![0, 1]);
    assert_eq!(successors_of(&cfg, 1), vec![(2, EdgeType::Unconditional)]);
}

#[test]
fn add_edge_again_replaces_the_label() {
    let mut cfg = ControlFlowGraph::new();
    cfg.new_block();
    cfg.add_edge(0, 1, EdgeType::Conditional(true));
    cfg.add_edge(0, 1, EdgeType::Unconditional);
    assert_eq!(successors_of(&cfg, 0), vec![(1, EdgeType::Unconditional)]);
    assert_eq!(predecessors_of(&cfg, 1), vec![0]);
}

#[test]
fn self_edge() {
    let mut cfg = ControlFlowGraph::new();
    cfg.new_block();
    cfg.add_edge(1, 1, EdgeType::Unconditional);
    assert_eq!(successors_of(&cfg, 1), vec![(1, EdgeType::Unconditional)]);
    assert_eq!(predecessors_of(&cfg, 1), vec![1]);
}

#[test]
fn exits_hold_each_block_once() {
    let mut cfg = ControlFlowGraph::new();
    cfg.add_exit(0);
    cfg.add_exit(0);
    assert_eq!(exits_of(&cfg), vec![0]);
    assert!(cfg.exits.contains(&0));
    assert!(!cfg.exits.contains(&1));
}

#[test]
fn straight_line_function() {
    let function = function_of(vec![stmt("Assign", 2), stmt("Expr", 3), stmt("Return", 4)]);
    let cfg = build_cfg(&function);
    assert_eq!(cfg.blocks.len(), 1);
    assert_eq!(lines_in(&cfg, 0), vec![2, 3, 4]);
    assert!(edges_of(&cfg).is_empty());
    assert_eq!(exits_of(&cfg), vec![0]);
    assert_consistent(&cfg);
}

#[test]
fn function_without_body() {
    let function = stmt("FunctionDef", 1);
    let cfg = build_cfg(&function);
    assert_eq!(cfg.blocks.len(), 1);
    assert_eq!(exits_of(&cfg), vec![0]);
    assert_consistent(&cfg);
    let nothing = function_of(vec![]);
    let empty = build_cfg(&nothing);
    assert_eq!(empty.blocks.len(), 1);
    assert_eq!(exits_of(&empty), vec![0]);
}

#[test]
fn if_without_else() {
    let branch = with_role(stmt("If", 2), "body", vec![stmt("Expr", 3)]);
    let function = function_of(vec![stmt("Assign", 1), branch, stmt("Expr", 4)]);
    let cfg = build_cfg(&function);
    assert_eq!(cfg.blocks.len(), 3);
    assert_eq!(lines_in(&cfg, 0), vec![1]);
    assert_eq!(lines_in(&cfg, 1), vec![3]);
    assert_eq!(lines_in(&cfg, 2), vec![4]);
    assert_eq!(
        edges_of(&cfg),
        vec![
            (0, 1, EdgeType::Conditional(true)),
            (0, 2, EdgeType::Conditional(false)),
            (1, 2, EdgeType::Unconditional)
        ]
    );
    assert_eq!(exits_of(&cfg), vec![2]);
    assert_consistent(&cfg);
}

#[test]
fn if_with_empty_else_is_if_without_else() {
    let branch = with_role(
        with_role(stmt("If", 2), "body", vec![stmt("Expr", 3)]),
        "orelse",
        vec![],
    );
    let function = function_of(vec![branch]);
    let cfg = build_cfg(&function);
    assert_eq!(cfg.blocks.len(), 3);
    assert_eq!(
        edges_of(&cfg),
        vec![
            (0, 1, EdgeType::Conditional(true)),
            (0, 2, EdgeType::Conditional(false)),
            (1, 2, EdgeType::Unconditional)
        ]
    );
}

#[test]
fn if_with_else() {
    let branch = with_role(
        with_role(stmt("If", 1), "body", vec![stmt("Expr", 2)]),
        "orelse",
        vec![stmt("Expr", 4), stmt("Expr", 5)],
    );
    let function = function_of(vec![branch, stmt("Return", 6)]);
    let cfg = build_cfg(&function);
    assert_eq!(cfg.blocks.len(), 4);
    assert_eq!(lines_in(&cfg, 0), Vec::<isize>::new());
    assert_eq!(lines_in(&cfg, 1), vec![2]);
    assert_eq!(lines_in(&cfg, 2), vec![6]);
    assert_eq!(lines_in(&cfg, 3), vec![4, 5]);
    assert_eq!(
        edges_of(&cfg),
        vec![
            (0, 1, EdgeType::Conditional(true)),
            (0, 3, EdgeType::Conditional(false)),
            (1, 2, EdgeType::Unconditional),
            (3, 2, EdgeType::Unconditional)
        ]
    );
    assert_eq!(exits_of(&cfg), vec![2]);
    assert_consistent(&cfg);
}

#[test]
fn loop_has_back_edge_and_skip_edge() {
    for kind in ["For", "While"] {
        let repeated = with_role(stmt(kind, 1), "body", vec![stmt("Expr", 2)]);
        let function = function_of(vec![repeated, stmt("Return", 3)]);
        let cfg = build_cfg(&function);
        assert_eq!(cfg.blocks.len(), 3);
        assert_eq!(lines_in(&cfg, 1), vec![2]);
        assert_eq!(lines_in(&cfg, 2), vec![3]);
        assert_eq!(
            edges_of(&cfg),
            vec![
                (0, 1, EdgeType::Unconditional),
                (0, 2, EdgeType::Unconditional),
                (1, 1, EdgeType::Unconditional)
            ]
        );
        assert_eq!(exits_of(&cfg), vec![2]);
        assert_consistent(&cfg);
    }
}

#[test]
fn break_leaves_the_innermost_loop() {
    let inner = with_role(stmt("While", 2), "body", vec![stmt("Expr", 3), stmt("Break", 4), stmt("Expr", 5)]);
    let outer = with_role(stmt("For", 1), "body", vec![inner, stmt("Expr", 6)]);
    let function = function_of(vec![outer]);
    let cfg = build_cfg(&function);
    assert_eq!(cfg.blocks.len(), 6);
    assert_eq!(lines_in(&cfg, 3), vec![3]);
    assert_eq!(lines_in(&cfg, 4), vec![6]);
    assert_eq!(lines_in(&cfg, 5), vec![5]);
    assert_eq!(
        edges_of(&cfg),
        vec![
            (0, 1, EdgeType::Unconditional),
            (0, 2, EdgeType::Unconditional),
            (1, 3, EdgeType::Unconditional),
            (1, 4, EdgeType::Unconditional),
            (3, 4, EdgeType::Unconditional),
            (4, 1, EdgeType::Unconditional),
            (5, 3, EdgeType::Unconditional)
        ]
    );
    assert!(cfg.blocks[&5].predecessors.is_empty());
    assert_eq!(exits_of(&cfg), vec![2]);
    assert_consistent(&cfg);
}

#[test]
fn break_outside_a_loop_starts_an_unreachable_block() {
    let function = function_of(vec![stmt("Expr", 1), stmt("Break", 2), stmt("Expr", 3)]);
    let cfg = build_cfg(&function);
    assert_eq!(cfg.blocks.len(), 2);
    assert_eq!(lines_in(&cfg, 0), vec![1]);
    assert_eq!(lines_in(&cfg, 1), vec![3]);
    assert!(edges_of(&cfg).is_empty());
    assert_eq!(exits_of(&cfg), vec![1]);
    assert_consistent(&cfg);
}

#[test]
fn loop_stack_is_handed_back() {
    let body = vec![with_role(stmt("While", 1), "body", vec![stmt("Break", 2)])];
    let mut cfg = ControlFlowGraph::new();
    let after = cfg.new_block();
    let mut loop_exits = vec![after];
    let last = build_from_statements(&mut cfg, &body, 0, &mut loop_exits);
    assert_eq!(loop_exits, vec![after]);
    assert_eq!(last, 3);
    assert_eq!(exits_of(&cfg), vec![3]);
    assert_eq!(cfg.blocks.len(), 5);
    assert_eq!(
        edges_of(&cfg),
        vec![
            (0, 2, EdgeType::Unconditional),
            (0, 3, EdgeType::Unconditional),
            (2, 3, EdgeType::Unconditional),
            (4, 2, EdgeType::Unconditional)
        ]
    );
}

#[test]
fn nested_structures_stay_consistent() {
    let inner_if = with_role(
        with_role(stmt("If", 3), "body", vec![stmt("Break", 4)]),
        "orelse",
        vec![with_role(stmt("For", 6), "body", vec![stmt("Expr", 7)])],
    );
    let lp = with_role(stmt("While", 2), "body", vec![inner_if, stmt("Expr", 8)]);
    let top_if = with_role(stmt("If", 1), "body", vec![lp]);
    let function = function_of(vec![top_if, stmt("Return", 9)]);
    let cfg = build_cfg(&function);
    assert_consistent(&cfg);
    let total: usize = cfg.blocks.values().map(|b| b.statements.len()).sum();
    assert_eq!(total, 3);
}

#[test]
fn branch_and_loop_without_a_body_role() {
    let function = function_of(vec![stmt("If", 1)]);
    let cfg = build_cfg(&function);
    assert_eq!(
        edges_of(&cfg),
        vec![
            (0, 1, EdgeType::Conditional(true)),
            (0, 2, EdgeType::Conditional(false)),
            (1, 2, EdgeType::Unconditional)
        ]
    );
    assert_eq!(exits_of(&cfg), vec![2]);
    let looping = function_of(vec![stmt("While", 1)]);
    let cfg = build_cfg(&looping);
    assert_eq!(
        edges_of(&cfg),
        vec![
            (0, 1, EdgeType::Unconditional),
            (0, 2, EdgeType::Unconditional),
            (1, 1, EdgeType::Unconditional)
        ]
    );
    assert_consistent(&cfg);
}

#[test]
fn statement_list_ends_in_a_terminal_block() {
    let body = vec![stmt("Break", 1), stmt("Pass", 2)];
    let mut cfg = ControlFlowGraph::new();
    let mut loop_exits: Vec<BlockId> = vec![];
    let last = build_from_statements(&mut cfg, &body, 0, &mut loop_exits);
    assert_eq!(last, 1);
    assert!(cfg.blocks[&0].successors.is_empty());
    assert!(cfg.blocks[&0].statements.is_empty());
    assert_eq!(lines_in(&cfg, 1), vec![2]);
    assert!(cfg.blocks[&1].predecessors.is_empty());
    assert!(cfg.exits.contains(&1));
    assert_eq!(cfg.exits.len(), 1);
}
