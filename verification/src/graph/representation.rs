//! Basic blocks and control-flow graphs.
//!
//! Blocks refer to each other by dense integer ids: a graph with `n` blocks
//! holds the blocks `0` to `n - 1`, and `0` is the entry block. A block
//! holds the set of its predecessors and the map from its successors to the
//! labels of the edges.

use crate::ast_parser::{nodes_view, AstNode};
use std::collections::{HashMap, HashSet};
use vstd::prelude::*;

verus! {

pub type BlockId = usize;

/// The label of an edge between two blocks.
#[derive(Debug, Clone, Copy, PartialEq, Eq, Structural)]
pub enum EdgeType {
    Unconditional,
    Conditional(bool),
}

/// A straight-line run of statements with its incoming and outgoing edges.
#[derive(Debug)]
pub struct BasicBlock<'a> {
    pub id: BlockId,
    pub statements: Vec<&'a AstNode>,
    pub predecessors: HashSet<BlockId>,
    pub successors: HashMap<BlockId, EdgeType>,
}

/// The control-flow graph of one function.
#[derive(Debug)]
pub struct ControlFlowGraph<'a> {
    pub blocks: HashMap<BlockId, BasicBlock<'a>>,
    pub entry: BlockId,
    pub exits: HashSet<BlockId>,
}

/// A control-flow graph as a mathematical object: the statements of each
/// block, the labelled edges, and the terminal blocks.
#[verifier::ext_equal]
pub struct CfgModel {
    pub blocks: Seq<Seq<AstNode>>,
    pub edges: Map<(int, int), EdgeType>,
    pub exits: Set<int>,
}

impl CfgModel {
    /// The graph that holds the empty entry block and nothing else.
    pub open spec fn initial() -> CfgModel {
        CfgModel { blocks: seq![Seq::empty()], edges: Map::empty(), exits: Set::empty() }
    }

    /// This graph with one more block, empty and unconnected.
    pub open spec fn with_block(self) -> CfgModel {
        CfgModel { blocks: self.blocks.push(Seq::empty()), ..self }
    }

    /// This graph with an edge from `from` to `to`; an edge that is already
    /// there takes the new label.
    pub open spec fn with_edge(self, from: int, to: int, label: EdgeType) -> CfgModel {
        CfgModel { edges: self.edges.insert((from, to), label), ..self }
    }

    /// This graph with `stmt` appended to block `block`.
    pub open spec fn with_statement(self, block: int, stmt: AstNode) -> CfgModel {
        CfgModel { blocks: self.blocks.update(block, self.blocks[block].push(stmt)), ..self }
    }

    /// This graph with `block` among its terminal blocks.
    pub open spec fn with_exit(self, block: int) -> CfgModel {
        CfgModel { exits: self.exits.insert(block), ..self }
    }

    /// Whether no edge leads into block `0`.
    pub open spec fn entry_has_no_predecessor(self) -> bool {
        forall|e: (int, int)| self.edges.dom().contains(e) ==> e.1 != 0
    }
}

/// Whether `id` is a block id: a number that a `BlockId` can hold.
pub open spec fn is_block_id(id: int) -> bool {
    0 <= id <= usize::MAX
}

impl<'a> BasicBlock<'a> {
    /// An empty block with the given id.
    pub fn new(id: BlockId) -> (r: Self)
        ensures
            r.id == id,
            r.statements@.len() == 0,
            r.predecessors@ == Set::<BlockId>::empty(),
            r.successors@ == Map::<BlockId, EdgeType>::empty(),
    {
        BasicBlock {
            id,
            statements: Vec::new(),
            predecessors: HashSet::new(),
            successors: HashMap::new(),
        }
    }

    /// Whether this block has an edge to `to`.
    pub open spec fn has_successor(&self, to: int) -> bool {
        is_block_id(to) && self.successors@.contains_key(to as usize)
    }

    /// Whether this block records an edge from `from`.
    pub open spec fn has_predecessor(&self, from: int) -> bool {
        is_block_id(from) && self.predecessors@.contains(from as usize)
    }

    /// The label of the edge to `to`, if there is such an edge.
    pub open spec fn edge_label(&self, to: int) -> Option<EdgeType> {
        if self.has_successor(to) {
            Some(self.successors@[to as usize])
        } else {
            None
        }
    }

    /// Whether the edges of this block lead to and come from blocks below
    /// `len` only.
    pub open spec fn edges_wf(&self, len: int) -> bool {
        &&& forall|k: BlockId| #[trigger] self.predecessors@.contains(k) ==> k < len
        &&& forall|k: BlockId| #[trigger] self.successors@.contains_key(k) ==> k < len
    }
}

impl<'a> ControlFlowGraph<'a> {
    /// The number of blocks.
    pub open spec fn size(&self) -> nat {
        self.blocks@.len()
    }

    /// The block with the id `id`.
    pub open spec fn block(&self, id: int) -> BasicBlock<'a> {
        self.blocks@[id as usize]
    }

    /// Structural consistency: the graph holds exactly the blocks with the
    /// ids below its size, the entry block is block `0`, every block is held
    /// under its id, every id that an edge or the set of terminal blocks
    /// names exists, and `b` is a successor of `a` exactly when `a` is a
    /// predecessor of `b`.
    pub open spec fn wf(&self) -> bool {
        &&& self.size() >= 1
        &&& self.entry == 0
        &&& forall|k: BlockId| #[trigger] self.blocks@.contains_key(k) <==> k < self.size()
        &&& forall|i: int| 0 <= i < self.size() ==> (#[trigger] self.block(i)).id == i
        &&& forall|i: int|
            0 <= i < self.size() ==> (#[trigger] self.block(i)).edges_wf(self.size() as int)
        &&& forall|a: int, b: int|
            #![trigger self.block(a).has_successor(b)]
            #![trigger self.block(b).has_predecessor(a)]
            0 <= a < self.size() && 0 <= b < self.size() ==> (self.block(a).has_successor(b)
                <==> self.block(b).has_predecessor(a))
        &&& forall|k: BlockId| #[trigger] self.exits@.contains(k) ==> k < self.size()
    }

    /// The graph that this value represents.
    pub open spec fn model(&self) -> CfgModel {
        CfgModel {
            blocks: Seq::new(self.size(), |i: int| nodes_view(self.block(i).statements@)),
            edges: Map::new(
                |e: (int, int)| 0 <= e.0 < self.size() && self.block(e.0).has_successor(e.1),
                |e: (int, int)| self.block(e.0).edge_label(e.1)->0,
            ),
            exits: Set::new(|b: int| is_block_id(b) && self.exits@.contains(b as usize)),
        }
    }

    /// A graph with the empty entry block and nothing else.
    pub fn new() -> (r: Self)
        ensures
            r.wf(),
            r.model() == CfgModel::initial(),
    {
        let mut blocks: HashMap<BlockId, BasicBlock<'a>> = HashMap::new();
        blocks.insert(0, BasicBlock::new(0));
        let r = ControlFlowGraph { blocks, entry: 0, exits: HashSet::new() };
        proof {
            assert(r.blocks@.dom() =~= set![0usize]);
            assert(nodes_view(r.block(0).statements@) =~= Seq::<AstNode>::empty());
            assert(r.model().blocks =~= CfgModel::initial().blocks);
            assert(r.model().edges =~= CfgModel::initial().edges);
            assert(r.model().exits =~= CfgModel::initial().exits);
        }
        r
    }

    /// The block with the id `id`.
    pub fn get_block(&self, id: BlockId) -> (r: &BasicBlock<'a>)
        requires
            self.blocks@.contains_key(id),
        ensures
            *r == self.block(id as int),
    {
        match self.blocks.get(&id) {
            Some(block) => block,
            None => vstd::pervasive::unreached(),
        }
    }

    /// Appends an empty block whose id is the number of blocks so far.
    pub fn add_block(&mut self) -> (ret: &mut BasicBlock<'a>)
        ensures
            ret.id == old(self).size(),
            ret.statements@.len() == 0,
            ret.predecessors@ == Set::<BlockId>::empty(),
            ret.successors@ == Map::<BlockId, EdgeType>::empty(),
            final(self).blocks@ == old(self).blocks@.insert(ret.id, *final(ret)),
            final(self).entry == old(self).entry,
            final(self).exits == old(self).exits,
    {
        let new_id = self.blocks.len();
        self.blocks.entry(new_id).insert_entry(BasicBlock::new(new_id)).into_mut()
    }

    /// Appends an empty block and returns its id.
    pub fn new_block(&mut self) -> (id: BlockId)
        requires
            old(self).wf(),
        ensures
            final(self).wf(),
            final(self).model() == old(self).model().with_block(),
            id == old(self).size(),
            final(self).size() == old(self).size() + 1,
    {
        let id = self.add_block().id;
        proof {
            let n = old(self).size() as int;
            assert(!old(self).blocks@.contains_key(id));
            assert(self.blocks@.dom() =~= old(self).blocks@.dom().insert(id));
            assert(self.size() == n + 1);
            assert forall|i: int| 0 <= i < n implies #[trigger] self.block(i) == old(self).block(
                i,
            ) by {
                assert(old(self).blocks@.contains_key(i as usize));
            }
            assert forall|i: int| 0 <= i < n + 1 implies (#[trigger] self.block(i)).edges_wf(
                n + 1,
            ) by {
                if i < n {
                    assert(self.block(i) == old(self).block(i));
                    assert(old(self).block(i).edges_wf(n));
                }
            }
            assert forall|a: int, b: int|
                #![trigger self.block(a).has_successor(b)]
                #![trigger self.block(b).has_predecessor(a)]
                0 <= a < n + 1 && 0 <= b < n + 1 implies (self.block(a).has_successor(b)
                    <==> self.block(b).has_predecessor(a)) by {
                if a < n {
                    assert(self.block(a) == old(self).block(a));
                    assert(old(self).block(a).edges_wf(n));
                }
                if b < n {
                    assert(self.block(b) == old(self).block(b));
                    assert(old(self).block(b).edges_wf(n));
                }
                if a < n && b < n {
                    assert(old(self).block(a).has_successor(b) <==> old(
                        self,
                    ).block(b).has_predecessor(a));
                }
            }
            let target = old(self).model().with_block();
            assert(nodes_view(self.block(n).statements@) =~= Seq::<AstNode>::empty());
            assert(self.model().blocks =~= target.blocks) by {
                assert forall|i: int| 0 <= i < n implies self.model().blocks[i]
                    == target.blocks[i] by {
                    assert(self.block(i) == old(self).block(i));
                }
            }
            assert(self.model().exits =~= target.exits);
            assert forall|e: (int, int)| self.model().edges.dom().contains(e)
                == target.edges.dom().contains(e) by {
                if 0 <= e.0 < n {
                    assert(self.block(e.0) == old(self).block(e.0));
                }
            }
            assert forall|e: (int, int)| self.model().edges.dom().contains(e)
                implies self.model().edges[e] == target.edges[e] by {
                assert(self.block(e.0) == old(self).block(e.0));
            }
            assert(self.model().edges =~= target.edges);
        }
        id
    }

    /// Appends `stmt` to the statements of block `block`.
    pub fn push_statement(&mut self, block: BlockId, stmt: &'a AstNode)
        requires
            old(self).wf(),
            block < old(self).size(),
        ensures
            final(self).wf(),
            final(self).model() == old(self).model().with_statement(block as int, *stmt),
            final(self).size() == old(self).size(),
    {
        let ghost n = self.size() as int;
        let ghost before = nodes_view(self.block(block as int).statements@);
        match self.blocks.remove(&block) {
            Some(held) => {
                let mut held = held;
                held.statements.push(stmt);
                self.blocks.insert(block, held);
            },
            None => {},
        }
        proof {
            assert(self.blocks@.dom() =~= old(self).blocks@.dom());
            assert(nodes_view(self.block(block as int).statements@) =~= before.push(*stmt));
            assert forall|i: int| 0 <= i < n && i != block implies #[trigger] self.block(i)
                == old(self).block(i) by {
                assert(old(self).blocks@.contains_key(i as usize));
            }
            assert forall|i: int| 0 <= i < n implies (#[trigger] self.block(i)).edges_wf(n) by {
                assert(old(self).block(i).edges_wf(n));
            }
            assert forall|a: int, b: int|
                #![trigger self.block(a).has_successor(b)]
                #![trigger self.block(b).has_predecessor(a)]
                0 <= a < n && 0 <= b < n implies (self.block(a).has_successor(b) <==> self.block(
                    b,
                ).has_predecessor(a)) by {
                assert(old(self).block(a).has_successor(b) <==> old(self).block(
                    b,
                ).has_predecessor(a));
            }
            let target = old(self).model().with_statement(block as int, *stmt);
            assert(self.model().blocks =~= target.blocks);
            assert(self.model().exits =~= target.exits);
            assert(self.model().edges =~= target.edges);
        }
    }

    /// Records `block` as a terminal block.
    pub fn add_exit(&mut self, block: BlockId)
        requires
            old(self).wf(),
            block < old(self).size(),
        ensures
            final(self).wf(),
            final(self).model() == old(self).model().with_exit(block as int),
            final(self).blocks@ == old(self).blocks@,
            final(self).exits@ == old(self).exits@.insert(block),
    {
        self.exits.insert(block);
        proof {
            let n = self.size() as int;
            assert(self.blocks@ == old(self).blocks@);
            assert forall|i: int| 0 <= i < n implies (#[trigger] self.block(i)).id == i by {
                assert(self.block(i) == old(self).block(i));
            }
            assert forall|i: int| 0 <= i < n implies (#[trigger] self.block(i)).edges_wf(n) by {
                assert(old(self).block(i).edges_wf(n));
            }
            assert forall|a: int, b: int|
                #![trigger self.block(a).has_successor(b)]
                #![trigger self.block(b).has_predecessor(a)]
                0 <= a < n && 0 <= b < n implies (self.block(a).has_successor(b) <==> self.block(
                    b,
                ).has_predecessor(a)) by {
                assert(old(self).block(a).has_successor(b) <==> old(self).block(
                    b,
                ).has_predecessor(a));
            }
            let target = old(self).model().with_exit(block as int);
            assert(self.model().blocks =~= target.blocks);
            assert(self.model().edges =~= target.edges);
            assert(self.model().exits =~= target.exits);
        }
    }

    /// Adds the edge `from -> to` with the given label, in both directions:
    /// `to` becomes a successor of `from` and `from` a predecessor of `to`.
    /// An edge that is already there takes the new label.
    pub fn add_edge(&mut self, from: BlockId, to: BlockId, edge_type: EdgeType)
        requires
            old(self).wf(),
            from < old(self).size(),
            to < old(self).size(),
        ensures
            final(self).wf(),
            final(self).model() == old(self).model().with_edge(from as int, to as int, edge_type),
            final(self).size() == old(self).size(),
            final(self).exits == old(self).exits,
    {
        let ghost len = self.size() as int;
        match self.blocks.remove(&from) {
            Some(held) => {
                let mut held = held;
                held.successors.insert(to, edge_type);
                self.blocks.insert(from, held);
            },
            None => {},
        }
        let ghost mid = self.blocks@;
        proof {
            assert(mid.dom() =~= old(self).blocks@.dom());
        }
        match self.blocks.remove(&to) {
            Some(held) => {
                let mut held = held;
                held.predecessors.insert(from);
                self.blocks.insert(to, held);
            },
            None => {},
        }
        proof {
            assert(self.blocks@.dom() =~= old(self).blocks@.dom());
            assert forall|i: int| 0 <= i < len implies {
                &&& (#[trigger] self.block(i)).id == old(self).block(i).id
                &&& self.block(i).statements == old(self).block(i).statements
                &&& self.block(i).successors@ == if i == from {
                    old(self).block(i).successors@.insert(to, edge_type)
                } else {
                    old(self).block(i).successors@
                }
                &&& self.block(i).predecessors@ == if i == to {
                    old(self).block(i).predecessors@.insert(from)
                } else {
                    old(self).block(i).predecessors@
                }
            } by {
                assert(old(self).blocks@.contains_key(i as usize));
                assert(mid.contains_key(i as usize));
            }
            assert forall|i: int| 0 <= i < len implies (#[trigger] self.block(i)).edges_wf(
                len,
            ) by {
                assert(old(self).block(i).edges_wf(len));
            }
            assert forall|a: int, b: int|
                #![trigger self.block(a).has_successor(b)]
                #![trigger self.block(b).has_predecessor(a)]
                0 <= a < len && 0 <= b < len implies (self.block(a).has_successor(b)
                    <==> self.block(b).has_predecessor(a)) by {
                assert(old(self).block(a).has_successor(b) <==> old(self).block(
                    b,
                ).has_predecessor(a));
            }
            assert(self.model().blocks =~= old(self).model().blocks);
            assert(self.model().exits =~= old(self).model().exits);
            let target = old(self).model().with_edge(from as int, to as int, edge_type);
            assert forall|e: (int, int)| self.model().edges.dom().contains(e)
                == target.edges.dom().contains(e) by {}
            assert forall|e: (int, int)| self.model().edges.dom().contains(e)
                implies self.model().edges[e] == target.edges[e] by {}
            assert(self.model().edges =~= target.edges);
        }
    }
}

} // verus!
