//! The syntax tree of a parsed source file.
//!
//! A node is one record whatever its grammatical category: the category is
//! the `node_type` tag. Children hang under named roles and scalar
//! attributes under named fields; both are kept in the order in which they
//! were supplied, and a name is looked up by its first entry. A tree that is
//! built with [`AstNode::new`], [`AstNode::set_children`] and
//! [`AstNode::set_field`] is well formed: no node holds a role or a field
//! name twice.

use vstd::prelude::*;
use vstd::string::*;

verus! {

/// The value of a field of a syntax node.
#[derive(Debug)]
pub enum FieldValue {
    /// No value.
    Null,
    /// A text.
    Str(String),
    /// A truth value.
    Bool(bool),
    /// A number, held as its decimal text.
    Number(String),
    /// A value that is not a scalar; it compares equal to nothing.
    Composite,
}

/// A named field of a syntax node.
#[derive(Debug)]
pub struct Field {
    pub name: String,
    pub value: FieldValue,
}

/// The children of a syntax node under one role, in source order.
#[derive(Debug)]
pub struct ChildRole {
    pub role: String,
    pub nodes: Vec<AstNode>,
}

/// One node of a syntax tree.
#[derive(Debug)]
pub struct AstNode {
    pub node_type: String,
    pub lineno: isize,
    pub col_offset: isize,
    pub children: Vec<ChildRole>,
    pub fields: Vec<Field>,
}

/// A source file as the host supplies it: its path, its text, and its syntax
/// tree if it could be parsed.
#[derive(Debug)]
pub struct PythonFile {
    pub file_path: String,
    pub content: String,
    pub ast: Option<AstNode>,
}

impl PythonFile {
    /// A source file record; `ast` is `None` when the file did not parse.
    pub fn new(file_path: String, content: String, ast: Option<AstNode>) -> (r: Self)
        ensures
            r.file_path == file_path,
            r.content == content,
            r.ast == ast,
    {
        PythonFile { file_path, content, ast }
    }
}

/// Whether no role occurs twice among `roles`.
pub open spec fn distinct_roles(roles: Seq<ChildRole>) -> bool {
    forall|i: int, j: int|
        0 <= i < j < roles.len() ==> (#[trigger] roles[i]).role@ != (#[trigger] roles[j]).role@
}

/// Whether no name occurs twice among `fields`.
pub open spec fn distinct_fields(fields: Seq<Field>) -> bool {
    forall|i: int, j: int|
        0 <= i < j < fields.len() ==> (#[trigger] fields[i]).name@ != (#[trigger] fields[j]).name@
}

/// Whether the children and the fields of `node`, and of every node below
/// it, are maps: no role and no field name occurs twice at a node.
pub open spec fn well_formed(node: AstNode) -> bool
    decreases node,
{
    &&& distinct_roles(node.children@)
    &&& distinct_fields(node.fields@)
    &&& forall|i: int, j: int|
        0 <= i < node.children@.len() && 0 <= j < node.children@[i].nodes@.len()
            ==> well_formed(#[trigger] node.children@[i].nodes@[j])
}

/// Whether every node of `nodes` is well formed.
pub open spec fn all_well_formed(nodes: Seq<AstNode>) -> bool {
    forall|j: int| 0 <= j < nodes.len() ==> well_formed(#[trigger] nodes[j])
}

/// Position of the first entry at or after `i` whose role is `role`.
pub open spec fn role_index(roles: Seq<ChildRole>, role: Seq<char>, i: int) -> Option<int>
    decreases roles.len() - i,
{
    if i < 0 || i >= roles.len() {
        None
    } else if roles[i].role@ == role {
        Some(i)
    } else {
        role_index(roles, role, i + 1)
    }
}

/// The children of `node` under `role`, if the node has that role.
pub open spec fn children_of(node: AstNode, role: Seq<char>) -> Option<Seq<AstNode>> {
    match role_index(node.children@, role, 0) {
        Some(i) => Some(node.children@[i].nodes@),
        None => None,
    }
}

/// The first child of `node` under `role`, if there is one.
pub open spec fn first_child_of(node: AstNode, role: Seq<char>) -> Option<AstNode> {
    match children_of(node, role) {
        Some(nodes) => if nodes.len() > 0 {
            Some(nodes[0])
        } else {
            None
        },
        None => None,
    }
}

/// Position of the first entry at or after `i` whose name is `name`.
pub open spec fn field_index(fields: Seq<Field>, name: Seq<char>, i: int) -> Option<int>
    decreases fields.len() - i,
{
    if i < 0 || i >= fields.len() {
        None
    } else if fields[i].name@ == name {
        Some(i)
    } else {
        field_index(fields, name, i + 1)
    }
}

/// The value of the field `name` of `node`, if the node has that field.
pub open spec fn field_of(node: AstNode, name: Seq<char>) -> Option<FieldValue> {
    match field_index(node.fields@, name, 0) {
        Some(i) => Some(node.fields@[i].value),
        None => None,
    }
}

/// The text of the field `name` of `node`, if the node has that field and it
/// holds a text.
pub open spec fn text_field_of(node: AstNode, name: Seq<char>) -> Option<Seq<char>> {
    match field_of(node, name) {
        Some(FieldValue::Str(s)) => Some(s@),
        _ => None,
    }
}

pub proof fn lemma_role_index(roles: Seq<ChildRole>, role: Seq<char>, i: int)
    requires
        0 <= i,
    ensures
        match role_index(roles, role, i) {
            Some(k) => i <= k < roles.len() && roles[k].role@ == role,
            None => forall|k: int| i <= k < roles.len() ==> (#[trigger] roles[k]).role@ != role,
        },
    decreases roles.len() - i,
{
    if i < roles.len() && roles[i].role@ != role {
        lemma_role_index(roles, role, i + 1);
    }
}

proof fn lemma_field_index(fields: Seq<Field>, name: Seq<char>, i: int)
    requires
        0 <= i,
    ensures
        match field_index(fields, name, i) {
            Some(k) => i <= k < fields.len() && fields[k].name@ == name,
            None => forall|k: int| i <= k < fields.len() ==> (#[trigger] fields[k]).name@ != name,
        },
    decreases fields.len() - i,
{
    if i < fields.len() && fields[i].name@ != name {
        lemma_field_index(fields, name, i + 1);
    }
}

/// Looking up a role after the entry at `k` was replaced by, or an entry was
/// appended for, the role `role`, where `k` is the position of the first
/// entry for `role`, or the length of the list if there is none.
proof fn lemma_role_lookup(
    before: Seq<ChildRole>,
    after: Seq<ChildRole>,
    role: Seq<char>,
    k: int,
    other: Seq<char>,
    i: int,
)
    requires
        0 <= i <= k <= before.len(),
        forall|j: int| 0 <= j < k ==> (#[trigger] before[j]).role@ != role,
        k < before.len() ==> before[k].role@ == role,
        after.len() == (if k < before.len() {
            before.len()
        } else {
            before.len() + 1
        }),
        after[k].role@ == role,
        forall|j: int| 0 <= j < before.len() && j != k ==> after[j] == before[j],
    ensures
        role_index(after, other, i) == (if other == role {
            Some(k)
        } else {
            role_index(before, other, i)
        }),
    decreases after.len() - i,
{
    if i < k {
        assert(after[i] == before[i]);
        if before[i].role@ != other {
            lemma_role_lookup(before, after, role, k, other, i + 1);
        }
    } else if other != role {
        lemma_role_tail(before, after, other, k + 1);
    }
}

proof fn lemma_role_tail(before: Seq<ChildRole>, after: Seq<ChildRole>, other: Seq<char>, i: int)
    requires
        0 <= i,
        after.len() == before.len() || (after.len() > before.len() && after.len() <= i),
        forall|j: int| i <= j < before.len() ==> after[j] == before[j],
    ensures
        role_index(after, other, i) == role_index(before, other, i),
    decreases after.len() - i,
{
    if i < before.len() {
        assert(after[i] == before[i]);
        if before[i].role@ != other {
            lemma_role_tail(before, after, other, i + 1);
        }
    }
}

proof fn lemma_field_lookup(
    before: Seq<Field>,
    after: Seq<Field>,
    name: Seq<char>,
    k: int,
    other: Seq<char>,
    i: int,
)
    requires
        0 <= i <= k <= before.len(),
        forall|j: int| 0 <= j < k ==> (#[trigger] before[j]).name@ != name,
        k < before.len() ==> before[k].name@ == name,
        after.len() == (if k < before.len() {
            before.len()
        } else {
            before.len() + 1
        }),
        after[k].name@ == name,
        forall|j: int| 0 <= j < before.len() && j != k ==> after[j] == before[j],
    ensures
        field_index(after, other, i) == (if other == name {
            Some(k)
        } else {
            field_index(before, other, i)
        }),
    decreases after.len() - i,
{
    if i < k {
        assert(after[i] == before[i]);
        if before[i].name@ != other {
            lemma_field_lookup(before, after, name, k, other, i + 1);
        }
    } else if other != name {
        lemma_field_tail(before, after, other, k + 1);
    }
}

proof fn lemma_field_tail(before: Seq<Field>, after: Seq<Field>, other: Seq<char>, i: int)
    requires
        0 <= i,
        after.len() == before.len() || (after.len() > before.len() && after.len() <= i),
        forall|j: int| i <= j < before.len() ==> after[j] == before[j],
    ensures
        field_index(after, other, i) == field_index(before, other, i),
    decreases after.len() - i,
{
    if i < before.len() {
        assert(after[i] == before[i]);
        if before[i].name@ != other {
            lemma_field_tail(before, after, other, i + 1);
        }
    }
}

/// The values that a sequence of node references refers to.
pub open spec fn nodes_view(refs: Seq<&AstNode>) -> Seq<AstNode> {
    refs.map_values(|r: &AstNode| *r)
}

/// `node` and all nodes below it in pre-order: a node comes before its
/// children, roles are visited in their order, and the children of a role
/// in theirs.
pub open spec fn preorder(node: AstNode) -> Seq<AstNode>
    decreases node,
{
    seq![node] + preorder_roles(node.children@, 0)
}

/// The nodes under the roles `roles[i..]`, in pre-order.
pub open spec fn preorder_roles(roles: Seq<ChildRole>, i: int) -> Seq<AstNode>
    decreases roles, roles.len() - i,
{
    if 0 <= i < roles.len() {
        preorder_list(roles[i].nodes@, 0) + preorder_roles(roles, i + 1)
    } else {
        Seq::empty()
    }
}

/// The nodes `nodes[i..]` and all nodes below them, in pre-order.
pub open spec fn preorder_list(nodes: Seq<AstNode>, i: int) -> Seq<AstNode>
    decreases nodes, nodes.len() - i,
{
    if 0 <= i < nodes.len() {
        preorder(nodes[i]) + preorder_list(nodes, i + 1)
    } else {
        Seq::empty()
    }
}

impl AstNode {
    /// A node without children and fields.
    pub fn new(node_type: String, lineno: isize, col_offset: isize) -> (r: Self)
        ensures
            r.node_type == node_type,
            r.lineno == lineno,
            r.col_offset == col_offset,
            r.children@.len() == 0,
            r.fields@.len() == 0,
            well_formed(r),
    {
        AstNode { node_type, lineno, col_offset, children: Vec::new(), fields: Vec::new() }
    }

    /// Puts `nodes` under `role`, in the place of the children that the role
    /// had so far, if it had any.
    pub fn set_children(&mut self, role: String, nodes: Vec<AstNode>)
        ensures
            children_of(*final(self), role@) == Some(nodes@),
            forall|other: Seq<char>|
                other != role@ ==> #[trigger] children_of(*final(self), other) == children_of(
                    *old(self),
                    other,
                ),
            final(self).node_type == old(self).node_type,
            final(self).lineno == old(self).lineno,
            final(self).col_offset == old(self).col_offset,
            final(self).fields == old(self).fields,
            well_formed(*old(self)) && all_well_formed(nodes@) ==> well_formed(*final(self)),
    {
        let ghost before = self.children@;
        let mut k: usize = 0;
        while k < self.children.len() && !self.children[k].role.as_str().eq(role.as_str())
            invariant
                k <= self.children@.len(),
                self.children@ == before,
                forall|j: int| 0 <= j < k ==> (#[trigger] before[j]).role@ != role@,
            decreases self.children@.len() - k,
        {
            k += 1;
        }
        if k < self.children.len() {
            self.children.set(k, ChildRole { role, nodes });
        } else {
            self.children.push(ChildRole { role, nodes });
        }
        proof {
            let after = self.children@;
            assert forall|other: Seq<char>|
                role_index(after, other, 0) == (if other == role@ {
                    Some(k as int)
                } else {
                    role_index(before, other, 0)
                }) by {
                lemma_role_lookup(before, after, role@, k as int, other, 0);
            }
            assert forall|other: Seq<char>| other != role@ implies #[trigger] children_of(
                *self,
                other,
            ) == children_of(*old(self), other) by {
                lemma_role_index(before, other, 0);
                match role_index(before, other, 0) {
                    Some(i) => {
                        assert(after[i] == before[i]);
                    },
                    None => {},
                }
            }
            if well_formed(*old(self)) && all_well_formed(nodes@) {
                assert forall|i: int, j: int| 0 <= i < j < after.len() implies (
                #[trigger] after[i]).role@ != (#[trigger] after[j]).role@ by {
                    lemma_role_index(before, role@, 0);
                    if i != k && j != k {
                        assert(after[i] == before[i] && after[j] == before[j]);
                    } else if k < before.len() {
                        assert(after[i].role@ == before[i].role@);
                        assert(after[j].role@ == before[j].role@);
                    } else {
                        assert(after[i] == before[i]);
                        assert(before[i].role@ != role@);
                    }
                }
                assert forall|i: int, j: int|
                    0 <= i < after.len() && 0 <= j < after[i].nodes@.len() implies well_formed(
                    #[trigger] after[i].nodes@[j],
                ) by {
                    if i != k {
                        assert(after[i] == before[i]);
                        assert(well_formed(before[i].nodes@[j]));
                    } else {
                        assert(well_formed(nodes@[j]));
                    }
                }
            }
        }
    }

    /// Gives the field `name` the value `value`, in the place of the value
    /// that the field had so far, if it had one.
    pub fn set_field(&mut self, name: String, value: FieldValue)
        ensures
            field_of(*final(self), name@) == Some(value),
            forall|other: Seq<char>|
                other != name@ ==> #[trigger] field_of(*final(self), other) == field_of(
                    *old(self),
                    other,
                ),
            final(self).node_type == old(self).node_type,
            final(self).lineno == old(self).lineno,
            final(self).col_offset == old(self).col_offset,
            final(self).children == old(self).children,
            well_formed(*old(self)) ==> well_formed(*final(self)),
    {
        let ghost before = self.fields@;
        let mut k: usize = 0;
        while k < self.fields.len() && !self.fields[k].name.as_str().eq(name.as_str())
            invariant
                k <= self.fields@.len(),
                self.fields@ == before,
                forall|j: int| 0 <= j < k ==> (#[trigger] before[j]).name@ != name@,
            decreases self.fields@.len() - k,
        {
            k += 1;
        }
        if k < self.fields.len() {
            self.fields.set(k, Field { name, value });
        } else {
            self.fields.push(Field { name, value });
        }
        proof {
            let after = self.fields@;
            assert forall|other: Seq<char>|
                field_index(after, other, 0) == (if other == name@ {
                    Some(k as int)
                } else {
                    field_index(before, other, 0)
                }) by {
                lemma_field_lookup(before, after, name@, k as int, other, 0);
            }
            assert forall|other: Seq<char>| other != name@ implies #[trigger] field_of(
                *self,
                other,
            ) == field_of(*old(self), other) by {
                lemma_field_index(before, other, 0);
                match field_index(before, other, 0) {
                    Some(i) => {
                        assert(after[i] == before[i]);
                    },
                    None => {},
                }
            }
            if well_formed(*old(self)) {
                assert forall|i: int, j: int| 0 <= i < j < after.len() implies (
                #[trigger] after[i]).name@ != (#[trigger] after[j]).name@ by {
                    lemma_field_index(before, name@, 0);
                    if i != k && j != k {
                        assert(after[i] == before[i] && after[j] == before[j]);
                    } else if k < before.len() {
                        assert(after[i].name@ == before[i].name@);
                        assert(after[j].name@ == before[j].name@);
                    } else {
                        assert(after[i] == before[i]);
                        assert(before[i].name@ != name@);
                    }
                }
            }
        }
    }

    /// Whether the kind tag of this node is `kind`.
    pub fn is_kind(&self, kind: &str) -> (r: bool)
        ensures
            r == (self.node_type@ == kind@),
    {
        self.node_type.as_str().eq(kind)
    }

    /// The children under `role`, if this node has that role.
    pub fn child_list(&self, role: &str) -> (r: Option<&Vec<AstNode>>)
        ensures
            match r {
                Some(nodes) => children_of(*self, role@) == Some(nodes@)
                    && decreases_to!(*self => nodes@),
                None => children_of(*self, role@) is None,
            },
    {
        let mut i: usize = 0;
        while i < self.children.len()
            invariant
                i <= self.children@.len(),
                role_index(self.children@, role@, 0) == role_index(self.children@, role@, i as int),
            decreases self.children@.len() - i,
        {
            if self.children[i].role.as_str().eq(role) {
                return Some(&self.children[i].nodes);
            }
            i += 1;
        }
        None
    }

    /// The first child under `role`, if there is one.
    pub fn first_child(&self, role: &str) -> (r: Option<&AstNode>)
        ensures
            match r {
                Some(child) => first_child_of(*self, role@) == Some(*child)
                    && decreases_to!(*self => *child),
                None => first_child_of(*self, role@) is None,
            },
    {
        match self.child_list(role) {
            Some(nodes) => if nodes.len() > 0 {
                Some(&nodes[0])
            } else {
                None
            },
            None => None,
        }
    }

    /// The value of the field `name`, if this node has that field.
    pub fn field(&self, name: &str) -> (r: Option<&FieldValue>)
        ensures
            match r {
                Some(value) => field_of(*self, name@) == Some(*value),
                None => field_of(*self, name@) is None,
            },
    {
        let mut i: usize = 0;
        while i < self.fields.len()
            invariant
                i <= self.fields@.len(),
                field_index(self.fields@, name@, 0) == field_index(self.fields@, name@, i as int),
            decreases self.fields@.len() - i,
        {
            if self.fields[i].name.as_str().eq(name) {
                return Some(&self.fields[i].value);
            }
            i += 1;
        }
        None
    }

    /// The text of the field `name`, if this node has that field and it holds
    /// a text.
    pub fn text_field(&self, name: &str) -> (r: Option<&String>)
        ensures
            match r {
                Some(s) => text_field_of(*self, name@) == Some(s@),
                None => text_field_of(*self, name@) is None,
            },
    {
        match self.field(name) {
            Some(FieldValue::Str(s)) => Some(s),
            _ => None,
        }
    }
}

/// Appends `node` and all nodes below it to `out`, in pre-order.
pub fn collect_preorder<'a>(node: &'a AstNode, out: &mut Vec<&'a AstNode>)
    ensures
        nodes_view(final(out)@) == nodes_view(old(out)@) + preorder(*node),
    decreases node,
{
    let ghost start = nodes_view(out@);
    out.push(node);
    assert(nodes_view(out@) =~= start + seq![*node]);
    let mut i: usize = 0;
    while i < node.children.len()
        invariant
            i <= node.children@.len(),
            start + preorder(*node) == nodes_view(out@) + preorder_roles(node.children@, i as int),
        decreases node.children@.len() - i,
    {
        let nodes = &node.children[i].nodes;
        let mut j: usize = 0;
        while j < nodes.len()
            invariant
                i < node.children@.len(),
                *nodes == node.children@[i as int].nodes,
                j <= nodes@.len(),
                start + preorder(*node) == nodes_view(out@) + preorder_list(nodes@, j as int)
                    + preorder_roles(node.children@, i + 1),
            decreases nodes@.len() - j,
        {
            let ghost before = nodes_view(out@);
            collect_preorder(&nodes[j], out);
            assert(before + (preorder(nodes@[j as int]) + preorder_list(nodes@, j + 1))
                + preorder_roles(node.children@, i + 1) =~= (before + preorder(nodes@[j as int]))
                + preorder_list(nodes@, j + 1) + preorder_roles(node.children@, i + 1));
            j += 1;
        }
        assert(preorder_list(nodes@, j as int) =~= Seq::<AstNode>::empty());
        i += 1;
    }
    assert(preorder_roles(node.children@, i as int) =~= Seq::<AstNode>::empty());
}

/// `node` and all nodes below it, in pre-order.
pub fn preorder_nodes<'a>(node: &'a AstNode) -> (r: Vec<&'a AstNode>)
    ensures
        nodes_view(r@) == preorder(*node),
{
    let mut out: Vec<&'a AstNode> = Vec::new();
    collect_preorder(node, &mut out);
    assert(nodes_view(Seq::<&AstNode>::empty()) =~= Seq::<AstNode>::empty());
    out
}

/// Whether the kind tag of `node` is one of `kinds`.
pub open spec fn has_kind_of(node: AstNode, kinds: Seq<Seq<char>>) -> bool {
    exists|k: int| 0 <= k < kinds.len() && #[trigger] kinds[k] == node.node_type@
}

/// Those of the first `n` nodes of `nodes` whose kind tag is one of `kinds`,
/// in their order.
pub open spec fn with_kind_upto(nodes: Seq<AstNode>, kinds: Seq<Seq<char>>, n: int) -> Seq<AstNode>
    decreases n,
{
    if n <= 0 {
        Seq::empty()
    } else {
        let before = with_kind_upto(nodes, kinds, n - 1);
        if has_kind_of(nodes[n - 1], kinds) {
            before.push(nodes[n - 1])
        } else {
            before
        }
    }
}

/// The nodes in the tree below `root`, `root` included, whose kind tag is
/// one of `kinds`, in pre-order.
pub open spec fn nodes_with_kind(root: AstNode, kinds: Seq<Seq<char>>) -> Seq<AstNode> {
    with_kind_upto(preorder(root), kinds, preorder(root).len() as int)
}

/// The views of a sequence of string slices.
pub open spec fn kinds_view(kinds: Seq<&str>) -> Seq<Seq<char>> {
    kinds.map_values(|k: &str| k@)
}

/// Whether the kind tag of `node` is one of `kinds`.
pub fn is_one_of(node: &AstNode, kinds: &Vec<&str>) -> (r: bool)
    ensures
        r == has_kind_of(*node, kinds_view(kinds@)),
{
    let mut k: usize = 0;
    while k < kinds.len()
        invariant
            k <= kinds@.len(),
            forall|j: int| 0 <= j < k ==> #[trigger] kinds_view(kinds@)[j] != node.node_type@,
        decreases kinds@.len() - k,
    {
        assert(kinds_view(kinds@)[k as int] == kinds@[k as int]@);
        if node.is_kind(kinds[k]) {
            return true;
        }
        k += 1;
    }
    false
}

/// The nodes in the tree below `root`, `root` included, whose kind tag is
/// one of `kinds`, in pre-order.
pub fn find_nodes<'a>(root: &'a AstNode, kinds: &Vec<&str>) -> (r: Vec<&'a AstNode>)
    ensures
        nodes_view(r@) == nodes_with_kind(*root, kinds_view(kinds@)),
{
    let all = preorder_nodes(root);
    let ghost nodes = preorder(*root);
    let mut out: Vec<&'a AstNode> = Vec::new();
    assert(nodes_view(out@) =~= Seq::<AstNode>::empty());
    let mut n: usize = 0;
    while n < all.len()
        invariant
            n <= all@.len(),
            nodes == nodes_view(all@),
            nodes_view(out@) == with_kind_upto(nodes, kinds_view(kinds@), n as int),
        decreases all@.len() - n,
    {
        let node = all[n];
        assert(nodes[n as int] == *node);
        if is_one_of(node, kinds) {
            let ghost before = nodes_view(out@);
            out.push(node);
            assert(nodes_view(out@) =~= before.push(*node));
        }
        n += 1;
    }
    assert(nodes.len() == all@.len());
    out
}

/// The kind tags of function definitions.
pub open spec fn function_kinds() -> Seq<Seq<char>> {
    seq!["FunctionDef"@, "AsyncFunctionDef"@]
}

/// The function definitions in the tree below `root`, in pre-order; nested
/// definitions are among them.
pub fn find_functions<'a>(root: &'a AstNode) -> (r: Vec<&'a AstNode>)
    ensures
        nodes_view(r@) == nodes_with_kind(*root, function_kinds()),
{
    let kinds: Vec<&str> = vec!["FunctionDef", "AsyncFunctionDef"];
    assert(kinds_view(kinds@) =~= function_kinds());
    find_nodes(root, &kinds)
}

/// The call nodes in the tree below `root`, in pre-order.
pub fn find_call_sites<'a>(root: &'a AstNode) -> (r: Vec<&'a AstNode>)
    ensures
        nodes_view(r@) == nodes_with_kind(*root, seq!["Call"@]),
{
    let kinds: Vec<&str> = vec!["Call"];
    assert(kinds_view(kinds@) =~= seq!["Call"@]);
    find_nodes(root, &kinds)
}

/// The assignments in the tree below `root`, in pre-order.
pub fn find_assignments<'a>(root: &'a AstNode) -> (r: Vec<&'a AstNode>)
    ensures
        nodes_view(r@) == nodes_with_kind(*root, seq!["Assign"@]),
{
    let kinds: Vec<&str> = vec!["Assign"];
    assert(kinds_view(kinds@) =~= seq!["Assign"@]);
    find_nodes(root, &kinds)
}

} // verus!
