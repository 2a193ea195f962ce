//! Names in the syntax tree: the name that a node refers to and the dotted
//! name of the function that a call node calls.

use crate::ast_parser::{first_child_of, lemma_role_index, text_field_of, AstNode};
use crate::text::{join, join_with, refs_view};
use vstd::prelude::*;
use vstd::string::*;

verus! {

/// The name that `node` refers to: the `id` of a `Name` node.
pub open spec fn name_of(node: AstNode) -> Option<Seq<char>> {
    if node.node_type@ == "Name"@ {
        text_field_of(node, "id"@)
    } else {
        None
    }
}

/// The parts of the dotted name that `node` spells, first part first: for an
/// `Attribute` node the parts of its `value` child followed by its `attr`,
/// and for a `Name` node its `id`. A node of another kind, a missing child
/// and a missing field contribute nothing.
pub open spec fn dotted_parts(node: AstNode) -> Seq<Seq<char>>
    decreases node,
{
    if node.node_type@ == "Attribute"@ {
        let base = match first_child_of(node, "value"@) {
            Some(next) => {
                proof {
                    lemma_role_index(node.children@, "value"@, 0);
                }
                dotted_parts(next)
            },
            None => Seq::empty(),
        };
        match text_field_of(node, "attr"@) {
            Some(attr) => base.push(attr),
            None => base,
        }
    } else {
        match name_of(node) {
            Some(id) => seq![id],
            None => Seq::empty(),
        }
    }
}

/// The fully qualified name of the function that the call node `call`
/// calls: the `id` of a plain name, the parts of an attribute chain joined
/// by `.`, and the empty text for anything else.
pub open spec fn call_name_of(call: AstNode) -> Seq<char> {
    match first_child_of(call, "func"@) {
        Some(func) => if func.node_type@ == "Name"@ || func.node_type@ == "Attribute"@ {
            join_with(dotted_parts(func), '.')
        } else {
            Seq::empty()
        },
        None => Seq::empty(),
    }
}

/// Whether a call with the name `call_name` is a call of the rule with the
/// call name `rule_name`: the two are the same text. A call without a name
/// is a call of no rule.
pub open spec fn call_matches(call_name: Seq<char>, rule_name: Seq<char>) -> bool {
    call_name.len() > 0 && call_name == rule_name
}

/// Whether a call with the name `call_name` is a call of the rule with the
/// call name `rule_name`.
pub fn same_call(call_name: &str, rule_name: &str) -> (r: bool)
    ensures
        r == call_matches(call_name@, rule_name@),
{
    !call_name.is_empty() && call_name.eq(rule_name)
}

/// The name that `node` refers to, if it is a name reference.
pub fn get_name_from_node(node: &AstNode) -> (r: Option<&String>)
    ensures
        match r {
            Some(name) => name_of(*node) == Some(name@),
            None => name_of(*node) is None,
        },
{
    if node.is_kind("Name") {
        node.text_field("id")
    } else {
        None
    }
}

fn collect_dotted_parts<'a>(node: &'a AstNode, out: &mut Vec<&'a String>)
    ensures
        refs_view(final(out)@) == refs_view(old(out)@) + dotted_parts(*node),
    decreases node,
{
    let ghost start = refs_view(out@);
    if node.is_kind("Attribute") {
        match node.first_child("value") {
            Some(next) => {
                collect_dotted_parts(next, out);
            },
            None => {},
        }
        let ghost mid = refs_view(out@);
        match node.text_field("attr") {
            Some(attr) => {
                out.push(attr);
                assert(refs_view(out@) =~= mid.push(attr@));
            },
            None => {},
        }
        assert(refs_view(out@) =~= start + dotted_parts(*node));
    } else {
        match get_name_from_node(node) {
            Some(id) => {
                out.push(id);
                assert(refs_view(out@) =~= start + seq![id@]);
            },
            None => {
                assert(refs_view(out@) =~= start + Seq::<Seq<char>>::empty());
            },
        }
    }
}

/// The fully qualified name of the function that `call_node` calls.
pub fn get_full_call_name(call_node: &AstNode) -> (r: String)
    ensures
        r@ == call_name_of(*call_node),
{
    match call_node.first_child("func") {
        Some(func) => {
            if func.is_kind("Name") || func.is_kind("Attribute") {
                let mut parts: Vec<&String> = Vec::new();
                assert(refs_view(parts@) =~= Seq::<Seq<char>>::empty());
                collect_dotted_parts(func, &mut parts);
                assert(refs_view(parts@) =~= dotted_parts(*func));
                join(&parts, '.')
            } else {
                String::new()
            }
        },
        None => String::new(),
    }
}

} // verus!
