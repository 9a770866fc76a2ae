//! Tree simplification.
//!
//! The grammar leaves two kinds of wrapper in the tree: the outer `Root`
//! node, and a `Body` node around every equation right-hand side.  The
//! simplifier collapses each such node with exactly one child to that child,
//! recursively, and copies every other node unchanged.  After it runs, the
//! top level of a parsed tree is the flat equation list, and each equation's
//! right-hand side starts at its meaningful operator node.
//!
//! The pass is pure and, as [`lemma_simplify_idempotent`] shows, idempotent.

use vstd::prelude::*;

use crate::parser::Node;
use crate::parser::NodeType;
use crate::parser::NodeView;
use crate::parser::lemma_nodes_view_index;
use crate::parser::nodes_view;

verus! {

/// Whether a node is a wrapper that simplification collapses: a `Root` or
/// `Body` with exactly one child.
pub open spec fn is_collapsible(v: NodeView) -> bool {
    (v.kind == NodeType::Root || v.kind == NodeType::Body) && v.children.len() == 1
}

/// The simplified form of a tree: single-child `Root` and `Body` wrappers
/// are collapsed to their child, every other node is kept with its children
/// simplified.
pub open spec fn spec_simplify(v: NodeView) -> NodeView
    decreases v,
{
    if is_collapsible(v) {
        spec_simplify(v.children[0])
    } else {
        NodeView { kind: v.kind, children: simplify_children(v.children), token: v.token }
    }
}

/// The simplified forms of a sequence of trees.
pub open spec fn simplify_children(cs: Seq<NodeView>) -> Seq<NodeView>
    decreases cs,
{
    if cs.len() == 0 {
        Seq::empty()
    } else {
        seq![spec_simplify(cs[0])] + simplify_children(cs.drop_first())
    }
}

pub broadcast proof fn lemma_simplify_children_index(cs: Seq<NodeView>)
    ensures
        (#[trigger] simplify_children(cs)).len() == cs.len(),
        forall|i: int| 0 <= i < cs.len() ==> simplify_children(cs)[i] == spec_simplify(cs[i]),
    decreases cs,
{
    if cs.len() > 0 {
        lemma_simplify_children_index(cs.drop_first());
        assert forall|i: int| 0 <= i < cs.len() implies simplify_children(cs)[i] == spec_simplify(
            cs[i],
        ) by {
            if i > 0 {
                assert(simplify_children(cs)[i] == simplify_children(cs.drop_first())[i - 1]);
                assert(cs.drop_first()[i - 1] == cs[i]);
            }
        }
    }
}

/// Simplifying a second time changes nothing.
pub proof fn lemma_simplify_idempotent(v: NodeView)
    ensures
        spec_simplify(spec_simplify(v)) == spec_simplify(v),
    decreases v,
{
    broadcast use lemma_simplify_children_index;

    if is_collapsible(v) {
        lemma_simplify_idempotent(v.children[0]);
    } else {
        lemma_simplify_children_idempotent(v.children);
        assert(spec_simplify(spec_simplify(v)) =~= spec_simplify(v));
    }
}

/// Simplifying every tree of a sequence a second time changes nothing.
pub proof fn lemma_simplify_children_idempotent(cs: Seq<NodeView>)
    ensures
        simplify_children(simplify_children(cs)) == simplify_children(cs),
    decreases cs,
{
    broadcast use lemma_simplify_children_index;

    if cs.len() > 0 {
        lemma_simplify_idempotent(cs[0]);
        lemma_simplify_children_idempotent(cs.drop_first());
        assert(simplify_children(cs).drop_first() =~= simplify_children(cs.drop_first()));
        assert(simplify_children(simplify_children(cs)) =~= simplify_children(cs));
    }
}

/// Return the simplified form of `node`.
pub fn simplify(node: &Node) -> (r: Node)
    ensures
        r@ == spec_simplify(node@),
    decreases *node,
{
    broadcast use lemma_nodes_view_index, lemma_simplify_children_index;

    proof {
        lemma_nodes_view_index(node.children@);
    }
    if (node.node_type == NodeType::Root || node.node_type == NodeType::Body)
        && node.children.len() == 1 {
        proof {
            assert(node@.children[0] == node.children@[0]@);
        }
        return simplify(&node.children[0]);
    }
    let ghost cs = node@.children;
    let n = node.children.len();
    let mut children: Vec<Node> = Vec::new();
    proof {
        assert(nodes_view(children@) =~= simplify_children(cs).subrange(0, 0));
    }
    for i in 0..n
        invariant
            n == node.children.len(),
            cs == nodes_view(node.children@),
            !is_collapsible(node@),
            nodes_view(children@) == simplify_children(cs).subrange(0, i as int),
    {
        let ghost children_before = children@;
        proof {
            lemma_nodes_view_index(node.children@);
        }
        children.push(simplify(&node.children[i]));
        proof {
            broadcast use lemma_nodes_view_index, lemma_simplify_children_index;

            lemma_nodes_view_index(children_before);
            lemma_nodes_view_index(children@);

            assert(nodes_view(children@) =~= nodes_view(children_before).push(
                spec_simplify(cs[i as int]),
            ));
            assert(nodes_view(children@) =~= simplify_children(cs).subrange(0, i + 1));
        }
    }
    let token = match &node.token {
        Some(t) => Some(t.duplicate()),
        None => None,
    };
    let result = Node { node_type: node.node_type, children, token };
    proof {
        assert(simplify_children(cs).subrange(0, cs.len() as int) =~= simplify_children(cs));
        assert(result@ =~= spec_simplify(node@));
    }
    result
}

} // verus!
