//! Syntax analysis of the equation language.
//!
//! The grammar is
//!
//! ```text
//! Root        := EquationList
//! EquationList:= Equation*                  (each terminated by NewLine or end-of-input)
//! Equation    := DataPoint '=' Body
//! Body        := SetExpr
//! SetExpr     := Operand (('\' Set) | ('U' SetExpr))*
//! Operand     := Set | DataPoint
//! Set         := '{' (Definition (',' Definition)*)? '}'
//! ```
//!
//! The two infix operators have no precedence table: the parser keeps an
//! explicit operand stack, pushes each primary operand, and when it sees an
//! operator pops the left operand and parses the right one (a set for `\`,
//! the whole remaining set expression for `U`).  `L1 \ {d1} U L2` therefore
//! parses as `(L1 \ {d1}) U L2`.
//!
//! The functions [`body_result`], [`eq_result`] and [`eq_list_result`] are
//! the specification of the parser: they say, for every token sequence,
//! whether it parses and which tree it denotes.  A malformed token sequence
//! is a fatal error: the parser returns a [`ParseError`] and no partial tree.

use vstd::prelude::*;

use crate::lexer::Token;
use crate::lexer::TokenType;
use crate::lexer::TokenView;
use crate::lexer::tokens_view;
use vstd::string::StringExecFns;

verus! {

broadcast use crate::lexer::lemma_tokens_view_len;

/// The kind of a syntax-tree node.
#[derive(Debug, Clone, Copy, PartialEq, Eq, Structural)]
pub enum NodeType {
    SetLiteral,
    DataPoint,
    Definition,
    Union,
    SetDifference,
    DataflowEquation,
    DataFlowEquationList,
    Body,
    Root,
}

/// A syntax-tree node: its kind, its children in order, and, for the leaf
/// kinds `DataPoint` and `Definition`, the originating token.
#[derive(Debug)]
pub struct Node {
    pub node_type: NodeType,
    pub children: Vec<Node>,
    pub token: Option<Token>,
}

/// The mathematical value of a syntax tree.
#[verifier::ext_equal]
pub struct NodeView {
    pub kind: NodeType,
    pub children: Seq<NodeView>,
    pub token: Option<TokenView>,
}

/// The view of a node: the same tree over token views.
pub open spec fn node_view(n: Node) -> NodeView
    decreases n,
{
    NodeView {
        kind: n.node_type,
        children: nodes_view(n.children@),
        token: match n.token {
            Some(t) => Some(t@),
            None => None,
        },
    }
}

/// The views of a sequence of nodes.
pub open spec fn nodes_view(s: Seq<Node>) -> Seq<NodeView>
    decreases s,
{
    if s.len() == 0 {
        Seq::empty()
    } else {
        seq![node_view(s[0])] + nodes_view(s.drop_first())
    }
}

impl View for Node {
    type V = NodeView;

    open spec fn view(&self) -> NodeView {
        node_view(*self)
    }
}

pub broadcast proof fn lemma_nodes_view_index(s: Seq<Node>)
    ensures
        (#[trigger] nodes_view(s)).len() == s.len(),
        forall|i: int| 0 <= i < s.len() ==> nodes_view(s)[i] == node_view(s[i]),
    decreases s,
{
    if s.len() > 0 {
        lemma_nodes_view_index(s.drop_first());
        assert forall|i: int| 0 <= i < s.len() implies nodes_view(s)[i] == node_view(s[i]) by {
            if i > 0 {
                assert(nodes_view(s)[i] == nodes_view(s.drop_first())[i - 1]);
                assert(s.drop_first()[i - 1] == s[i]);
            }
        }
    }
}

proof fn lemma_nodes_view_push(s: Seq<Node>, x: Node)
    ensures
        nodes_view(s.push(x)) == nodes_view(s).push(node_view(x)),
{
    lemma_nodes_view_index(s);
    lemma_nodes_view_index(s.push(x));
    assert(nodes_view(s.push(x)) =~= nodes_view(s).push(node_view(x)));
}

/// A leaf node carrying its originating token.
pub open spec fn leaf_node(kind: NodeType, t: TokenView) -> NodeView {
    NodeView { kind, children: Seq::empty(), token: Some(t) }
}

/// An operator node with its two operands.
pub open spec fn binary_node(kind: NodeType, l: NodeView, r: NodeView) -> NodeView {
    NodeView { kind, children: seq![l, r], token: None }
}

/// A node holding an ordered sequence of children and no token.
pub open spec fn list_node(kind: NodeType, cs: Seq<NodeView>) -> NodeView {
    NodeView { kind, children: cs, token: None }
}

/// Why a token sequence failed to parse.
#[derive(Debug, Clone, Copy, PartialEq, Eq, Structural)]
pub enum ParseError {
    /// A token kind appeared where the grammar requires another.
    UnexpectedToken,
    /// An infix operator had no operand to its left.
    MissingOperand,
    /// A set literal was opened and never closed.
    UnterminatedSet,
}

/// Number of tokens consumed by the definition list starting at `i`: a run
/// of `Definition` tokens, each optionally followed by one comma.
pub open spec fn defs_run_len(ts: Seq<TokenView>, i: int) -> nat
    decreases ts.len() - i,
{
    if 0 <= i < ts.len() && ts[i].kind == TokenType::Definition {
        if i + 1 < ts.len() && ts[i + 1].kind == TokenType::Comma {
            (2 + defs_run_len(ts, i + 2)) as nat
        } else {
            (1 + defs_run_len(ts, i + 1)) as nat
        }
    } else {
        0
    }
}

/// The `Definition` leaves of the definition list starting at `i`.
pub open spec fn defs_nodes(ts: Seq<TokenView>, i: int) -> Seq<NodeView>
    decreases ts.len() - i,
{
    if 0 <= i < ts.len() && ts[i].kind == TokenType::Definition {
        if i + 1 < ts.len() && ts[i + 1].kind == TokenType::Comma {
            seq![leaf_node(NodeType::Definition, ts[i])] + defs_nodes(ts, i + 2)
        } else {
            seq![leaf_node(NodeType::Definition, ts[i])] + defs_nodes(ts, i + 1)
        }
    } else {
        Seq::empty()
    }
}

/// Whether a whole set literal `{ ... }` begins at token `i`.
pub open spec fn valid_set_at(ts: Seq<TokenView>, i: int) -> bool {
    &&& 0 <= i < ts.len()
    &&& ts[i].kind == TokenType::SetOpen
    &&& i + 1 + defs_run_len(ts, i + 1) < ts.len()
    &&& ts[i + 1 + defs_run_len(ts, i + 1)].kind == TokenType::SetClose
}

/// Number of tokens of the set literal at `i` (meaningful when
/// `valid_set_at` holds): the braces and the definition list between them.
pub open spec fn set_len_at(ts: Seq<TokenView>, i: int) -> nat {
    (2 + defs_run_len(ts, i + 1)) as nat
}

/// The `Set` node denoted by the set literal at `i`.
pub open spec fn set_node_at(ts: Seq<TokenView>, i: int) -> NodeView {
    list_node(NodeType::SetLiteral, defs_nodes(ts, i + 1))
}

/// Shift the consumed-token count of a parse outcome by `d`.
pub open spec fn shifted(r: Option<(NodeView, nat)>, d: int) -> Option<(NodeView, nat)> {
    match r {
        Some((v, n)) => Some((v, (n + d) as nat)),
        None => None,
    }
}

/// The parse of an equation body beginning at token `i`: a primary operand
/// followed by the operator chain, stopping (without consuming it) at a
/// `NewLine` or at the end of the tokens.  `None` means a fatal parse error;
/// otherwise the resulting `Body` node and the number of tokens consumed.
pub open spec fn body_result(ts: Seq<TokenView>, i: int) -> Option<(NodeView, nat)>
    decreases ts.len() - i,
{
    if 0 <= i < ts.len() && ts[i].kind == TokenType::DataPoint {
        shifted(rest_result(ts, i + 1, leaf_node(NodeType::DataPoint, ts[i])), 1)
    } else if 0 <= i < ts.len() && ts[i].kind == TokenType::SetOpen && i + 1 + defs_run_len(
        ts,
        i + 1,
    ) < ts.len() && ts[i + 1 + defs_run_len(ts, i + 1)].kind == TokenType::SetClose {
        let sl = 2 + defs_run_len(ts, i + 1);
        shifted(rest_result(ts, i + sl, set_node_at(ts, i)), sl as int)
    } else {
        None
    }
}

/// The parse of the rest of a body after its first `acc` has been built:
/// either the body ends here, or an operator extends `acc`.
pub open spec fn rest_result(ts: Seq<TokenView>, i: int, acc: NodeView) -> Option<(NodeView, nat)>
    decreases ts.len() - i,
{
    if i < 0 {
        None
    } else if i >= ts.len() || ts[i].kind == TokenType::NewLine {
        Some((list_node(NodeType::Body, seq![acc]), 0))
    } else if ts[i].kind == TokenType::SetDifference {
        if i + 1 < ts.len() && ts[i + 1].kind == TokenType::SetOpen && i + 2 + defs_run_len(
            ts,
            i + 2,
        ) < ts.len() && ts[i + 2 + defs_run_len(ts, i + 2)].kind == TokenType::SetClose {
            let sl = 2 + defs_run_len(ts, i + 2);
            shifted(
                rest_result(
                    ts,
                    i + 1 + sl,
                    binary_node(NodeType::SetDifference, acc, set_node_at(ts, i + 1)),
                ),
                1 + sl as int,
            )
        } else {
            None
        }
    } else if ts[i].kind == TokenType::Union {
        match body_result(ts, i + 1) {
            Some((b, m)) => {
                let j0 = i + 1 + m;
                let j = if j0 <= ts.len() {
                    j0
                } else {
                    ts.len() as int
                };
                shifted(rest_result(ts, j, binary_node(NodeType::Union, acc, b)), 1 + m as int)
            },
            None => None,
        }
    } else {
        None
    }
}

/// The parse of one equation beginning at token `i`: a data point, `=`, a
/// body, and the `NewLine` that terminates it if one is present.
pub open spec fn eq_result(ts: Seq<TokenView>, i: int) -> Option<(NodeView, nat)> {
    if 0 <= i < ts.len() && ts[i].kind == TokenType::DataPoint && i + 1 < ts.len() && ts[i
        + 1].kind == TokenType::Equals {
        match body_result(ts, i + 2) {
            Some((b, m)) => {
                let eq = binary_node(
                    NodeType::DataflowEquation,
                    leaf_node(NodeType::DataPoint, ts[i]),
                    b,
                );
                if i + 2 + m < ts.len() && ts[i + 2 + m].kind == TokenType::NewLine {
                    Some((eq, (3 + m) as nat))
                } else {
                    Some((eq, (2 + m) as nat))
                }
            },
            None => None,
        }
    } else {
        None
    }
}

/// The parse of the equation list from token `i` to the end of the tokens:
/// the sequence of equation nodes, or `None` on the first malformed one.
pub open spec fn eq_list_result(ts: Seq<TokenView>, i: int) -> Option<Seq<NodeView>>
    decreases ts.len() - i,
{
    if i >= ts.len() {
        Some(Seq::empty())
    } else if 0 <= i && ts[i].kind == TokenType::DataPoint && i + 1 < ts.len() && ts[i + 1].kind
        == TokenType::Equals {
        match body_result(ts, i + 2) {
            Some((b, m)) => {
                let eq = binary_node(
                    NodeType::DataflowEquation,
                    leaf_node(NodeType::DataPoint, ts[i]),
                    b,
                );
                let j0 = i + 2 + m;
                let j = if j0 < ts.len() && ts[j0].kind == TokenType::NewLine {
                    j0 + 1
                } else if j0 <= ts.len() {
                    j0
                } else {
                    ts.len() as int
                };
                match eq_list_result(ts, j) {
                    Some(rest) => Some(seq![eq] + rest),
                    None => None,
                }
            },
            None => None,
        }
    } else {
        None
    }
}

/// A definition list stays inside the token sequence.
proof fn lemma_defs_run_bound(ts: Seq<TokenView>, i: int)
    requires
        0 <= i <= ts.len(),
    ensures
        i + defs_run_len(ts, i) <= ts.len(),
    decreases ts.len() - i,
{
    if i < ts.len() && ts[i].kind == TokenType::Definition {
        if i + 1 < ts.len() && ts[i + 1].kind == TokenType::Comma {
            lemma_defs_run_bound(ts, i + 2);
        } else {
            lemma_defs_run_bound(ts, i + 1);
        }
    }
}

/// A parsed body stays inside the token sequence.
proof fn lemma_body_result_bound(ts: Seq<TokenView>, i: int)
    ensures
        body_result(ts, i) matches Some((v, n)) ==> 0 <= i && i + n <= ts.len(),
    decreases ts.len() - i, 1int,
{
    if 0 <= i < ts.len() && ts[i].kind == TokenType::DataPoint {
        lemma_rest_result_bound(ts, i + 1, leaf_node(NodeType::DataPoint, ts[i]));
    } else if 0 <= i < ts.len() && ts[i].kind == TokenType::SetOpen && i + 1 + defs_run_len(
        ts,
        i + 1,
    ) < ts.len() && ts[i + 1 + defs_run_len(ts, i + 1)].kind == TokenType::SetClose {
        let sl = 2 + defs_run_len(ts, i + 1);
        lemma_rest_result_bound(ts, i + sl, set_node_at(ts, i));
    }
}

proof fn lemma_rest_result_bound(ts: Seq<TokenView>, i: int, acc: NodeView)
    ensures
        i <= ts.len() ==> (rest_result(ts, i, acc) matches Some((v, n)) ==> i + n <= ts.len()),
    decreases ts.len() - i, 0int,
{
    if i < 0 {
    } else if i >= ts.len() || ts[i].kind == TokenType::NewLine {
    } else if ts[i].kind == TokenType::SetDifference {
        if i + 1 < ts.len() && ts[i + 1].kind == TokenType::SetOpen && i + 2 + defs_run_len(
            ts,
            i + 2,
        ) < ts.len() && ts[i + 2 + defs_run_len(ts, i + 2)].kind == TokenType::SetClose {
            let sl = 2 + defs_run_len(ts, i + 2);
            lemma_rest_result_bound(
                ts,
                i + 1 + sl,
                binary_node(NodeType::SetDifference, acc, set_node_at(ts, i + 1)),
            );
        }
    } else if ts[i].kind == TokenType::Union {
        lemma_body_result_bound(ts, i + 1);
        match body_result(ts, i + 1) {
            Some((b, m)) => {
                let j0 = i + 1 + m;
                let j = if j0 <= ts.len() {
                    j0
                } else {
                    ts.len() as int
                };
                lemma_rest_result_bound(ts, j, binary_node(NodeType::Union, acc, b));
            },
            None => {},
        }
    }
}

/// A parsed equation stays inside the token sequence and consumes at least
/// its data point and equals sign.
proof fn lemma_eq_result_bound(ts: Seq<TokenView>, i: int)
    ensures
        eq_result(ts, i) matches Some((v, n)) ==> 2 <= n && i + n <= ts.len(),
{
    lemma_body_result_bound(ts, i + 2);
}

/// Unfolding of `eq_list_result` by one equation.
proof fn lemma_eq_list_step(ts: Seq<TokenView>, i: int)
    requires
        0 <= i < ts.len(),
    ensures
        eq_list_result(ts, i) == (match eq_result(ts, i) {
            Some((eq, n)) => match eq_list_result(ts, i + n) {
                Some(rest) => Some(seq![eq] + rest),
                None => None,
            },
            None => None::<Seq<NodeView>>,
        }),
{
    lemma_eq_result_bound(ts, i);
}

/// The printed name of a node kind.
pub open spec fn kind_name(k: NodeType) -> Seq<char> {
    match k {
        NodeType::SetLiteral => "Set"@,
        NodeType::DataPoint => "DataPoint"@,
        NodeType::Definition => "Definition"@,
        NodeType::Union => "Union"@,
        NodeType::SetDifference => "SetDifference"@,
        NodeType::DataflowEquation => "DataflowEquation"@,
        NodeType::DataFlowEquationList => "DataFlowEquationList"@,
        NodeType::Body => "Body"@,
        NodeType::Root => "Root"@,
    }
}

/// Four spaces of indentation for each level of depth.
pub open spec fn indent_of(depth: nat) -> Seq<char> {
    Seq::new(4 * depth, |i: int| ' ')
}

/// The textual dump of a tree at the given depth: an indented line naming
/// the node's kind (and, for a leaf, its token text), then each child on a
/// line of its own, one level deeper.
pub open spec fn render(v: NodeView, depth: nat) -> Seq<char>
    decreases v, 1int,
{
    indent_of(depth) + kind_name(v.kind) + (match v.token {
        Some(t) => " "@ + t.text,
        None => Seq::<char>::empty(),
    }) + render_children(v.children, (depth + 1) as nat)
}

pub open spec fn render_children(cs: Seq<NodeView>, depth: nat) -> Seq<char>
    decreases cs, 0int,
{
    if cs.len() == 0 {
        Seq::empty()
    } else {
        render_children(cs.drop_last(), depth) + "\n"@ + render(cs.last(), depth)
    }
}

/// The height of a tree: leaves have height 1.
pub open spec fn height(v: NodeView) -> nat
    decreases v, 1int,
{
    (1 + heights(v.children)) as nat
}

pub open spec fn heights(cs: Seq<NodeView>) -> nat
    decreases cs, 0int,
{
    if cs.len() == 0 {
        0
    } else if height(cs[0]) >= heights(cs.drop_first()) {
        height(cs[0])
    } else {
        heights(cs.drop_first())
    }
}

proof fn lemma_heights_at(cs: Seq<NodeView>, i: int)
    requires
        0 <= i < cs.len(),
    ensures
        height(cs[i]) <= heights(cs),
    decreases i,
{
    if i > 0 {
        lemma_heights_at(cs.drop_first(), i - 1);
        assert(cs.drop_first()[i - 1] == cs[i]);
    }
}

/// The printed name of a node kind, as a string slice.
fn kind_str(k: NodeType) -> (r: &'static str)
    ensures
        r@ == kind_name(k),
{
    match k {
        NodeType::SetLiteral => "Set",
        NodeType::DataPoint => "DataPoint",
        NodeType::Definition => "Definition",
        NodeType::Union => "Union",
        NodeType::SetDifference => "SetDifference",
        NodeType::DataflowEquation => "DataflowEquation",
        NodeType::DataFlowEquationList => "DataFlowEquationList",
        NodeType::Body => "Body",
        NodeType::Root => "Root",
    }
}

impl Node {
    /// A human-readable dump of the tree: one line per node, indented four
    /// spaces per level of depth, giving the node's kind and, for a leaf,
    /// its token text.
    pub fn to_string(&self, depth: usize) -> (r: String)
        requires
            depth + height(self@) <= usize::MAX,
        ensures
            r@ == render(self@, depth as nat),
        decreases *self,
    {
        broadcast use lemma_nodes_view_index;

        let mut s = String::new();
        proof {
            assert(s@ =~= indent_of(0));
        }
        for j in 0..depth
            invariant
                s@ == indent_of(j as nat),
        {
            s.append("    ");
            proof {
                reveal_strlit("    ");
                assert(s@ =~= indent_of((j + 1) as nat));
            }
        }
        let ks = kind_str(self.node_type);
        s.append(ks);
        match &self.token {
            Some(t) => {
                s.append(" ");
                s.append(t.lexeme.as_str());
            },
            None => {},
        }
        let ghost line = indent_of(depth as nat) + kind_name(self@.kind) + (match self@.token {
            Some(t) => " "@ + t.text,
            None => Seq::<char>::empty(),
        });
        proof {
            assert(s@ == line);
            assert(self@.children.subrange(0, 0) =~= Seq::<NodeView>::empty());
        }
        let n = self.children.len();
        for i in 0..n
            invariant
                n == self.children@.len(),
                depth + height(self@) <= usize::MAX,
                s@ == line + render_children(
                    self@.children.subrange(0, i as int),
                    (depth + 1) as nat,
                ),
        {
            proof {
                lemma_nodes_view_index(self.children@);
                assert(self@.children[i as int] == self.children@[i as int]@);
                lemma_heights_at(self@.children, i as int);
            }
            s.append("\n");
            let child_text = self.children[i].to_string(depth + 1);
            s.append(child_text.as_str());
            proof {
                assert(self@.children.subrange(0, i + 1).drop_last() =~= self@.children.subrange(
                    0,
                    i as int,
                ));
                assert(self@.children.subrange(0, i + 1).last() == self@.children[i as int]);
            }
        }
        proof {
            lemma_nodes_view_index(self.children@);
            assert(self@.children.subrange(0, self@.children.len() as int) =~= self@.children);
        }
        s
    }
}

/// A data point leaf: no children, and it carries its `DataPoint` token.
pub open spec fn is_dp_leaf(v: NodeView) -> bool {
    &&& v.kind == NodeType::DataPoint
    &&& v.children.len() == 0
    &&& v.token is Some
    &&& v.token->0.kind == TokenType::DataPoint
}

/// A definition leaf: no children, and it carries its `Definition` token.
pub open spec fn is_def_leaf(v: NodeView) -> bool {
    &&& v.kind == NodeType::Definition
    &&& v.children.len() == 0
    &&& v.token is Some
    &&& v.token->0.kind == TokenType::Definition
}

/// The structural invariants of an expression tree: leaves carry their
/// tokens, a set holds only definition leaves, the two operators have
/// exactly two operands each, and a body wraps exactly one expression.
pub open spec fn wf_expr(v: NodeView) -> bool
    decreases v,
{
    if v.kind == NodeType::DataPoint {
        is_dp_leaf(v)
    } else if v.kind == NodeType::Definition {
        is_def_leaf(v)
    } else if v.kind == NodeType::SetLiteral {
        v.token is None && forall|i: int| 0 <= i < v.children.len() ==> is_def_leaf(
            #[trigger] v.children[i],
        )
    } else if v.kind == NodeType::Union || v.kind == NodeType::SetDifference {
        v.token is None && v.children.len() == 2 && wf_expr(v.children[0]) && wf_expr(
            v.children[1],
        )
    } else if v.kind == NodeType::Body {
        v.token is None && v.children.len() == 1 && wf_expr(v.children[0])
    } else {
        false
    }
}

/// The structural invariants of an equation node: exactly two children, a
/// data point leaf on the left and an expression on the right.
pub open spec fn wf_equation(v: NodeView) -> bool {
    &&& v.kind == NodeType::DataflowEquation
    &&& v.token is None
    &&& v.children.len() == 2
    &&& is_dp_leaf(v.children[0])
    &&& wf_expr(v.children[1])
}

/// Every node of a parsed definition list is a definition leaf.
proof fn lemma_defs_nodes_wf(ts: Seq<TokenView>, i: int)
    ensures
        forall|j: int| 0 <= j < defs_nodes(ts, i).len() ==> is_def_leaf(
            #[trigger] defs_nodes(ts, i)[j],
        ),
    decreases ts.len() - i,
{
    if 0 <= i < ts.len() && ts[i].kind == TokenType::Definition {
        let next = if i + 1 < ts.len() && ts[i + 1].kind == TokenType::Comma {
            i + 2
        } else {
            i + 1
        };
        lemma_defs_nodes_wf(ts, next);
        assert forall|j: int| 0 <= j < defs_nodes(ts, i).len() implies is_def_leaf(
            #[trigger] defs_nodes(ts, i)[j],
        ) by {
            if j > 0 {
                assert(defs_nodes(ts, i)[j] == defs_nodes(ts, next)[j - 1]);
            }
        }
    }
}

/// A successfully parsed body is a well-formed `Body` tree.
proof fn lemma_body_result_wf(ts: Seq<TokenView>, i: int)
    ensures
        body_result(ts, i) matches Some((v, n)) ==> v.kind == NodeType::Body && wf_expr(v),
    decreases ts.len() - i, 1int,
{
    if 0 <= i < ts.len() && ts[i].kind == TokenType::DataPoint {
        assert(wf_expr(leaf_node(NodeType::DataPoint, ts[i])));
        lemma_rest_result_wf(ts, i + 1, leaf_node(NodeType::DataPoint, ts[i]));
    } else if 0 <= i < ts.len() && ts[i].kind == TokenType::SetOpen && i + 1 + defs_run_len(
        ts,
        i + 1,
    ) < ts.len() && ts[i + 1 + defs_run_len(ts, i + 1)].kind == TokenType::SetClose {
        let sl = 2 + defs_run_len(ts, i + 1);
        lemma_defs_nodes_wf(ts, i + 1);
        assert(wf_expr(set_node_at(ts, i)));
        lemma_rest_result_wf(ts, i + sl, set_node_at(ts, i));
    }
}

proof fn lemma_rest_result_wf(ts: Seq<TokenView>, i: int, acc: NodeView)
    requires
        wf_expr(acc),
    ensures
        rest_result(ts, i, acc) matches Some((v, n)) ==> v.kind == NodeType::Body && wf_expr(v),
    decreases ts.len() - i, 0int,
{
    if i < 0 {
    } else if i >= ts.len() || ts[i].kind == TokenType::NewLine {
    } else if ts[i].kind == TokenType::SetDifference {
        if i + 1 < ts.len() && ts[i + 1].kind == TokenType::SetOpen && i + 2 + defs_run_len(
            ts,
            i + 2,
        ) < ts.len() && ts[i + 2 + defs_run_len(ts, i + 2)].kind == TokenType::SetClose {
            let sl = 2 + defs_run_len(ts, i + 2);
            lemma_defs_nodes_wf(ts, i + 2);
            assert(wf_expr(set_node_at(ts, i + 1)));
            assert(wf_expr(binary_node(NodeType::SetDifference, acc, set_node_at(ts, i + 1))));
            lemma_rest_result_wf(
                ts,
                i + 1 + sl,
                binary_node(NodeType::SetDifference, acc, set_node_at(ts, i + 1)),
            );
        }
    } else if ts[i].kind == TokenType::Union {
        lemma_body_result_wf(ts, i + 1);
        match body_result(ts, i + 1) {
            Some((b, m)) => {
                let j0 = i + 1 + m;
                let j = if j0 <= ts.len() {
                    j0
                } else {
                    ts.len() as int
                };
                assert(wf_expr(binary_node(NodeType::Union, acc, b)));
                lemma_rest_result_wf(ts, j, binary_node(NodeType::Union, acc, b));
            },
            None => {},
        }
    }
}

/// A successfully parsed equation is well formed.
proof fn lemma_eq_result_wf(ts: Seq<TokenView>, i: int)
    ensures
        eq_result(ts, i) matches Some((v, n)) ==> wf_equation(v),
{
    lemma_body_result_wf(ts, i + 2);
}

/// Every equation of a successfully parsed equation list is well formed.
proof fn lemma_eq_list_wf(ts: Seq<TokenView>, i: int)
    ensures
        eq_list_result(ts, i) matches Some(eqs) ==> forall|j: int|
            0 <= j < eqs.len() ==> wf_equation(#[trigger] eqs[j]),
    decreases ts.len() - i,
{
    if i >= ts.len() {
    } else if 0 <= i && ts[i].kind == TokenType::DataPoint && i + 1 < ts.len() && ts[i + 1].kind
        == TokenType::Equals {
        lemma_body_result_wf(ts, i + 2);
        match body_result(ts, i + 2) {
            Some((b, m)) => {
                let eq = binary_node(
                    NodeType::DataflowEquation,
                    leaf_node(NodeType::DataPoint, ts[i]),
                    b,
                );
                let j0 = i + 2 + m;
                let j = if j0 < ts.len() && ts[j0].kind == TokenType::NewLine {
                    j0 + 1
                } else if j0 <= ts.len() {
                    j0
                } else {
                    ts.len() as int
                };
                lemma_eq_list_wf(ts, j);
                match eq_list_result(ts, j) {
                    Some(rest) => {
                        assert(wf_equation(eq));
                        assert forall|jj: int|
                            0 <= jj < (seq![eq] + rest).len() implies wf_equation(
                            #[trigger] (seq![eq] + rest)[jj],
                        ) by {
                            if jj > 0 {
                                assert((seq![eq] + rest)[jj] == rest[jj - 1]);
                            }
                        }
                    },
                    None => {},
                }
            },
            None => {},
        }
    }
}

/// The abstract state of a parser: the tokens, the reading position, and the
/// operand stack.
pub struct ParserView {
    pub tokens: Seq<TokenView>,
    pub cursor: int,
    pub stack: Seq<NodeView>,
}

/// A recursive-descent parser over one token sequence, with an explicit
/// operand stack for the infix set operators.
pub struct Parser {
    tokens: Vec<Token>,
    cursor: usize,
    stack: Vec<Node>,
}

impl View for Parser {
    type V = ParserView;

    closed spec fn view(&self) -> ParserView {
        ParserView {
            tokens: tokens_view(self.tokens@),
            cursor: self.cursor as int,
            stack: nodes_view(self.stack@),
        }
    }
}

impl Parser {
    /// The cursor never runs past the end of the tokens.
    pub open spec fn wf(&self) -> bool {
        self@.cursor <= self@.tokens.len()
    }

    pub fn new(tokens: Vec<Token>) -> (p: Parser)
        ensures
            p@.tokens == tokens_view(tokens@),
            p@.cursor == 0,
            p@.stack.len() == 0,
            p.wf(),
    {
        Parser { tokens, cursor: 0, stack: Vec::new() }
    }

    /// Whether the current token exists and has the given kind.
    fn expect(&self, token_type: TokenType) -> (r: bool)
        requires
            self.wf(),
        ensures
            r == (self@.cursor < self@.tokens.len() && self@.tokens[self@.cursor].kind
                == token_type),
    {
        if self.cursor >= self.tokens.len() {
            return false;
        }
        self.tokens[self.cursor].token_type == token_type
    }

    /// The kind of the current token.
    fn peek_type(&self) -> (r: TokenType)
        requires
            self.wf(),
            self@.cursor < self@.tokens.len(),
        ensures
            r == self@.tokens[self@.cursor].kind,
    {
        self.tokens[self.cursor].token_type
    }

    /// Parse one data point reference; the current token must be a
    /// `DataPoint` or the parse fails.
    pub fn parse_data_point(&mut self) -> (r: Result<Node, ParseError>)
        requires
            old(self).wf(),
        ensures
            final(self).wf(),
            final(self)@.tokens == old(self)@.tokens,
            final(self)@.stack == old(self)@.stack,
            (r is Ok) == (old(self)@.cursor < old(self)@.tokens.len() && old(self)@.tokens[old(
                self,
            )@.cursor].kind == TokenType::DataPoint),
            r matches Ok(n) ==> n@ == leaf_node(
                NodeType::DataPoint,
                old(self)@.tokens[old(self)@.cursor],
            ) && final(self)@.cursor == old(self)@.cursor + 1,
            r is Err ==> final(self)@.cursor == old(self)@.cursor,
    {
        broadcast use lemma_nodes_view_index;
        proof {
            assert(self.tokens.len() == self@.tokens.len());
        }
        if !self.expect(TokenType::DataPoint) {
            return Err(ParseError::UnexpectedToken);
        }
        let node = Node {
            node_type: NodeType::DataPoint,
            children: Vec::new(),
            token: Some(self.tokens[self.cursor].duplicate()),
        };
        self.cursor = self.cursor + 1;
        proof {
            assert(node@ =~= leaf_node(NodeType::DataPoint, old(self)@.tokens[old(self)@.cursor]));
        }
        Ok(node)
    }

    /// Parse one definition leaf, or `None` when the current token is not a
    /// `Definition`.
    pub fn parse_definition(&mut self) -> (r: Option<Node>)
        requires
            old(self).wf(),
        ensures
            final(self).wf(),
            final(self)@.tokens == old(self)@.tokens,
            final(self)@.stack == old(self)@.stack,
            (r is Some) == (old(self)@.cursor < old(self)@.tokens.len() && old(self)@.tokens[old(
                self,
            )@.cursor].kind == TokenType::Definition),
            r matches Some(n) ==> n@ == leaf_node(
                NodeType::Definition,
                old(self)@.tokens[old(self)@.cursor],
            ) && final(self)@.cursor == old(self)@.cursor + 1,
            r is None ==> final(self)@.cursor == old(self)@.cursor,
    {
        broadcast use lemma_nodes_view_index;
        proof {
            assert(self.tokens.len() == self@.tokens.len());
        }
        if self.expect(TokenType::Definition) {
            let node = Node {
                node_type: NodeType::Definition,
                children: Vec::new(),
                token: Some(self.tokens[self.cursor].duplicate()),
            };
            self.cursor = self.cursor + 1;
            proof {
                assert(node@ =~= leaf_node(
                    NodeType::Definition,
                    old(self)@.tokens[old(self)@.cursor],
                ));
            }
            Some(node)
        } else {
            None
        }
    }

    /// Parse the comma-separated definition list inside a set literal.  This
    /// never fails: it stops at the first token that is not a `Definition`.
    pub fn parse_definition_list(&mut self) -> (r: Vec<Node>)
        requires
            old(self).wf(),
        ensures
            final(self).wf(),
            final(self)@.tokens == old(self)@.tokens,
            final(self)@.stack == old(self)@.stack,
            nodes_view(r@) == defs_nodes(old(self)@.tokens, old(self)@.cursor),
            final(self)@.cursor == old(self)@.cursor + defs_run_len(
                old(self)@.tokens,
                old(self)@.cursor,
            ),
    {
        broadcast use lemma_nodes_view_index;
        proof {
            assert(self.tokens.len() == self@.tokens.len());
        }
        let ghost ts = self@.tokens;
        let ghost c0 = self@.cursor;
        let ghost st = self@.stack;
        let mut definitions: Vec<Node> = Vec::new();
        loop
            invariant
                self.wf(),
                self@.tokens == ts,
                self@.stack == st,
                c0 <= self@.cursor,
                defs_nodes(ts, c0) == nodes_view(definitions@) + defs_nodes(ts, self@.cursor),
                defs_run_len(ts, c0) == (self@.cursor - c0) + defs_run_len(ts, self@.cursor),
            ensures
                self.wf(),
                self@.tokens == ts,
                self@.stack == st,
                c0 <= self@.cursor,
                nodes_view(definitions@) == defs_nodes(ts, c0),
                defs_run_len(ts, c0) == self@.cursor - c0,
            decreases ts.len() - self@.cursor,
        {
            if self.cursor >= self.tokens.len() {
                proof {
                    assert(nodes_view(definitions@) + defs_nodes(ts, self@.cursor) =~= nodes_view(
                        definitions@,
                    ));
                }
                break ;
            }
            let ghost p = self@.cursor;
            let definition = self.parse_definition();
            if definition.is_none() {
                proof {
                    assert(nodes_view(definitions@) + defs_nodes(ts, self@.cursor) =~= nodes_view(
                        definitions@,
                    ));
                }
                break ;
            }
            let ghost defs_before = definitions@;
            definitions.push(definition.unwrap());
            if self.expect(TokenType::Comma) {
                self.cursor = self.cursor + 1;
            }
            proof {
                lemma_nodes_view_push(defs_before, definitions@.last());
                assert(nodes_view(definitions@) + defs_nodes(ts, self@.cursor) =~= nodes_view(
                    defs_before,
                ) + (seq![leaf_node(NodeType::Definition, ts[p])] + defs_nodes(ts, self@.cursor)));
            }
        }
        definitions
    }

    /// Parse one set literal `{ ... }`; the parse fails unless a whole set
    /// literal begins at the current token.
    pub fn parse_set(&mut self) -> (r: Result<Node, ParseError>)
        requires
            old(self).wf(),
        ensures
            final(self).wf(),
            final(self)@.tokens == old(self)@.tokens,
            final(self)@.stack == old(self)@.stack,
            old(self)@.cursor <= final(self)@.cursor,
            (r is Ok) == valid_set_at(old(self)@.tokens, old(self)@.cursor),
            r matches Ok(n) ==> n@ == set_node_at(old(self)@.tokens, old(self)@.cursor)
                && final(self)@.cursor == old(self)@.cursor + set_len_at(
                old(self)@.tokens,
                old(self)@.cursor,
            ),
    {
        broadcast use lemma_nodes_view_index;
        proof {
            assert(self.tokens.len() == self@.tokens.len());
        }
        let ghost ts = self@.tokens;
        let ghost c0 = self@.cursor;
        if !self.expect(TokenType::SetOpen) {
            return Err(ParseError::UnexpectedToken);
        }
        self.cursor = self.cursor + 1;
        let definition_list = self.parse_definition_list();
        if !self.expect(TokenType::SetClose) {
            return Err(ParseError::UnterminatedSet);
        }
        self.cursor = self.cursor + 1;
        let node = Node { node_type: NodeType::SetLiteral, children: definition_list, token: None };
        proof {
            assert(node@ =~= set_node_at(ts, c0));
        }
        Ok(node)
    }

    /// Parse a set difference: pop the left operand off the stack, then
    /// parse the set to subtract.
    pub fn parse_set_difference(&mut self) -> (r: Result<Node, ParseError>)
        requires
            old(self).wf(),
            old(self)@.stack.len() == 1,
            old(self)@.cursor < old(self)@.tokens.len(),
            old(self)@.tokens[old(self)@.cursor].kind == TokenType::SetDifference,
        ensures
            final(self).wf(),
            final(self)@.tokens == old(self)@.tokens,
            final(self)@.stack.len() == 0,
            old(self)@.cursor <= final(self)@.cursor,
            (r is Ok) == valid_set_at(old(self)@.tokens, old(self)@.cursor + 1),
            r matches Ok(n) ==> n@ == binary_node(
                NodeType::SetDifference,
                old(self)@.stack.last(),
                set_node_at(old(self)@.tokens, old(self)@.cursor + 1),
            ) && final(self)@.cursor == old(self)@.cursor + 1 + set_len_at(
                old(self)@.tokens,
                old(self)@.cursor + 1,
            ),
    {
        broadcast use lemma_nodes_view_index;
        proof {
            assert(self.tokens.len() == self@.tokens.len());
        }
        let ghost st = self@.stack;
        proof {
            lemma_nodes_view_index(self.stack@);
        }
        self.cursor = self.cursor + 1;
        let lhs = self.stack.pop().unwrap();
        proof {
            assert(node_view(lhs) == st.last());
            assert(self@.stack =~= Seq::<NodeView>::empty());
        }
        let rhs = match self.parse_set() {
            Ok(s) => s,
            Err(e) => {
                return Err(e);
            },
        };
        let mut children: Vec<Node> = Vec::new();
        children.push(lhs);
        children.push(rhs);
        let node = Node { node_type: NodeType::SetDifference, children, token: None };
        proof {
            assert(nodes_view(children@) =~= seq![node_view(lhs), node_view(rhs)]);
            assert(node@ =~= binary_node(
                NodeType::SetDifference,
                st.last(),
                set_node_at(old(self)@.tokens, old(self)@.cursor + 1),
            ));
        }
        Ok(node)
    }

    /// Parse a union: pop the left operand off the stack, then parse the
    /// whole remaining set expression as the right operand.
    #[verifier::rlimit(100)]
    pub fn parse_union(&mut self) -> (r: Result<Node, ParseError>)
        requires
            old(self).wf(),
            old(self)@.stack.len() == 1,
            old(self)@.cursor < old(self)@.tokens.len(),
            old(self)@.tokens[old(self)@.cursor].kind == TokenType::Union,
        ensures
            final(self).wf(),
            final(self)@.tokens == old(self)@.tokens,
            final(self)@.stack.len() == 0,
            old(self)@.cursor <= final(self)@.cursor,
            (r is Ok) == (body_result(old(self)@.tokens, old(self)@.cursor + 1) is Some),
            r is Ok ==> final(self)@.cursor > old(self)@.cursor,
            r matches Ok(n) ==> body_result(old(self)@.tokens, old(self)@.cursor + 1) == Some(
                (n@.children[1], (final(self)@.cursor - (old(self)@.cursor + 1)) as nat),
            ) && n@ == binary_node(NodeType::Union, old(self)@.stack.last(), n@.children[1]),
        decreases self@.tokens.len() - self@.cursor,
    {
        broadcast use lemma_nodes_view_index;
        proof {
            assert(self.tokens.len() == self@.tokens.len());
        }
        let ghost st = self@.stack;
        proof {
            lemma_nodes_view_index(self.stack@);
        }
        self.cursor = self.cursor + 1;
        let lhs = self.stack.pop().unwrap();
        proof {
            assert(node_view(lhs) == st.last());
            assert(self@.stack =~= Seq::<NodeView>::empty());
        }
        let rhs = match self.parse_body() {
            Ok(b) => b,
            Err(e) => {
                return Err(e);
            },
        };
        let mut children: Vec<Node> = Vec::new();
        children.push(lhs);
        children.push(rhs);
        let node = Node { node_type: NodeType::Union, children, token: None };
        proof {
            assert(nodes_view(children@) =~= seq![node_view(lhs), node_view(rhs)]);
            assert(node@ =~= binary_node(NodeType::Union, st.last(), node_view(rhs)));
            assert(node@.children[1] == node_view(rhs));
        }
        Ok(node)
    }

    /// Parse one equation body: a primary operand followed by its operator
    /// chain, up to (but not including) the terminating `NewLine` or the end
    /// of the tokens.
    #[verifier::rlimit(100)]
    pub fn parse_body(&mut self) -> (r: Result<Node, ParseError>)
        requires
            old(self).wf(),
            old(self)@.stack.len() == 0,
        ensures
            final(self).wf(),
            final(self)@.tokens == old(self)@.tokens,
            final(self)@.stack.len() == 0,
            old(self)@.cursor <= final(self)@.cursor,
            (r is Ok) == (body_result(old(self)@.tokens, old(self)@.cursor) is Some),
            r matches Ok(n) ==> body_result(old(self)@.tokens, old(self)@.cursor) == Some(
                (n@, (final(self)@.cursor - old(self)@.cursor) as nat),
            ),
        decreases self@.tokens.len() - self@.cursor,
    {
        broadcast use lemma_nodes_view_index;
        proof {
            assert(self.tokens.len() == self@.tokens.len());
        }
        let ghost ts = self@.tokens;
        let ghost c0 = self@.cursor;
        loop
            invariant
                self.wf(),
                self@.tokens == ts,
                ts == old(self)@.tokens,
                c0 == old(self)@.cursor,
                c0 <= self@.cursor,
                self@.stack.len() <= 1,
                self@.stack.len() == 0 ==> self@.cursor == c0,
                self@.stack.len() == 1 ==> self@.cursor > c0 && body_result(ts, c0) == shifted(
                    rest_result(ts, self@.cursor, self@.stack.last()),
                    self@.cursor - c0,
                ),
            ensures
                self.wf(),
                self@.tokens == ts,
                c0 <= self@.cursor,
                self@.stack.len() <= 1,
                self@.stack.len() == 0 ==> self@.cursor == c0,
                self@.stack.len() == 1 ==> body_result(ts, c0) == shifted(
                    rest_result(ts, self@.cursor, self@.stack.last()),
                    self@.cursor - c0,
                ),
                self@.cursor >= ts.len() || ts[self@.cursor].kind == TokenType::NewLine,
            decreases ts.len() - self@.cursor,
        {
            if self.cursor >= self.tokens.len() {
                break ;
            }
            let k = self.peek_type();
            if k == TokenType::NewLine {
                break ;
            }
            let ghost p = self@.cursor;
            if k == TokenType::Union {
                if self.stack.len() == 0 {
                    return Err(ParseError::MissingOperand);
                }
                let ghost top = self@.stack.last();
                let u = match self.parse_union() {
                    Ok(n) => n,
                    Err(e) => {
                        return Err(e);
                    },
                };
                let ghost m = (self@.cursor - (p + 1)) as nat;
                proof {
                    lemma_body_result_bound(ts, p + 1);
                    assert(rest_result(ts, p, top) == shifted(
                        rest_result(ts, self@.cursor, u@),
                        1 + m as int,
                    ));
                }
                let ghost stack_before = self.stack@;
                self.stack.push(u);
                proof {
                    lemma_nodes_view_push(stack_before, u);
                }
            } else if k == TokenType::SetDifference {
                if self.stack.len() == 0 {
                    return Err(ParseError::MissingOperand);
                }
                let ghost top = self@.stack.last();
                let sd = match self.parse_set_difference() {
                    Ok(n) => n,
                    Err(e) => {
                        return Err(e);
                    },
                };
                proof {
                    assert(rest_result(ts, p, top) == shifted(
                        rest_result(ts, self@.cursor, sd@),
                        self@.cursor - p,
                    ));
                }
                let ghost stack_before = self.stack@;
                self.stack.push(sd);
                proof {
                    lemma_nodes_view_push(stack_before, sd);
                }
            } else if k == TokenType::SetOpen {
                if self.stack.len() > 0 {
                    self.stack = Vec::new();
                    return Err(ParseError::UnexpectedToken);
                }
                let s = match self.parse_set() {
                    Ok(n) => n,
                    Err(e) => {
                        return Err(e);
                    },
                };
                let ghost stack_before = self.stack@;
                self.stack.push(s);
                proof {
                    lemma_nodes_view_push(stack_before, s);
                    assert(body_result(ts, c0) == shifted(
                        rest_result(ts, self@.cursor, s@),
                        self@.cursor - c0,
                    ));
                }
            } else if k == TokenType::DataPoint {
                if self.stack.len() > 0 {
                    self.stack = Vec::new();
                    return Err(ParseError::UnexpectedToken);
                }
                let d = match self.parse_data_point() {
                    Ok(n) => n,
                    Err(e) => {
                        return Err(e);
                    },
                };
                let ghost stack_before = self.stack@;
                self.stack.push(d);
                proof {
                    lemma_nodes_view_push(stack_before, d);
                    assert(body_result(ts, c0) == shifted(
                        rest_result(ts, self@.cursor, d@),
                        self@.cursor - c0,
                    ));
                }
            } else {
                self.stack = Vec::new();
                return Err(ParseError::UnexpectedToken);
            }
        }
        if self.stack.len() == 0 {
            return Err(ParseError::MissingOperand);
        }
        proof {
            lemma_nodes_view_index(self.stack@);
        }
        let top = self.stack.pop().unwrap();
        proof {
            assert(self@.stack =~= Seq::<NodeView>::empty());
        }
        let mut children: Vec<Node> = Vec::new();
        children.push(top);
        let node = Node { node_type: NodeType::Body, children, token: None };
        proof {
            assert(nodes_view(children@) =~= seq![node_view(top)]);
            assert(rest_result(ts, self@.cursor, node_view(top)) == Some(
                (list_node(NodeType::Body, seq![node_view(top)]), 0nat),
            ));
            assert(node@ =~= list_node(NodeType::Body, seq![node_view(top)]));
        }
        Ok(node)
    }

    /// Parse one equation: a data point, `=`, a body, and the `NewLine`
    /// terminating it if one is present.
    #[verifier::rlimit(100)]
    pub fn parse_data_flow_equation(&mut self) -> (r: Result<Node, ParseError>)
        requires
            old(self).wf(),
            old(self)@.stack.len() == 0,
        ensures
            final(self).wf(),
            final(self)@.tokens == old(self)@.tokens,
            final(self)@.stack.len() == 0,
            (r is Ok) == (eq_result(old(self)@.tokens, old(self)@.cursor) is Some),
            r matches Ok(n) ==> eq_result(old(self)@.tokens, old(self)@.cursor) == Some(
                (n@, (final(self)@.cursor - old(self)@.cursor) as nat),
            ) && final(self)@.cursor > old(self)@.cursor,
    {
        broadcast use lemma_nodes_view_index;
        proof {
            assert(self.tokens.len() == self@.tokens.len());
        }
        let ghost ts = self@.tokens;
        let ghost c0 = self@.cursor;
        let l = match self.parse_data_point() {
            Ok(n) => n,
            Err(e) => {
                return Err(e);
            },
        };
        if !self.expect(TokenType::Equals) {
            return Err(ParseError::UnexpectedToken);
        }
        self.cursor = self.cursor + 1;
        let body = match self.parse_body() {
            Ok(b) => b,
            Err(e) => {
                return Err(e);
            },
        };
        if self.expect(TokenType::NewLine) {
            self.cursor = self.cursor + 1;
        }
        let mut children: Vec<Node> = Vec::new();
        children.push(l);
        children.push(body);
        let node = Node { node_type: NodeType::DataflowEquation, children, token: None };
        proof {
            assert(nodes_view(children@) =~= seq![node_view(l), node_view(body)]);
            assert(node@ =~= binary_node(NodeType::DataflowEquation, node_view(l), node_view(body)));
        }
        Ok(node)
    }

    /// Parse the whole list of equations, through to the end of the tokens.
    #[verifier::rlimit(100)]
    pub fn parse_data_flow_equation_list(&mut self) -> (r: Result<Node, ParseError>)
        requires
            old(self).wf(),
            old(self)@.stack.len() == 0,
        ensures
            final(self).wf(),
            final(self)@.tokens == old(self)@.tokens,
            final(self)@.stack.len() == 0,
            (r is Ok) == (eq_list_result(old(self)@.tokens, old(self)@.cursor) is Some),
            r matches Ok(n) ==> n@.kind == NodeType::DataFlowEquationList && n@.token is None
                && eq_list_result(old(self)@.tokens, old(self)@.cursor) == Some(n@.children),
    {
        broadcast use lemma_nodes_view_index;
        proof {
            assert(self.tokens.len() == self@.tokens.len());
        }
        let ghost ts = self@.tokens;
        let ghost c0 = self@.cursor;
        let mut equations: Vec<Node> = Vec::new();
        loop
            invariant
                self.wf(),
                self@.tokens == ts,
                ts == old(self)@.tokens,
                c0 == old(self)@.cursor,
                self@.stack.len() == 0,
                c0 <= self@.cursor,
                eq_list_result(ts, c0) == (match eq_list_result(ts, self@.cursor) {
                    Some(rest) => Some(nodes_view(equations@) + rest),
                    None => None::<Seq<NodeView>>,
                }),
            ensures
                self.wf(),
                self@.tokens == ts,
                self@.stack.len() == 0,
                eq_list_result(ts, c0) == Some(nodes_view(equations@)),
            decreases ts.len() - self@.cursor,
        {
            if self.cursor >= self.tokens.len() {
                proof {
                    assert(nodes_view(equations@) + Seq::<NodeView>::empty() =~= nodes_view(
                        equations@,
                    ));
                }
                break ;
            }
            let ghost p = self@.cursor;
            proof {
                lemma_eq_list_step(ts, p);
            }
            let eq = match self.parse_data_flow_equation() {
                Ok(n) => n,
                Err(e) => {
                    return Err(e);
                },
            };
            let ghost eqs_before = equations@;
            equations.push(eq);
            proof {
                lemma_nodes_view_push(eqs_before, eq);
                match eq_list_result(ts, self@.cursor) {
                    Some(rest) => {
                        assert(nodes_view(eqs_before) + (seq![node_view(eq)] + rest) =~= nodes_view(
                            equations@,
                        ) + rest);
                    },
                    None => {},
                }
            }
        }
        let node = Node { node_type: NodeType::DataFlowEquationList, children: equations, token: None };
        proof {
            assert(node@ =~= list_node(NodeType::DataFlowEquationList, nodes_view(equations@)));
        }
        Ok(node)
    }

    /// Parse the whole token sequence into a `Root` tree holding the
    /// equation list.
    pub fn parse(&mut self) -> (r: Result<Node, ParseError>)
        requires
            old(self).wf(),
            old(self)@.stack.len() == 0,
        ensures
            final(self).wf(),
            final(self)@.tokens == old(self)@.tokens,
            final(self)@.stack.len() == 0,
            (r is Ok) == (eq_list_result(old(self)@.tokens, old(self)@.cursor) is Some),
            r matches Ok(n) ==> n@.kind == NodeType::Root && n@.token is None && n@.children.len()
                == 1 && n@.children[0].kind == NodeType::DataFlowEquationList
                && n@.children[0].token is None && eq_list_result(
                old(self)@.tokens,
                old(self)@.cursor,
            ) == Some(n@.children[0].children),
            r matches Ok(n) ==> forall|i: int|
                0 <= i < n@.children[0].children.len() ==> wf_equation(
                    #[trigger] n@.children[0].children[i],
                ),
    {
        broadcast use lemma_nodes_view_index;
        proof {
            assert(self.tokens.len() == self@.tokens.len());
            lemma_eq_list_wf(self@.tokens, self@.cursor);
        }
        let list = match self.parse_data_flow_equation_list() {
            Ok(n) => n,
            Err(e) => {
                return Err(e);
            },
        };
        let ghost list_view = node_view(list);
        let mut children: Vec<Node> = Vec::new();
        children.push(list);
        let root = Node { node_type: NodeType::Root, children, token: None };
        proof {
            assert(nodes_view(children@) =~= seq![list_view]);
            let ts0 = old(self)@.tokens;
            let c0 = old(self)@.cursor;
            assert(eq_list_result(ts0, c0) == Some(list_view.children));
            assert forall|i: int|
                0 <= i < root@.children[0].children.len() implies wf_equation(
                #[trigger] root@.children[0].children[i],
            ) by {
                assert(root@.children[0].children[i] == (eq_list_result(ts0, c0)->0)[i]);
            }
        }
        Ok(root)
    }
}

} // verus!
