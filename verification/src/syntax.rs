//! The syntax index: the buffer's text is reparsed whole with the
//! tree-sitter Rust grammar, and the leaf (childless) nodes of the parse
//! tree come out as tokens — a type tag and an absolute (column, row)
//! span — in depth-first order, children before siblings. The traversal's
//! order is not sorted by position across nesting depths; the renderer
//! orders the tokens by start offset itself. A failed parse yields no
//! tree, and rendering falls back to a single untagged span.
//!
//! A parse tree is opaque to the verifier, so what its accessors return is
//! named: each node has a child count, children, a type tag and a span,
//! and a height under which every child stands strictly lower (a parse
//! tree is finite). Over those names `leafs_below` defines the leaf
//! sequence of a node, `tree_leafs_s` names a whole tree's, and
//! `rust_tokens_of` names the parse of a text — the parser is handed no
//! previous tree and has no timeout or cancellation, so its result depends
//! on the text alone.

use vstd::prelude::*;
use crate::render::Token;

verus! {

#[verifier::external_type_specification]
#[verifier::external_body]
pub struct ExParser(tree_sitter::Parser);

#[verifier::external_type_specification]
#[verifier::external_body]
pub struct ExTree(tree_sitter::Tree);

#[verifier::external_type_specification]
#[verifier::external_body]
pub struct ExNode<'tree>(tree_sitter::Node<'tree>);

/// The number of children of a node, as `Node::child_count` reports it.
pub uninterp spec fn node_child_count_s(n: tree_sitter::Node) -> nat;

/// The i-th child of a node, as `Node::child` returns it (meaningful for
/// indices below the child count).
pub uninterp spec fn node_child_s(n: tree_sitter::Node, i: nat) -> tree_sitter::Node;

/// A node's height in its finite parse tree: every child stands strictly
/// lower. The names of a tree's accessors need this one extra measure so
/// that walking the children terminates.
pub uninterp spec fn node_height_s(n: tree_sitter::Node) -> nat;

/// A node's numeric type tag, as `Node::kind_id` reports it.
pub uninterp spec fn node_kind_s(n: tree_sitter::Node) -> u16;

/// A node's start position as (row, column), as `Node::start_position`
/// reports it.
pub uninterp spec fn node_start_s(n: tree_sitter::Node) -> (usize, usize);

/// A node's end position as (row, column), as `Node::end_position`
/// reports it.
pub uninterp spec fn node_end_s(n: tree_sitter::Node) -> (usize, usize);

/// The leaf tokens a whole parse tree holds, in depth-first order.
pub uninterp spec fn tree_leafs_s(t: tree_sitter::Tree) -> Seq<Token>;

/// The leaf tokens that parsing a text with the Rust grammar yields: with
/// a fixed grammar, no previous tree and no cancellation, a function of
/// the text alone.
pub uninterp spec fn rust_tokens_of(s: Seq<char>) -> Seq<Token>;

/// The token a single node yields: its type tag and its absolute
/// (column, row) span.
pub open spec fn node_token_s(n: tree_sitter::Node) -> Token {
    Token {
        tag: node_kind_s(n),
        start_row: node_start_s(n).0,
        start_col: node_start_s(n).1,
        end_row: node_end_s(n).0,
        end_col: node_end_s(n).1,
    }
}

/// The leaf tokens at or below a node, children before siblings: a
/// childless node yields its own token, any other node the leaves of its
/// children in order.
pub open spec fn leafs_below(n: tree_sitter::Node) -> Seq<Token>
    decreases node_height_s(n), node_child_count_s(n) + 1,
{
    if node_child_count_s(n) == 0 {
        seq![node_token_s(n)]
    } else {
        leafs_of_children(n, 0)
    }
}

/// The leaves of children `i` and onward of `n`. The recursion into a
/// child is guarded by the height decrease that the tree's accessors
/// guarantee.
pub open spec fn leafs_of_children(n: tree_sitter::Node, i: nat) -> Seq<Token>
    decreases node_height_s(n), node_child_count_s(n) - i,
{
    if i >= node_child_count_s(n) {
        Seq::empty()
    } else {
        let c = node_child_s(n, i);
        (if node_height_s(c) < node_height_s(n) {
            leafs_below(c)
        } else {
            Seq::empty()
        }) + leafs_of_children(n, i + 1)
    }
}

/// Relies on tree_sitter's `Parser::new`: a fresh parser with no language
/// set.
#[verifier::external_body]
pub(crate) fn ts_new_parser() -> tree_sitter::Parser {
    tree_sitter::Parser::new()
}

/// Relies on tree_sitter's `Parser::set_language` and the Rust grammar of
/// tree_sitter_rust; reports whether the grammar was accepted (it is
/// refused only on a version mismatch).
#[verifier::external_body]
pub(crate) fn ts_set_rust_language(p: &mut tree_sitter::Parser) -> bool {
    p.set_language(&tree_sitter_rust::LANGUAGE.into()).is_ok()
}

/// Relies on tree_sitter's `Parser::parse`: parses the whole text with no
/// previous tree as a hint; `None` when the parser has no language or
/// parsing was cancelled. With the grammar fixed and no cancellation
/// configured, the resulting tree's leaves are a function of the text
/// alone, named `rust_tokens_of`.
#[verifier::external_body]
pub(crate) fn ts_parse(p: &mut tree_sitter::Parser, text: &str) -> (r: Option<tree_sitter::Tree>)
    ensures
        r matches Some(t) ==> tree_leafs_s(t) == rust_tokens_of(text@),
{
    p.parse(text, None)
}

/// Relies on tree_sitter's `Tree::root_node`: the leaves at or below the
/// root are exactly the tree's leaves.
#[verifier::external_body]
pub(crate) fn ts_root_node<'t>(t: &'t tree_sitter::Tree) -> (n: tree_sitter::Node<'t>)
    ensures
        leafs_below(n) == tree_leafs_s(*t),
{
    t.root_node()
}

/// Relies on tree_sitter's `Node::child_count`, a pure accessor of an
/// immutable tree.
#[verifier::external_body]
pub(crate) fn ts_child_count(n: &tree_sitter::Node<'_>) -> (c: u32)
    ensures
        c == node_child_count_s(*n),
{
    n.child_count()
}

/// Relies on tree_sitter's `Node::child`: the i-th child where one
/// exists, `None` from the child count on; a child stands strictly lower
/// than its parent in the finite tree.
#[verifier::external_body]
pub(crate) fn ts_child<'t>(n: &tree_sitter::Node<'t>, i: u32) -> (r: Option<tree_sitter::Node<'t>>)
    ensures
        r is Some <==> (i as nat) < node_child_count_s(*n),
        r matches Some(c) ==> c == node_child_s(*n, i as nat) && node_height_s(c) < node_height_s(
            *n,
        ),
{
    n.child(i)
}

/// Relies on tree_sitter's `Node::start_position`, as (row, column).
#[verifier::external_body]
pub(crate) fn ts_start_position(n: &tree_sitter::Node<'_>) -> (p: (usize, usize))
    ensures
        p == node_start_s(*n),
{
    let p = n.start_position();
    (p.row, p.column)
}

/// Relies on tree_sitter's `Node::end_position`, as (row, column).
#[verifier::external_body]
pub(crate) fn ts_end_position(n: &tree_sitter::Node<'_>) -> (p: (usize, usize))
    ensures
        p == node_end_s(*n),
{
    let p = n.end_position();
    (p.row, p.column)
}

/// Relies on tree_sitter's `Node::kind_id`: the numeric type tag of the
/// node's grammar symbol.
#[verifier::external_body]
pub(crate) fn ts_kind_id(n: &tree_sitter::Node<'_>) -> (k: u16)
    ensures
        k == node_kind_s(*n),
{
    n.kind_id()
}

/// The leaf tokens at or below a node, in depth-first order, children
/// before siblings: every childless node's tag and span, each exactly
/// once, and nothing else. The recursion terminates because each child
/// stands strictly lower in the finite tree.
pub fn leaf_tokens(node: tree_sitter::Node<'_>) -> (out: Vec<Token>)
    ensures
        out@ == leafs_below(node),
    decreases node_height_s(node),
{
    let cc = ts_child_count(&node);
    let mut out: Vec<Token> = Vec::new();
    if cc == 0 {
        let sp = ts_start_position(&node);
        let ep = ts_end_position(&node);
        out.push(
            Token {
                tag: ts_kind_id(&node),
                start_row: sp.0,
                start_col: sp.1,
                end_row: ep.0,
                end_col: ep.1,
            },
        );
        proof {
            assert(out@ =~= seq![node_token_s(node)]);
        }
    } else {
        let mut i: u32 = 0;
        while i < cc
            invariant
                i <= cc,
                cc == node_child_count_s(node),
                cc > 0,
                out@ + leafs_of_children(node, i as nat) == leafs_of_children(node, 0),
            decreases cc - i,
        {
            match ts_child(&node, i) {
                Some(c) => {
                    let mut sub = leaf_tokens(c);
                    proof {
                        assert(leafs_of_children(node, i as nat) == leafs_below(c)
                            + leafs_of_children(node, (i + 1) as nat));
                    }
                    out.append(&mut sub);
                    proof {
                        assert(out@ + leafs_of_children(node, (i + 1) as nat)
                            =~= leafs_of_children(node, 0));
                    }
                },
                None => {
                    proof {
                        assert(false);
                    }
                },
            }
            i += 1;
        }
        proof {
            assert(leafs_of_children(node, cc as nat) =~= Seq::<Token>::empty());
            assert(out@ =~= leafs_of_children(node, 0));
        }
    }
    out
}

} // verus!
