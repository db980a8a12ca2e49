use tedit::render::Token;
use tedit::syntax::leaf_tokens;

/// An independent reference walk over the same tree: the childless nodes'
/// tags and spans, children before siblings.
fn reference_leafs(node: tree_sitter::Node<'_>, out: &mut Vec<Token>) {
    if node.child_count() == 0 {
        let sp = node.start_position();
        let ep = node.end_position();
        out.push(Token {
            tag: node.kind_id(),
            start_row: sp.row,
            start_col: sp.column,
            end_row: ep.row,
            end_col: ep.column,
        });
    }
    for i in 0..node.child_count() {
        reference_leafs(node.child(i).unwrap(), out);
    }
}

fn parse(text: &str) -> tree_sitter::Tree {
    let mut parser = tree_sitter::Parser::new();
    parser.set_language(&tree_sitter_rust::LANGUAGE.into()).unwrap();
    parser.parse(text, None).unwrap()
}

#[test]
fn leaf_tokens_match_an_independent_walk() {
    let tree = parse("fn main() {\n    let x = 1;\n}\n");
    let got = leaf_tokens(tree.root_node());
    let mut expected = Vec::new();
    reference_leafs(tree.root_node(), &mut expected);
    assert_eq!(got, expected);
    assert!(got.len() > 1);
}

#[test]
fn leaf_tokens_are_childless_and_in_document_order_here() {
    let tree = parse("struct P { x: u8 }\n");
    let got = leaf_tokens(tree.root_node());
    assert!(got.len() > 1);
    assert_eq!((got[0].start_row, got[0].start_col), (0, 0));
    for w in got.windows(2) {
        assert!((w[0].start_row, w[0].start_col) <= (w[1].start_row, w[1].start_col));
    }
}

#[test]
fn leaf_tokens_of_a_leaf_only_tree() {
    // an empty text parses to a childless root: exactly one token
    let tree = parse("");
    let got = leaf_tokens(tree.root_node());
    assert_eq!(got.len(), 1);
    assert_eq!((got[0].start_row, got[0].start_col), (0, 0));
    assert_eq!((got[0].end_row, got[0].end_col), (0, 0));
}
