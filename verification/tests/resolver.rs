use rfmt::parser::diagnostic::DiagnosticKind;
use rfmt::parser::operators::find_operator;
use rfmt::parser::parse::{assemble_items, resolve_expression, Cursor, RunItem};
use rfmt::parser::pratt::{build_table, Shape};
use rfmt::parser::scanner::scan;
use rfmt::parser::token::{Operator, Token, TriviaKind};
use rfmt::parser::tree::{Node, NodeKind};
use rfmt::parser::RParser;

fn outline(node: &Node) -> String {
    if node.children.is_empty() {
        return format!("{}", node.lo);
    }
    let inner: Vec<String> = node.children.iter().map(outline).collect();
    format!("({:?} {})", node.kind, inner.join(" "))
}

fn operand(i: usize) -> RunItem {
    RunItem::Operand(Node::leaf(NodeKind::Symbol, i, i + 1))
}

fn binary(i: usize, op: Operator) -> RunItem {
    RunItem::Operator { token: i, line: find_operator(op, false).unwrap() }
}

fn prefix(i: usize, op: Operator) -> RunItem {
    RunItem::Operator { token: i, line: find_operator(op, true).unwrap() }
}

fn tokens_of(src: &str) -> Vec<Token> {
    scan(src.as_bytes()).tokens
}

fn at(next: usize) -> Cursor {
    Cursor { next, ok: true, diags: Vec::new() }
}

#[test]
fn assembling_follows_the_shape_it_is_given() {
    let tokens = tokens_of("a ^ b ^ c");
    let pow = find_operator(Operator::Caret, false).unwrap() as u8 + 1;
    let run = || {
        vec![operand(0), binary(1, Operator::Caret), operand(2), binary(3, Operator::Caret), operand(4)]
    };
    let right = Shape::infix(
        Shape::operand(),
        pow,
        Shape::infix(Shape::operand(), pow, Shape::operand()),
    );
    let (node, cur) = assemble_items(&tokens, &right, run(), at(5), 0);
    assert_eq!(outline(&node), "(Binary 0 1 (Binary 2 3 4))");
    assert_eq!((node.lo, node.hi, cur.next), (0, 5, 5));
    assert!(cur.ok && cur.diags.is_empty());
    let left = Shape::infix(
        Shape::infix(Shape::operand(), pow, Shape::operand()),
        pow,
        Shape::operand(),
    );
    let (node, _) = assemble_items(&tokens, &left, run(), at(5), 0);
    assert_eq!(outline(&node), "(Binary (Binary 0 1 2) 3 4)");
}

#[test]
fn assembling_a_prefix_operator() {
    let tokens = tokens_of("- a <- b");
    let neg = find_operator(Operator::Minus, true).unwrap() as u8 + 1;
    let arrow = find_operator(Operator::LeftAssign, false).unwrap() as u8 + 1;
    let shape = Shape::infix(Shape::prefix(neg, Shape::operand()), arrow, Shape::operand());
    let items = vec![
        prefix(0, Operator::Minus),
        operand(1),
        binary(2, Operator::LeftAssign),
        operand(3),
    ];
    let (node, cur) = assemble_items(&tokens, &shape, items, at(4), 0);
    assert_eq!(outline(&node), "(Assignment (Unary 0 1) 2 3)");
    assert!(cur.diags.is_empty());
}

#[test]
fn assembling_rejects_comparisons_side_by_side() {
    let tokens = tokens_of("a < b < c");
    let lt = find_operator(Operator::Lt, false).unwrap() as u8 + 1;
    let shape = Shape::infix(
        Shape::infix(Shape::operand(), lt, Shape::operand()),
        lt,
        Shape::operand(),
    );
    let items =
        vec![operand(0), binary(1, Operator::Lt), operand(2), binary(3, Operator::Lt), operand(4)];
    let (node, cur) = assemble_items(&tokens, &shape, items, at(5), 0);
    assert_eq!(outline(&node), "(Error (Binary 0 1 2) 3 4)");
    assert!(!cur.ok);
    assert_eq!(cur.diags.len(), 1);
    assert_eq!(cur.diags[0].kind, DiagnosticKind::NonAssociative);
    assert_eq!((cur.diags[0].start, cur.diags[0].end), (6, 7));
}

#[test]
fn resolving_a_single_operand_gives_the_operand() {
    let tokens = tokens_of("a");
    let table = build_table();
    let (node, cur) = resolve_expression(&tokens, &table, vec![operand(0)], at(1), 0);
    assert_eq!((node.kind, node.lo, node.hi), (NodeKind::Symbol, 0, 1));
    assert!(cur.ok);
}

#[test]
fn resolving_nests_by_precedence() {
    let tokens = tokens_of("a + b * c ^ d ^ e - f");
    let table = build_table();
    let items = vec![
        operand(0),
        binary(1, Operator::Plus),
        operand(2),
        binary(3, Operator::Star),
        operand(4),
        binary(5, Operator::Caret),
        operand(6),
        binary(7, Operator::Caret),
        operand(8),
        binary(9, Operator::Minus),
        operand(10),
    ];
    let (node, cur) = resolve_expression(&tokens, &table, items, at(11), 0);
    assert_eq!(
        outline(&node),
        "(Binary (Binary 0 1 (Binary 2 3 (Binary 4 5 (Binary 6 7 8)))) 9 10)"
    );
    assert!(cur.ok && cur.diags.is_empty());
}

#[test]
fn resolving_a_run_that_does_not_alternate_keeps_it_flat() {
    let tokens = tokens_of("a b + c");
    let table = build_table();
    let items = vec![operand(0), operand(1), binary(2, Operator::Plus), operand(3)];
    let (node, cur) = resolve_expression(&tokens, &table, items, at(4), 0);
    assert_eq!(outline(&node), "(Error 0 1 2 3)");
    assert!(!cur.ok);
    assert_eq!(cur.diags.len(), 1);
    assert_eq!(cur.diags[0].kind, DiagnosticKind::Unresolved);
}

#[test]
fn trailing_comment_belongs_to_its_statement() {
    let src = "x <- 1  # one\n# next\ny <- 2\n";
    let r = RParser::parse(src);
    let stmts: Vec<&Node> = r
        .root
        .children
        .iter()
        .filter(|n| n.kind != NodeKind::Token)
        .collect();
    let trail = r.trailing_trivia(stmts[0]);
    let kinds: Vec<TriviaKind> = trail.iter().map(|t| t.kind).collect();
    assert_eq!(kinds, vec![TriviaKind::Whitespace, TriviaKind::LineComment]);
    assert_eq!(&src[trail[1].start..trail[1].end], "# one");
    let lead = r.leading_trivia(stmts[1]);
    assert_eq!(lead[0].kind, TriviaKind::LineComment);
    assert_eq!(&src[lead[0].start..lead[0].end], "# next");
    assert!(r.trailing_trivia(stmts[1]).is_empty());
    assert!(r.trailing_trivia(&stmts[0].children[0]).is_empty());
}

#[test]
fn byte_spans_cover_the_text_without_gaps() {
    let src = "  a <- 1 # c\n\nb\n";
    let r = RParser::parse(src);
    assert_eq!(r.byte_span(&r.root), Some((0, src.len())));
    let mut at = 0;
    for child in &r.root.children {
        let (from, to) = r.byte_span(child).unwrap();
        assert_eq!(from, at);
        at = to;
    }
    assert_eq!(at, src.len());
    assert_eq!(r.byte_span(&r.root.children[0]), Some((0, 8)));
    assert_eq!(r.byte_span(&Node::leaf(NodeKind::Missing, 99, 99)), None);
    assert_eq!(r.byte_span(&Node::leaf(NodeKind::Missing, 2, 1)), None);
}

#[test]
fn rebuilding_from_another_text_does_not_fail() {
    let r = RParser::parse("abc <- 1\n");
    assert_eq!(r.reconstruct(b"ab"), b"");
    assert_eq!(r.reconstruct(b""), b"");
    assert_eq!(r.reconstruct(b"xyz =  2;more"), b"xyz =  2;");
    assert_eq!(r.reconstruct(b"abc <- 1\n"), b"abc <- 1\n");
}
