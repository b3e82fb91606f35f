use rfmt::parser::diagnostic::{Diagnostic, DiagnosticKind, Severity};
use rfmt::parser::operators::find_operator;
use rfmt::parser::parse::{
    kind_of, leaf_kind_of, parse_expr, parse_operand, parse_program, parse_statement, Cursor,
};
use rfmt::parser::pratt::build_table;
use rfmt::parser::scanner::scan;
use rfmt::parser::token::{Keyword, LexError, Operator, Punct, TokenKind};
use rfmt::parser::tree::{Node, NodeKind};
use rfmt::parser::RParser;

#[test]
fn leaf_and_inner_nodes_hold_what_they_are_given() {
    let a = Node::leaf(NodeKind::Symbol, 3, 4);
    assert_eq!((a.kind, a.lo, a.hi, a.children.len()), (NodeKind::Symbol, 3, 4, 0));
    let m = Node::leaf(NodeKind::Missing, 4, 4);
    let p = Node::inner(NodeKind::Paren, 3, 4, vec![a, m]);
    assert_eq!((p.kind, p.lo, p.hi, p.children.len()), (NodeKind::Paren, 3, 4, 2));
    assert_eq!(p.children[0].kind, NodeKind::Symbol);
    assert_eq!(p.children[1].kind, NodeKind::Missing);
}

#[test]
fn unary_node_spans_operator_and_operand() {
    let n = Node::unary(Node::leaf(NodeKind::Token, 0, 1), Node::leaf(NodeKind::Literal, 1, 2));
    assert_eq!((n.kind, n.lo, n.hi), (NodeKind::Unary, 0, 2));
    assert_eq!(n.children.len(), 2);
    assert_eq!(n.children[0].kind, NodeKind::Token);
    assert_eq!(n.children[1].kind, NodeKind::Literal);
}

#[test]
fn binary_node_for_plain_operator() {
    let plus = find_operator(Operator::Plus, false).unwrap();
    let r = Node::binary(
        Node::leaf(NodeKind::Symbol, 0, 1),
        0,
        Node::leaf(NodeKind::Token, 1, 2),
        plus,
        Node::leaf(NodeKind::Symbol, 2, 3),
        10,
    );
    let n = r.expect("plus associates");
    assert_eq!((n.kind, n.lo, n.hi, n.children.len()), (NodeKind::Binary, 0, 3, 3));
}

#[test]
fn binary_node_for_assignment() {
    for op in [Operator::LeftAssign, Operator::EqAssign, Operator::RightAssign, Operator::ColonAssign] {
        let line = find_operator(op, false).unwrap();
        let n = Node::binary(
            Node::leaf(NodeKind::Symbol, 0, 1),
            0,
            Node::leaf(NodeKind::Token, 1, 2),
            line,
            Node::leaf(NodeKind::Literal, 2, 3),
            0,
        )
        .unwrap();
        assert_eq!(n.kind, NodeKind::Assignment);
    }
}

#[test]
fn binary_node_rejects_comparison_over_comparison() {
    let lt = find_operator(Operator::Lt, false).unwrap();
    let make = |left_tier: u8, right_tier: u8| {
        Node::binary(
            Node::leaf(NodeKind::Symbol, 0, 1),
            left_tier,
            Node::leaf(NodeKind::Token, 1, 2),
            lt,
            Node::leaf(NodeKind::Symbol, 2, 3),
            right_tier,
        )
    };
    let rejected = make(9, 0).expect_err("same tier on the left");
    assert_eq!(rejected.kind, NodeKind::Error);
    assert_eq!((rejected.lo, rejected.hi, rejected.children.len()), (0, 3, 3));
    assert!(make(0, 9).is_err());
    assert!(make(0, 0).is_ok());
    assert!(make(10, 11).is_ok());
    assert_eq!(make(10, 8).unwrap().kind, NodeKind::Binary);
}

#[test]
fn leaves_are_named_after_their_tokens() {
    assert_eq!(leaf_kind_of(TokenKind::Number), NodeKind::Literal);
    assert_eq!(leaf_kind_of(TokenKind::String), NodeKind::Literal);
    assert_eq!(leaf_kind_of(TokenKind::Identifier), NodeKind::Symbol);
    assert_eq!(leaf_kind_of(TokenKind::Keyword(Keyword::True)), NodeKind::Literal);
    assert_eq!(leaf_kind_of(TokenKind::Keyword(Keyword::NaReal)), NodeKind::Literal);
    assert_eq!(leaf_kind_of(TokenKind::Keyword(Keyword::Break)), NodeKind::Break);
    assert_eq!(leaf_kind_of(TokenKind::Keyword(Keyword::Next)), NodeKind::Next);
    assert_eq!(leaf_kind_of(TokenKind::Keyword(Keyword::If)), NodeKind::Token);
    assert_eq!(leaf_kind_of(TokenKind::Operator(Operator::Plus)), NodeKind::Token);
    assert_eq!(leaf_kind_of(TokenKind::Punct(Punct::Comma)), NodeKind::Token);
    assert_eq!(leaf_kind_of(TokenKind::Newline), NodeKind::Token);
    assert_eq!(leaf_kind_of(TokenKind::Eof), NodeKind::Token);
    assert_eq!(
        leaf_kind_of(TokenKind::Error(LexError::InvalidEscape)),
        NodeKind::Error
    );
}

#[test]
fn kind_past_the_last_token_is_eof() {
    let r = RParser::parse("a + 1");
    assert_eq!(kind_of(&r.scan.tokens, 0), TokenKind::Identifier);
    assert_eq!(kind_of(&r.scan.tokens, 1), TokenKind::Operator(Operator::Plus));
    assert_eq!(kind_of(&r.scan.tokens, 3), TokenKind::Eof);
    assert_eq!(kind_of(&r.scan.tokens, 99), TokenKind::Eof);
}

#[test]
fn every_kind_of_diagnostic_has_its_message() {
    let say = |kind| Diagnostic { start: 0, end: 0, severity: Severity::Error, kind }.message();
    assert_eq!(say(DiagnosticKind::Lexical(LexError::UnterminatedString)), "unterminated string");
    assert_eq!(say(DiagnosticKind::Lexical(LexError::InvalidEscape)), "unrecognized escape in string");
    assert_eq!(say(DiagnosticKind::Lexical(LexError::MalformedRawString)), "malformed raw string");
    assert_eq!(say(DiagnosticKind::Lexical(LexError::UnexpectedCharacter)), "unexpected character");
    assert_eq!(say(DiagnosticKind::MissingOperand), "expected an expression");
    assert_eq!(say(DiagnosticKind::Expected(Punct::RParen)), "expected `)`");
    assert_eq!(say(DiagnosticKind::Expected(Punct::RBrace)), "expected `}`");
    assert_eq!(say(DiagnosticKind::Expected(Punct::Comma)), "expected `,`");
    assert_eq!(say(DiagnosticKind::ExpectedName), "expected a name");
    assert_eq!(say(DiagnosticKind::MalformedStatement), "malformed statement");
    assert_eq!(say(DiagnosticKind::NonAssociative), "operator does not associate");
    assert_eq!(say(DiagnosticKind::InvalidParameter), "invalid formal parameter");
    assert_eq!(say(DiagnosticKind::TooDeep), "nesting too deep");
    assert_eq!(say(DiagnosticKind::Unresolved), "operators could not be resolved");
}

#[test]
fn diagnostics_carry_the_span_of_their_token() {
    let src = "f(a b)\nx$1\n";
    let r = RParser::parse(src);
    let found: Vec<(DiagnosticKind, &str)> = r
        .diagnostics
        .iter()
        .map(|d| (d.kind, &src[d.start..d.end]))
        .collect();
    assert_eq!(
        found,
        vec![
            (DiagnosticKind::Expected(Punct::Comma), "b"),
            (DiagnosticKind::MalformedStatement, "\n"),
            (DiagnosticKind::ExpectedName, "1"),
            (DiagnosticKind::MalformedStatement, "1"),
        ]
    );
    assert!(r.diagnostics.iter().all(|d| d.severity == Severity::Error));
}

#[test]
fn rules_can_be_run_on_their_own() {
    let src = "f(x)$y + 2 * 3 z\n";
    let s = scan(src.as_bytes());
    let table = build_table();
    let start = || Cursor { next: 0, ok: true, diags: Vec::new() };

    let (node, cur) = parse_operand(&s.tokens, &table, start(), 8);
    assert_eq!((node.kind, node.lo, node.hi, cur.next), (NodeKind::Member, 0, 6, 6));
    assert!(cur.ok && cur.diags.is_empty());

    let (node, cur) = parse_expr(&s.tokens, &table, start(), 8);
    assert_eq!((node.kind, node.lo, node.hi, cur.next), (NodeKind::Binary, 0, 10, 10));
    assert_eq!(node.children[2].kind, NodeKind::Binary);
    assert!(cur.ok && cur.diags.is_empty());

    let (node, cur) = parse_statement(&s.tokens, &table, start(), 8, false);
    assert_eq!((node.kind, node.lo, node.hi, cur.next), (NodeKind::Error, 0, 11, 11));
    assert!(cur.ok);
    assert_eq!(cur.diags.len(), 1);

    let (_, shallow) = parse_expr(&s.tokens, &table, start(), 0);
    assert!(!shallow.ok);
    assert_eq!(shallow.diags[0].kind, DiagnosticKind::TooDeep);

    let (root, cur) = parse_program(&s.tokens, &table);
    assert_eq!((root.kind, root.lo, root.hi), (NodeKind::Program, 0, s.tokens.len()));
    assert_eq!(cur.next, s.tokens.len());
    assert_eq!(cur.diags.len(), 1);
}
