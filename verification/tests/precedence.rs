use rfmt::parser::operators::{
    assigns, find_operator, operator_at, operator_table, Arity, Assoc, RESOLVED_LEN, TABLE_LEN,
    TOP_TIER,
};
use rfmt::parser::pratt::{build_table, fits, obeys, run_alternates, shape_of, Shape, OPERAND};
use rfmt::parser::token::Operator;

fn code(op: Operator, prefix: bool) -> u8 {
    (find_operator(op, prefix).unwrap() + 1) as u8
}

fn show(s: &Shape) -> String {
    match s {
        Shape::Operand => "x".to_string(),
        Shape::Prefix(r, o) => format!("({} {})", r, show(o)),
        Shape::Infix(l, r, o) => format!("({} {} {})", show(l), r, show(o)),
    }
}

#[test]
fn table_is_sorted_by_tier_without_gaps() {
    let t = operator_table();
    assert_eq!(t.len(), TABLE_LEN);
    assert_eq!(t[0].tier, 1);
    for i in 1..t.len() {
        assert!(t[i].tier == t[i - 1].tier || t[i].tier == t[i - 1].tier + 1);
        assert_eq!(t[i], operator_at(i));
    }
    assert_eq!(t[RESOLVED_LEN - 1].tier, TOP_TIER);
    for (i, d) in t.iter().enumerate() {
        assert_eq!(d.arity == Arity::Postfix, i >= RESOLVED_LEN);
    }
}

#[test]
fn table_holds_the_published_tiers() {
    let tier = |op, prefix| operator_at(find_operator(op, prefix).unwrap()).tier;
    assert!(tier(Operator::Plus, false) < tier(Operator::Star, false));
    assert_eq!(tier(Operator::Plus, false), tier(Operator::Minus, false));
    assert_eq!(tier(Operator::Star, false), tier(Operator::Slash, false));
    assert!(tier(Operator::Star, false) < tier(Operator::Special, false));
    assert!(tier(Operator::Special, false) < tier(Operator::Colon, false));
    assert!(tier(Operator::Colon, false) < tier(Operator::Minus, true));
    assert!(tier(Operator::Minus, true) < tier(Operator::Caret, false));
    assert_eq!(tier(Operator::Minus, true) + 1, tier(Operator::Caret, false));
    assert_eq!(tier(Operator::Not, true), tier(Operator::Minus, true));
    assert!(tier(Operator::EqAssign, false) < tier(Operator::LeftAssign, false));
    assert!(tier(Operator::LeftAssign, false) < tier(Operator::RightAssign, false));
    assert!(tier(Operator::RightAssign, false) < tier(Operator::Tilde, false));
    assert!(tier(Operator::Tilde, false) < tier(Operator::OrOr, false));
    assert!(tier(Operator::Or, false) < tier(Operator::And, false));
    assert!(tier(Operator::AndAnd, false) < tier(Operator::EqEq, false));
    assert!(tier(Operator::Lt, false) < tier(Operator::Plus, false));
    assert_eq!(operator_at(find_operator(Operator::Caret, false).unwrap()).assoc, Assoc::Right);
    assert_eq!(operator_at(find_operator(Operator::Lt, false).unwrap()).assoc, Assoc::NonAssoc);
    assert_eq!(operator_at(find_operator(Operator::Minus, false).unwrap()).assoc, Assoc::Left);
    assert_eq!(operator_at(find_operator(Operator::LeftAssign, false).unwrap()).assoc, Assoc::Right);
}

#[test]
fn lookup_tells_prefix_from_binary() {
    let b = find_operator(Operator::Minus, false).unwrap();
    let p = find_operator(Operator::Minus, true).unwrap();
    assert_ne!(b, p);
    assert_eq!(operator_at(b).arity, Arity::Binary);
    assert_eq!(operator_at(p).arity, Arity::Prefix);
    assert_eq!(find_operator(Operator::Star, true), None);
    assert_eq!(find_operator(Operator::Not, false), None);
    assert_eq!(find_operator(Operator::Dollar, false), None);
    assert_eq!(find_operator(Operator::DoubleColon, true), None);
    assert!(assigns(Operator::LeftAssign));
    assert!(assigns(Operator::EqAssign));
    assert!(assigns(Operator::RightSuperAssign));
    assert!(!assigns(Operator::EqEq));
}

#[test]
fn runs_must_alternate() {
    let plus = code(Operator::Plus, false);
    let neg = code(Operator::Minus, true);
    assert!(run_alternates(&vec![OPERAND]));
    assert!(run_alternates(&vec![OPERAND, plus, OPERAND]));
    assert!(run_alternates(&vec![neg, neg, OPERAND, plus, neg, OPERAND]));
    assert!(!run_alternates(&vec![]));
    assert!(!run_alternates(&vec![plus]));
    assert!(!run_alternates(&vec![OPERAND, OPERAND]));
    assert!(!run_alternates(&vec![OPERAND, plus]));
    assert!(!run_alternates(&vec![OPERAND, neg, OPERAND]));
    assert!(!run_alternates(&vec![plus, OPERAND]));
    assert!(!run_alternates(&vec![neg]));
    assert!(run_alternates(&vec![200]));
    assert!(!run_alternates(&vec![OPERAND, 200]));
}

#[test]
fn shapes_follow_precedence_and_associativity() {
    let table = build_table();
    let plus = code(Operator::Plus, false);
    let minus = code(Operator::Minus, false);
    let star = code(Operator::Star, false);
    let pow = code(Operator::Caret, false);
    let neg = code(Operator::Minus, true);
    let arrow = code(Operator::LeftAssign, false);
    let shape = |codes: Vec<u8>| show(&shape_of(&table, &codes).unwrap());
    assert_eq!(shape(vec![OPERAND]), "x");
    assert_eq!(
        shape(vec![OPERAND, plus, OPERAND, star, OPERAND]),
        format!("(x {} (x {} x))", plus, star)
    );
    assert_eq!(
        shape(vec![OPERAND, star, OPERAND, plus, OPERAND]),
        format!("((x {} x) {} x)", star, plus)
    );
    assert_eq!(
        shape(vec![OPERAND, pow, OPERAND, pow, OPERAND]),
        format!("(x {} (x {} x))", pow, pow)
    );
    assert_eq!(
        shape(vec![OPERAND, minus, OPERAND, minus, OPERAND]),
        format!("((x {} x) {} x)", minus, minus)
    );
    assert_eq!(
        shape(vec![OPERAND, minus, OPERAND, plus, OPERAND]),
        format!("((x {} x) {} x)", minus, plus)
    );
    assert_eq!(shape(vec![neg, OPERAND, pow, OPERAND]), format!("({} (x {} x))", neg, pow));
    assert_eq!(shape(vec![neg, OPERAND, star, OPERAND]), format!("(({} x) {} x)", neg, star));
    assert_eq!(
        shape(vec![OPERAND, arrow, OPERAND, arrow, OPERAND]),
        format!("(x {} (x {} x))", arrow, arrow)
    );
}

#[test]
fn runs_that_do_not_alternate_have_no_shape() {
    let table = build_table();
    let plus = code(Operator::Plus, false);
    assert!(shape_of(&table, &vec![]).is_none());
    assert!(shape_of(&table, &vec![OPERAND, plus]).is_none());
    assert!(shape_of(&table, &vec![plus, OPERAND]).is_none());
}

#[test]
fn a_shape_fits_the_run_it_reads_as() {
    let s = Shape::infix(
        Shape::operand(),
        7,
        Shape::prefix(9, Shape::infix(Shape::operand(), 3, Shape::operand())),
    );
    assert!(fits(&s, &vec![OPERAND, 7, 9, OPERAND, 3, OPERAND]));
    assert!(!fits(&s, &vec![OPERAND, 7, 9, OPERAND, 3]));
    assert!(!fits(&s, &vec![OPERAND, 7, 9, OPERAND, 4, OPERAND]));
    assert!(!fits(&s, &vec![OPERAND, 7, 9, OPERAND, 3, OPERAND, OPERAND]));
    assert!(fits(&Shape::operand(), &vec![OPERAND]));
    assert!(!fits(&Shape::operand(), &vec![]));
    let table = build_table();
    let run = vec![OPERAND, 22, OPERAND, 24, 29, OPERAND];
    assert!(fits(&shape_of(&table, &run).unwrap(), &run));
}

#[test]
fn shapes_are_held_to_the_table() {
    let plus = code(Operator::Plus, false);
    let star = code(Operator::Star, false);
    let pow = code(Operator::Caret, false);
    let lt = code(Operator::Lt, false);
    let neg = code(Operator::Minus, true);
    let x = Shape::operand;
    // 1 + (2 * 3) obeys, (1 + 2) * 3 does not
    assert!(obeys(&Shape::infix(x(), plus, Shape::infix(x(), star, x()))));
    assert!(!obeys(&Shape::infix(Shape::infix(x(), plus, x()), star, x())));
    // 2 ^ (3 ^ 2) obeys, (2 ^ 3) ^ 2 does not
    assert!(obeys(&Shape::infix(x(), pow, Shape::infix(x(), pow, x()))));
    assert!(!obeys(&Shape::infix(Shape::infix(x(), pow, x()), pow, x())));
    // (a - b) - c obeys, a - (b - c) does not
    let minus = code(Operator::Minus, false);
    assert!(obeys(&Shape::infix(Shape::infix(x(), minus, x()), minus, x())));
    assert!(!obeys(&Shape::infix(x(), minus, Shape::infix(x(), minus, x()))));
    // -(2 ^ 2) obeys, (-2) ^ 2 does not
    assert!(obeys(&Shape::prefix(neg, Shape::infix(x(), pow, x()))));
    assert!(!obeys(&Shape::infix(Shape::prefix(neg, x()), pow, x())));
    // (-a) * b obeys, -(a * b) does not
    assert!(obeys(&Shape::infix(Shape::prefix(neg, x()), star, x())));
    assert!(!obeys(&Shape::prefix(neg, Shape::infix(x(), star, x()))));
    // a ^ -b obeys
    assert!(obeys(&Shape::infix(x(), pow, Shape::prefix(neg, x()))));
    // comparisons side by side pass here and are rejected when the node is made
    assert!(obeys(&Shape::infix(Shape::infix(x(), lt, x()), lt, x())));
    // operators must be of the right kind and from the table
    assert!(!obeys(&Shape::prefix(plus, x())));
    assert!(!obeys(&Shape::infix(x(), neg, x())));
    assert!(!obeys(&Shape::infix(x(), 0, x())));
    assert!(!obeys(&Shape::infix(x(), 200, x())));
    assert!(obeys(&x()));
}
