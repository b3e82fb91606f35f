use rfmt::parser::diagnostic::DiagnosticKind;
use rfmt::parser::operators::{find_operator, operator_at, Assoc};
use rfmt::parser::token::{TokenKind, TriviaKind};
use rfmt::parser::tree::{Node, NodeKind};
use rfmt::parser::{ParseResult, RParser};

fn render(src: &str, r: &ParseResult, node: &Node) -> String {
    if node.children.is_empty() {
        if node.hi == node.lo + 1 {
            let t = r.scan.tokens[node.lo];
            return src[t.start..t.end].to_string();
        }
        return "<missing>".to_string();
    }
    let mut out = format!("({:?}", node.kind);
    for c in &node.children {
        out.push(' ');
        out.push_str(&render(src, r, c));
    }
    out.push(')');
    out
}

fn statements<'a>(r: &'a ParseResult) -> Vec<&'a Node> {
    r.root
        .children
        .iter()
        .filter(|n| !matches!(n.kind, NodeKind::Token))
        .collect()
}

fn first(src: &str) -> String {
    let r = RParser::parse(src);
    let s = statements(&r);
    assert!(!s.is_empty(), "no statement in {:?}", src);
    render(src, &r, s[0])
}

fn count_kind(node: &Node, kind: NodeKind) -> usize {
    let own = if node.kind == kind { 1 } else { 0 };
    own + node.children.iter().map(|c| count_kind(c, kind)).sum::<usize>()
}

#[test]
fn multiplication_binds_tighter_than_addition() {
    assert_eq!(first("1 + 2 * 3"), "(Binary 1 + (Binary 2 * 3))");
    assert_eq!(first("1 * 2 + 3"), "(Binary (Binary 1 * 2) + 3)");
}

#[test]
fn exponentiation_groups_to_the_right() {
    assert_eq!(first("2^3^2"), "(Binary 2 ^ (Binary 3 ^ 2))");
}

#[test]
fn unary_minus_binds_looser_than_exponentiation() {
    assert_eq!(first("-2^2"), "(Unary - (Binary 2 ^ 2))");
}

#[test]
fn subtraction_groups_to_the_left() {
    assert_eq!(first("a - b - c"), "(Binary (Binary a - b) - c)");
}

#[test]
fn unary_minus_binds_tighter_than_other_binary_operators() {
    assert_eq!(first("-a * b"), "(Binary (Unary - a) * b)");
    assert_eq!(first("-a:b"), "(Binary (Unary - a) : b)");
    assert_eq!(first("!a == b"), "(Binary (Unary ! a) == b)");
    assert_eq!(first("a ^ -b"), "(Binary a ^ (Unary - b))");
}

#[test]
fn assignment_groups_to_the_right() {
    assert_eq!(first("a <- b <- 1"), "(Assignment a <- (Assignment b <- 1))");
    assert_eq!(first("x = y + 1"), "(Assignment x = (Binary y + 1))");
    assert_eq!(first("1 -> a -> b"), "(Assignment (Assignment 1 -> a) -> b)");
}

#[test]
fn pipes_and_formulas() {
    assert_eq!(first("x |> f() |> g()"), "(Binary (Binary x |> (Call f ( ))) |> (Call g ( )))");
    assert_eq!(first("y ~ a + b"), "(Binary y ~ (Binary a + b))");
    assert_eq!(first("~ a + b"), "(Unary ~ (Binary a + b))");
    assert_eq!(first("a %in% b | c"), "(Binary (Binary a %in% b) | c)");
}

#[test]
fn single_operand_is_not_wrapped() {
    assert_eq!(first("x"), "x");
    assert_eq!(first("42L"), "42L");
}

#[test]
fn documentation_comment_leads_the_definition() {
    let src = "#' doc\nf <- function(x) x\n";
    let r = RParser::parse(src);
    let s = statements(&r);
    assert_eq!(s.len(), 1);
    assert_eq!(s[0].kind, NodeKind::Assignment);
    assert_eq!(render(src, &r, s[0]), "(Assignment f <- (FunctionDef function ( (Parameter x) ) x))");
    let lead = r.leading_trivia(s[0]);
    assert_eq!(lead.len(), 2);
    assert_eq!(lead[0].kind, TriviaKind::DocComment);
    assert_eq!(&src[lead[0].start..lead[0].end], "#' doc");
    assert_eq!(lead[1].kind, TriviaKind::LineBreak);
}

#[test]
fn documentation_comment_after_a_statement_leads_the_next() {
    let src = "a <- 1\n#' doc\n#' more\nf <- function(x) x\n";
    let r = RParser::parse(src);
    let s = statements(&r);
    assert_eq!(s.len(), 2);
    let lead = r.leading_trivia(s[1]);
    let docs: Vec<&str> = lead
        .iter()
        .filter(|t| t.kind == TriviaKind::DocComment)
        .map(|t| &src[t.start..t.end])
        .collect();
    assert_eq!(docs, vec!["#' doc", "#' more"]);
    assert!(r.leading_trivia(s[0]).is_empty());
    // the terminator of the first statement carries none of it
    let newline = &r.root.children[1];
    assert!(r.leading_trivia(newline).is_empty());
}

#[test]
fn malformed_statement_between_two_valid_ones() {
    let src = "x <- 1\ny <- )\nz <- 2\n";
    let r = RParser::parse(src);
    let s = statements(&r);
    assert_eq!(s.len(), 3);
    assert_eq!(render(src, &r, s[0]), "(Assignment x <- 1)");
    assert_eq!(s[1].kind, NodeKind::Error);
    assert_eq!(render(src, &r, s[2]), "(Assignment z <- 2)");
    assert_eq!(count_kind(&r.root, NodeKind::Error), 1);
    assert!(!r.diagnostics.is_empty());
    assert!(r.has_errors());
    assert_eq!(r.reconstruct(src.as_bytes()), src.as_bytes());
}

#[test]
fn unexpected_token_after_expression() {
    let src = "a b\nc\n";
    let r = RParser::parse(src);
    let s = statements(&r);
    assert_eq!(s.len(), 2);
    assert_eq!(render(src, &r, s[0]), "(Error a b)");
    assert_eq!(render(src, &r, s[1]), "c");
    assert_eq!(r.diagnostics.len(), 1);
    assert_eq!(r.diagnostics[0].kind, DiagnosticKind::MalformedStatement);
    assert_eq!((r.diagnostics[0].start, r.diagnostics[0].end), (2, 3));
    assert_eq!(r.diagnostics[0].message(), "malformed statement");
}

#[test]
fn dangling_else_binds_to_the_inner_if() {
    assert_eq!(
        first("if (a) if (b) 1 else 2"),
        "(If if ( a ) (If if ( b ) 1 else 2))"
    );
}

#[test]
fn if_else_with_blocks() {
    let src = "if (a + b) {\n    \"hello, world\"  # return something\n} else {\n    \"fizzbuzz\"\n}\n";
    assert_eq!(
        first(src),
        "(If if ( (Binary a + b) ) (Block { \"hello, world\" \n }) else (Block { \"fizzbuzz\" \n }))"
    );
    let r = RParser::parse(src);
    assert!(r.diagnostics.is_empty());
}

#[test]
fn else_on_the_next_line_inside_braces() {
    let src = "{\n  if (a) 1\n  else 2\n}";
    assert_eq!(first(src), "(Block { (If if ( a ) 1 else 2) \n })");
    assert!(RParser::parse(src).diagnostics.is_empty());
}

#[test]
fn else_on_the_next_line_at_top_level_is_an_error() {
    let src = "if (a) 1\nelse 2\n";
    let r = RParser::parse(src);
    let s = statements(&r);
    assert_eq!(render(src, &r, s[0]), "(If if ( a ) 1)");
    assert_eq!(s[1].kind, NodeKind::Error);
    assert!(r.has_errors());
}

#[test]
fn function_definition_with_defaults() {
    let src = "f <- function(a, b = 2, c = { expression }) a";
    assert_eq!(
        first(src),
        "(Assignment f <- (FunctionDef function ( (Parameter a) , (Parameter (Assignment b = 2)) , (Parameter (Assignment c = (Block { expression }))) ) a))"
    );
    assert!(RParser::parse(src).diagnostics.is_empty());
}

#[test]
fn lambda_and_dots() {
    assert_eq!(first("\\(x, ...) x"), "(FunctionDef \\ ( (Parameter x) , (Parameter ...) ) x)");
}

#[test]
fn invalid_parameter_is_reported() {
    let src = "function(1) x";
    let r = RParser::parse(src);
    assert!(r.diagnostics.iter().any(|d| d.kind == DiagnosticKind::InvalidParameter));
    assert_eq!(r.reconstruct(src.as_bytes()), src.as_bytes());
}

#[test]
fn loops_and_jumps() {
    assert_eq!(first("for (i in 1:10) print(i)"), "(For for ( (Binary i in (Binary 1 : 10)) ) (Call print ( i )))");
    assert_eq!(first("while (TRUE) break"), "(While while ( TRUE ) break)");
    assert_eq!(first("repeat { next }"), "(Repeat repeat (Block { next }))");
    let r = RParser::parse("while (TRUE) break");
    let s = statements(&r);
    assert_eq!(s[0].children[4].kind, NodeKind::Break);
    assert_eq!(s[0].children[2].kind, NodeKind::Literal);
}

#[test]
fn calls_subscripts_and_access() {
    assert_eq!(first("f(a, b = 1)"), "(Call f ( a , (Assignment b = 1) ))");
    assert_eq!(first("x[1, ]"), "(Index x [ 1 , ])");
    assert_eq!(first("x[[i]]$y"), "(Member (Index x [[ i ] ]) $ y)");
    assert_eq!(first("pkg::fun(1)@slot"), "(Member (Call (Member pkg :: fun) ( 1 )) @ slot)");
    assert_eq!(first("-f(x)^2"), "(Unary - (Binary (Call f ( x )) ^ 2))");
    assert_eq!(first("(a + b) * c"), "(Binary (Paren ( (Binary a + b) )) * c)");
}

#[test]
fn newlines_inside_parentheses_are_trivia() {
    let src = "f(a,\n  b\n)\ng";
    let r = RParser::parse(src);
    let s = statements(&r);
    assert_eq!(s.len(), 2);
    assert_eq!(render(src, &r, s[0]), "(Call f ( a , b ))");
    assert!(r.diagnostics.is_empty());
}

#[test]
fn newline_after_operator_continues_the_expression() {
    let src = "a +\n  b\nc";
    let r = RParser::parse(src);
    let s = statements(&r);
    assert_eq!(s.len(), 2);
    assert_eq!(render(src, &r, s[0]), "(Binary a + b)");
}

#[test]
fn trailing_operator_yields_missing_operand() {
    let src = "a +";
    let r = RParser::parse(src);
    let s = statements(&r);
    assert_eq!(s.len(), 1);
    assert_eq!(render(src, &r, s[0]), "(Error (Binary a + <missing>))");
    assert_eq!(r.diagnostics[0].kind, DiagnosticKind::MissingOperand);
    assert_eq!(count_kind(&r.root, NodeKind::Missing), 1);
}

#[test]
fn leading_binary_operator_yields_missing_operand() {
    let src = "* a\nb";
    let r = RParser::parse(src);
    let s = statements(&r);
    assert_eq!(render(src, &r, s[0]), "(Error (Binary <missing> * a))");
    assert_eq!(render(src, &r, s[1]), "b");
}

#[test]
fn comparison_does_not_associate() {
    let src = "a < b < c";
    let r = RParser::parse(src);
    assert!(r.diagnostics.iter().any(|d| d.kind == DiagnosticKind::NonAssociative));
    let s = statements(&r);
    assert_eq!(render(src, &r, s[0]), "(Error (Error (Binary a < b) < c))");
    let ok = RParser::parse("(a < b) < c");
    assert!(ok.diagnostics.is_empty());
    let mixed = RParser::parse("a < b + c");
    assert!(mixed.diagnostics.is_empty());
}

#[test]
fn missing_closing_parenthesis() {
    let src = "f(a\nb <- 1\n";
    let r = RParser::parse(src);
    assert!(r.diagnostics.iter().any(|d| matches!(d.kind, DiagnosticKind::Expected(_))));
    assert_eq!(r.reconstruct(src.as_bytes()), src.as_bytes());
}

#[test]
fn missing_closing_brace() {
    let src = "f <- function() {\n  a\n";
    let r = RParser::parse(src);
    assert!(r
        .diagnostics
        .iter()
        .any(|d| d.kind == DiagnosticKind::Expected(rfmt::parser::token::Punct::RBrace)));
    assert_eq!(r.reconstruct(src.as_bytes()), src.as_bytes());
}

#[test]
fn error_inside_a_block_stays_inside() {
    let src = "f <- function() {\n  a b\n  c\n}\nd\n";
    let r = RParser::parse(src);
    let s = statements(&r);
    assert_eq!(s.len(), 2);
    assert_eq!(s[0].kind, NodeKind::Assignment);
    assert_eq!(count_kind(&r.root, NodeKind::Error), 1);
    assert_eq!(render(src, &r, s[1]), "d");
}

#[test]
fn empty_and_comment_only_texts() {
    for src in ["", "\n\n", "# only a comment", "  # c\n#' d\n\n"] {
        let r = RParser::parse(src);
        assert_eq!(r.root.kind, NodeKind::Program);
        assert!(statements(&r).is_empty());
        assert!(r.diagnostics.is_empty());
        assert_eq!(r.root.children.len(), 1);
        assert_eq!(r.reconstruct(src.as_bytes()), src.as_bytes());
    }
}

#[test]
fn round_trip_on_many_texts() {
    let texts = [
        "\n#' Example Function\n#'\n#' @param a A value\n#' @return A `character` string\n#'\nf <- function(a, b = 2, c = { expression }) {\n    if (a + b) {\n        \"hello, world\"  # return something\n    } else {\n        \"fizzbuzz\"      # or return something else\n    }\n}\n",
        "x <- c(1, 2,\n   3)  ;  y = 0x1FL\r\nz <- r\"(raw )\" text)\"\n",
        "a %>% b %in% c\n\n\n  d[[1]][2]$e@f\n",
        "'unterminated\nnext <- \"bad \\q escape\"\n",
        "}} )) ]] else in\n",
        "if (x) {\n} else if (y) {\n} else {\n}\n",
        "caf\u{e9} <- \"\u{4e16}\u{754c}\" # \u{1F600}\n",
        "f(,)\n- - - 1\n",
        "`a b` <- 1e-3i; .5 + 1.\n",
    ];
    for src in texts {
        let r = RParser::parse(src);
        assert_eq!(r.reconstruct(src.as_bytes()), src.as_bytes(), "text {:?}", src);
        assert_eq!(r.root.lo, 0);
        assert_eq!(r.root.hi, r.scan.tokens.len());
    }
}

#[test]
fn parsing_twice_gives_the_same_result() {
    let src = "f <- function(x) {\n  x + 1 # inc\n}\ny <- )\n";
    let a = RParser::parse(src);
    let b = RParser::parse(src);
    assert_eq!(render(src, &a, &a.root), render(src, &b, &b.root));
    assert_eq!(a.diagnostics, b.diagnostics);
    assert_eq!(a.scan.tokens, b.scan.tokens);
    assert_eq!(a.scan.trivia, b.scan.trivia);
}

#[test]
fn reparsing_the_rebuilt_text_gives_the_same_result() {
    let src = "a <- 1 +\n  2 # two\nb <- (\n";
    let a = RParser::parse(src);
    let rebuilt = a.reconstruct(src.as_bytes());
    let b = RParser::parse_bytes(&rebuilt);
    assert_eq!(a.diagnostics, b.diagnostics);
    assert_eq!(a.scan.tokens, b.scan.tokens);
    assert_eq!(render(src, &a, &a.root), render(src, &b, &b.root));
}

#[test]
fn nesting_deeper_than_the_limit_is_reported() {
    let src = format!("{}1{}", "(".repeat(300), ")".repeat(300));
    let r = RParser::parse(&src);
    assert!(r.diagnostics.iter().any(|d| d.kind == DiagnosticKind::TooDeep));
    assert_eq!(r.reconstruct(src.as_bytes()), src.as_bytes());
    let fine = format!("{}1{}", "(".repeat(100), ")".repeat(100));
    assert!(RParser::parse(&fine).diagnostics.is_empty());
}

#[test]
fn lexical_error_becomes_error_node_and_diagnostic() {
    let src = "x <- \"abc\ny <- 2\n";
    let r = RParser::parse(src);
    assert!(r
        .diagnostics
        .iter()
        .any(|d| d.kind == DiagnosticKind::Lexical(rfmt::parser::token::LexError::UnterminatedString)));
    let s = statements(&r);
    assert_eq!(s.len(), 2);
    assert_eq!(s[0].kind, NodeKind::Error);
    assert_eq!(render(src, &r, s[1]), "(Assignment y <- 2)");
}

fn count_faults(node: &Node) -> usize {
    count_kind(node, NodeKind::Error) + count_kind(node, NodeKind::Missing)
}

#[test]
fn one_fault_node_for_each_diagnostic() {
    for src in [
        "x <- 1\n",
        "x <- 1\ny <- )\nz <- 2\n",
        "a +",
        "* a\nb",
        "a < b < c",
        "f(a b)\nx$1\n",
        "function(1) x",
        "f(a\nb <- 1\n",
        "{ a b\n  'open\n}\n",
        "}} )) ]] else in\n",
        "x[[1]\n",
        "if a b else\n",
    ] {
        let r = RParser::parse(src);
        assert_eq!(count_faults(&r.root), r.diagnostics.len(), "text {:?}", src);
    }
    let deep = format!("f{}", "(g".repeat(300));
    let r = RParser::parse(&deep);
    assert!(r.has_errors());
    assert_eq!(count_faults(&r.root), r.diagnostics.len());
}

#[test]
fn runs_longer_than_the_limit_stay_flat() {
    let fine = vec!["a"; 512].join(" + ");
    let r = RParser::parse(&fine);
    assert!(r.diagnostics.is_empty());
    assert_eq!(statements(&r)[0].kind, NodeKind::Binary);
    let long = vec!["a"; 513].join(" + ");
    let r = RParser::parse(&long);
    assert_eq!(r.diagnostics[0].kind, DiagnosticKind::Unresolved);
    assert_eq!(r.reconstruct(long.as_bytes()), long.as_bytes());
    let s = statements(&r);
    assert_eq!(s[0].kind, NodeKind::Error);
    assert_eq!(s[0].children[0].children.len(), 1025);
}

#[test]
fn everyday_code_parses_without_diagnostics() {
    let src = r#"#!/usr/bin/env Rscript
# Load what is needed
library(stats); library("utils")
suppressPackageStartupMessages({
  library(dplyr)
})

#' Summarise one column
#'
#' @param data A data frame
#' @param col Name of the column
#' @param ... Passed on
#' @return A list
summarise_col <- function(data, col = "value", ..., na.rm = TRUE,
                          fun = function(x) mean(x, na.rm = na.rm)) {
  stopifnot(is.data.frame(data), col %in% names(data))
  x <- data[[col]]
  if (is.null(x) || length(x) == 0L) {
    return(NULL)
  } else if (!is.numeric(x)) {
    warning("not numeric: ", class(x)[1])
    x <- suppressWarnings(as.numeric(x))
  }
  else {
    x <- x[!is.na(x) & x >= 0 & x < 1e6]
  }
  out <- list(n = length(x), mean = fun(x), range = range(x, ...))
  out$sd <- if (out$n > 1) stats::sd(x) else NA_real_
  for (i in seq_along(x)) {
    if (x[i] %% 2 == 0) next
    if (i > 10) break
    x[[i]] <- -x[i]^2 + 0x1F * 1.5e-3
  }
  k <- 0
  while (k < 3) k <- k + 1
  repeat {
    k <- k - 1; if (k <= 0) break
  }
  res <- data %>%
    dplyr::filter(.data[[col]] > 0) |>
    head(n = 5)
  m <- lm(y ~ x1 + x2 | g, data = data, weights = NULL)
  f <- \(z) z + 1
  s <- 'single \'quoted\'' ; r <- r"(raw "string")" ; b <- `odd name`
  obj@slot <- base:::identity(TRUE)
  1:3 -> v ->> w
  invisible(out)
}

result = tryCatch(
  summarise_col(mtcars, "mpg"),
  error = function(e) {
    message("failed: ", conditionMessage(e))
    NULL
  },
  finally = cat("done\n")
)
?help
x[1, , drop = FALSE]
"#;
    let r = RParser::parse(src);
    let shown: Vec<String> = r
        .diagnostics
        .iter()
        .map(|d| format!("{:?} at {:?}", d.kind, &src[d.start..d.end.max(d.start)]))
        .collect();
    assert!(shown.is_empty(), "{:?}", shown);
    assert_eq!(count_faults(&r.root), 0);
    assert_eq!(r.reconstruct(src.as_bytes()), src.as_bytes());
}

#[test]
fn argument_may_be_a_name_without_a_value() {
    let src = "switch(x, a = , \"b\" = 2, c = )";
    let r = RParser::parse(src);
    assert!(r.diagnostics.is_empty());
    let s = statements(&r);
    assert_eq!(
        render(src, &r, s[0]),
        "(Call switch ( x , (Argument a =) , (Assignment \"b\" = 2) , (Argument c =) ))"
    );
    let bad = RParser::parse("function(a = ) a");
    assert!(bad.has_errors());
    let top = RParser::parse("a = \n");
    assert!(top.has_errors());
}

fn operator_tier(r: &ParseResult, leaf: &Node, prefix: bool) -> Option<(u8, Assoc)> {
    match r.scan.tokens[leaf.lo].kind {
        TokenKind::Operator(o) => find_operator(o, prefix).map(|line| {
            let d = operator_at(line);
            (d.tier, d.assoc)
        }),
        _ => None,
    }
}

fn root_tier(r: &ParseResult, n: &Node) -> Option<(bool, u8)> {
    match n.kind {
        NodeKind::Binary | NodeKind::Assignment => {
            operator_tier(r, &n.children[1], false).map(|(t, _)| (true, t))
        }
        NodeKind::Unary => operator_tier(r, &n.children[0], true).map(|(t, _)| (false, t)),
        _ => None,
    }
}

fn check_order(r: &ParseResult, n: &Node) {
    match n.kind {
        NodeKind::Binary | NodeKind::Assignment => {
            let (tier, assoc) = operator_tier(r, &n.children[1], false).expect("binary operator");
            if let Some((binary, left)) = root_tier(r, &n.children[0]) {
                assert!(left > tier || (binary && left == tier && assoc != Assoc::Right));
            }
            if let Some((true, right)) = root_tier(r, &n.children[2]) {
                assert!(right > tier || (right == tier && assoc == Assoc::Right));
            }
        }
        NodeKind::Unary => {
            let (tier, _) = operator_tier(r, &n.children[0], true).expect("prefix operator");
            if let Some((true, below)) = root_tier(r, &n.children[1]) {
                assert!(below >= tier);
            }
        }
        _ => {}
    }
    for c in &n.children {
        check_order(r, c);
    }
}

fn next_random(state: &mut u64) -> usize {
    *state = state
        .wrapping_mul(6364136223846793005)
        .wrapping_add(1442695040888963407);
    (*state >> 33) as usize
}

#[test]
fn random_texts_come_back_whole() {
    let pieces = [
        "a", "b1", "1", "2.5e3", "0x1F", "\"s\"", "'t", "`n`", "+", "-", "*", "/", "^", "!", "~",
        "?", "<-", "<<-", "->", "=", "==", "!=", "<", ">=", "&&", "||", "|>", "%in%", "%", ":",
        "::", "$", "@", "(", ")", "[", "[[", "]", "{", "}", ",", ";", "\n", "\n\n", " ", "\t",
        "# c", "#' d", "if", "else", "for", "in", "while", "repeat", "function", "break", "next",
        "TRUE", "NULL", "\\", "r\"(x)\"", "r\"-(", "\u{e9}", "\u{1}", "...",
    ];
    let mut state = 0x2545F4914F6CDD1D_u64;
    for round in 0..1500 {
        let len = 1 + next_random(&mut state) % 40;
        let mut src = String::new();
        for _ in 0..len {
            src.push_str(pieces[next_random(&mut state) % pieces.len()]);
            if next_random(&mut state) % 3 == 0 {
                src.push(' ');
            }
        }
        let r = RParser::parse(&src);
        assert_eq!(r.reconstruct(src.as_bytes()), src.as_bytes(), "round {} text {:?}", round, src);
        assert_eq!(count_faults(&r.root), r.diagnostics.len(), "round {} text {:?}", round, src);
        assert_eq!((r.root.lo, r.root.hi), (0, r.scan.tokens.len()));
        assert_eq!(r.byte_span(&r.root), Some((0, src.len())));
        check_order(&r, &r.root);
        for d in &r.diagnostics {
            assert!(d.start <= d.end && d.end <= src.len());
            assert!(src.is_char_boundary(d.start) && src.is_char_boundary(d.end));
        }
    }
}

#[test]
fn random_expressions_resolve_without_faults() {
    let operands = ["a", "1", "f(x)", "(b)", "x[1]", "y$z", "-c", "!d", "\"s\""];
    let operators = ["+", "-", "*", "/", "^", ":", "%%", "|>", "&", "&&", "|", "||", "~", "<-", "->", "=", "?"];
    let mut state = 0x9E3779B97F4A7C15_u64;
    for round in 0..1500 {
        let terms = 1 + next_random(&mut state) % 12;
        let mut src = String::new();
        for k in 0..terms {
            if k > 0 {
                src.push(' ');
                src.push_str(operators[next_random(&mut state) % operators.len()]);
                src.push(' ');
            }
            src.push_str(operands[next_random(&mut state) % operands.len()]);
        }
        let r = RParser::parse(&src);
        assert!(r.diagnostics.is_empty(), "round {} text {:?}: {:?}", round, src, r.diagnostics);
        assert_eq!(count_faults(&r.root), 0);
        assert_eq!(statements(&r).len(), 1, "round {} text {:?}", round, src);
        assert_eq!(r.reconstruct(src.as_bytes()), src.as_bytes());
        check_order(&r, &r.root);
    }
}

#[test]
fn large_texts_are_parsed_in_one_go() {
    let mut src = String::new();
    for i in 0..3000 {
        src.push_str(&format!("x{} <- f(a = {}, b = c[{}]) %>% g() # line {}\n", i, i, i, i));
        if i % 7 == 0 {
            src.push_str("\n#' doc\nh <- function(x, ...) {\n  if (x > 1) x else -x\n}\n");
        }
    }
    let r = RParser::parse(&src);
    assert!(r.diagnostics.is_empty());
    assert_eq!(statements(&r).len(), 3000 + 429);
    assert_eq!(r.reconstruct(src.as_bytes()), src.as_bytes());
    let chain = vec!["a"; 20000].join(" * ");
    let r = RParser::parse(&chain);
    assert_eq!(r.diagnostics.len(), 2);
    assert_eq!(r.reconstruct(chain.as_bytes()), chain.as_bytes());
}
