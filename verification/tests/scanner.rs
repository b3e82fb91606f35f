use rfmt::parser::lexeme::{lex_raw, RawKind};
use rfmt::parser::scanner::{scan, Scanned};
use rfmt::parser::token::{
    scan_while, ByteClass, Keyword, LexError, Operator, Punct, TokenKind, TriviaKind,
};

fn kinds(s: &Scanned) -> Vec<TokenKind> {
    s.tokens.iter().map(|t| t.kind).collect()
}

fn texts<'a>(src: &'a str, s: &Scanned) -> Vec<&'a str> {
    s.tokens.iter().map(|t| &src[t.start..t.end]).collect()
}

fn trivia_of(src: &str, s: &Scanned, i: usize) -> Vec<(TriviaKind, String)> {
    let t = s.tokens[i];
    s.trivia[t.trivia_from..t.trivia_to]
        .iter()
        .map(|r| (r.kind, src[r.start..r.end].to_string()))
        .collect()
}

fn check_tiling(src: &str, s: &Scanned) {
    let mut at = 0;
    let mut trivia_at = 0;
    for t in &s.tokens {
        assert_eq!(t.lead, at);
        assert_eq!(t.trivia_from, trivia_at);
        let mut p = t.lead;
        for r in &s.trivia[t.trivia_from..t.trivia_to] {
            assert_eq!(r.start, p);
            assert!(r.start < r.end);
            p = r.end;
        }
        assert_eq!(p, t.start);
        assert!(t.start <= t.end);
        at = t.end;
        trivia_at = t.trivia_to;
    }
    assert_eq!(at, src.len());
    assert_eq!(trivia_at, s.trivia.len());
    assert_eq!(s.tokens.last().unwrap().kind, TokenKind::Eof);
}

fn one(src: &str) -> (TokenKind, usize) {
    match lex_raw(src.as_bytes(), 0) {
        (RawKind::Token(k), end) => (k, end),
        (other, end) => panic!("not a token: {:?} up to {}", other, end),
    }
}

#[test]
fn empty_text_is_one_eof_token() {
    let s = scan(b"");
    assert_eq!(kinds(&s), vec![TokenKind::Eof]);
    assert_eq!(s.tokens[0].start, 0);
    assert_eq!(s.tokens[0].end, 0);
    assert!(s.trivia.is_empty());
}

#[test]
fn assignment_statement_tokens() {
    let src = "x <- 42 # answer\n";
    let s = scan(src.as_bytes());
    assert_eq!(
        kinds(&s),
        vec![
            TokenKind::Identifier,
            TokenKind::Operator(Operator::LeftAssign),
            TokenKind::Number,
            TokenKind::Newline,
            TokenKind::Eof
        ]
    );
    assert_eq!(texts(src, &s), vec!["x", "<-", "42", "\n", ""]);
    assert_eq!(
        trivia_of(src, &s, 3),
        vec![
            (TriviaKind::Whitespace, " ".to_string()),
            (TriviaKind::LineComment, "# answer".to_string())
        ]
    );
    check_tiling(src, &s);
}

#[test]
fn numbers_in_every_form() {
    for (src, len) in [
        ("42", 2),
        ("42L", 3),
        ("3.14", 4),
        (".5", 2),
        ("1.", 2),
        ("1e10", 4),
        ("1e-3", 4),
        ("1E+3i", 5),
        ("0x1F", 4),
        ("0XffL", 5),
        ("2i", 2),
        ("1e", 1),
        ("1e+", 1),
        ("0x", 1),
        ("12abc", 2),
    ] {
        assert_eq!(one(src), (TokenKind::Number, len), "number {:?}", src);
    }
}

#[test]
fn strings_and_escapes() {
    assert_eq!(one("\"abc\" x"), (TokenKind::String, 5));
    assert_eq!(one("'a\\'b'"), (TokenKind::String, 6));
    assert_eq!(one("\"a\\nb\""), (TokenKind::String, 6));
    assert_eq!(one("\"two\nlines\""), (TokenKind::String, 11));
    assert_eq!(one("\"a\\qb\" x"), (TokenKind::Error(LexError::InvalidEscape), 6));
    assert_eq!(
        one("\"open\nnext"),
        (TokenKind::Error(LexError::UnterminatedString), 5)
    );
    assert_eq!(one("\"end\\"), (TokenKind::Error(LexError::UnterminatedString), 5));
}

#[test]
fn raw_strings_count_their_dashes() {
    assert_eq!(one("r\"(a)\" b"), (TokenKind::String, 6));
    assert_eq!(one("R'[x\"y]' z"), (TokenKind::String, 8));
    assert_eq!(one("r\"--{a}-\"}--\" z"), (TokenKind::String, 13));
    assert_eq!(one("r\"-(a)\" b)-\""), (TokenKind::String, 12));
    assert_eq!(one("r\"x\""), (TokenKind::Error(LexError::MalformedRawString), 2));
    assert_eq!(one("r\"--x"), (TokenKind::Error(LexError::MalformedRawString), 4));
    assert_eq!(
        one("r\"(open\nmore"),
        (TokenKind::Error(LexError::UnterminatedString), 7)
    );
    assert_eq!(one("r + 1"), (TokenKind::Identifier, 1));
}

#[test]
fn names_and_reserved_words() {
    assert_eq!(one("foo.bar_1 + 2"), (TokenKind::Identifier, 9));
    assert_eq!(one(".x"), (TokenKind::Identifier, 2));
    assert_eq!(one("..."), (TokenKind::Identifier, 3));
    assert_eq!(one("`a b`"), (TokenKind::Identifier, 5));
    assert_eq!(one("`open"), (TokenKind::Error(LexError::UnterminatedString), 5));
    assert_eq!(one("caf\u{e9} x"), (TokenKind::Identifier, 5));
    for (src, k) in [
        ("if", Keyword::If),
        ("else", Keyword::Else),
        ("for", Keyword::For),
        ("while", Keyword::While),
        ("repeat", Keyword::Repeat),
        ("function", Keyword::Function),
        ("break", Keyword::Break),
        ("next", Keyword::Next),
        ("TRUE", Keyword::True),
        ("FALSE", Keyword::False),
        ("NULL", Keyword::Null),
        ("NA", Keyword::Na),
        ("NA_integer_", Keyword::NaInteger),
        ("NA_real_", Keyword::NaReal),
        ("NA_character_", Keyword::NaCharacter),
        ("Inf", Keyword::Inf),
        ("NaN", Keyword::NaN),
        ("\\", Keyword::Function),
    ] {
        assert_eq!(one(src), (TokenKind::Keyword(k), src.len()), "word {:?}", src);
    }
    assert_eq!(one("in"), (TokenKind::Operator(Operator::In), 2));
    assert_eq!(one("inner"), (TokenKind::Identifier, 5));
    assert_eq!(one("iff"), (TokenKind::Identifier, 3));
    assert_eq!(one("True"), (TokenKind::Identifier, 4));
}

#[test]
fn operators_take_the_longest_match() {
    for (src, op, len) in [
        ("<<-", Operator::LeftSuperAssign, 3),
        ("<-", Operator::LeftAssign, 2),
        ("<=", Operator::Le, 2),
        ("<", Operator::Lt, 1),
        ("<<", Operator::Lt, 1),
        ("->>", Operator::RightSuperAssign, 3),
        ("->", Operator::RightAssign, 2),
        ("-", Operator::Minus, 1),
        ("==", Operator::EqEq, 2),
        ("=", Operator::EqAssign, 1),
        ("!=", Operator::Ne, 2),
        ("!", Operator::Not, 1),
        (">=", Operator::Ge, 2),
        (">", Operator::Gt, 1),
        ("|>", Operator::Pipe, 2),
        ("||", Operator::OrOr, 2),
        ("|", Operator::Or, 1),
        ("&&", Operator::AndAnd, 2),
        ("&", Operator::And, 1),
        (":::", Operator::TripleColon, 3),
        ("::", Operator::DoubleColon, 2),
        (":=", Operator::ColonAssign, 2),
        (":", Operator::Colon, 1),
        ("**", Operator::Caret, 2),
        ("*", Operator::Star, 1),
        ("^", Operator::Caret, 1),
        ("+", Operator::Plus, 1),
        ("/", Operator::Slash, 1),
        ("~", Operator::Tilde, 1),
        ("?", Operator::Question, 1),
        ("$", Operator::Dollar, 1),
        ("@", Operator::At, 1),
        ("%in% x", Operator::Special, 4),
        ("%% 2", Operator::Special, 2),
        ("%>% f", Operator::Special, 3),
    ] {
        assert_eq!(one(src), (TokenKind::Operator(op), len), "operator {:?}", src);
    }
    assert_eq!(one("%open\n%"), (TokenKind::Error(LexError::UnexpectedCharacter), 1));
}

#[test]
fn delimiters() {
    for (src, p, len) in [
        ("(", Punct::LParen, 1),
        (")", Punct::RParen, 1),
        ("{", Punct::LBrace, 1),
        ("}", Punct::RBrace, 1),
        ("[[", Punct::LDoubleBracket, 2),
        ("[", Punct::LBracket, 1),
        ("]]", Punct::RBracket, 1),
        (",", Punct::Comma, 1),
        (";", Punct::Semicolon, 1),
    ] {
        assert_eq!(one(src), (TokenKind::Punct(p), len), "delimiter {:?}", src);
    }
    assert_eq!(one("\u{1}"), (TokenKind::Error(LexError::UnexpectedCharacter), 1));
}

#[test]
fn comments_are_told_apart_by_their_prefix() {
    assert_eq!(lex_raw(b"# c\nx", 0), (RawKind::LineComment, 3));
    assert_eq!(lex_raw(b"#' d\nx", 0), (RawKind::DocComment, 4));
    assert_eq!(lex_raw(b"#", 0), (RawKind::LineComment, 1));
    assert_eq!(lex_raw(b"##' d", 0), (RawKind::LineComment, 5));
    assert_eq!(lex_raw(b" \t\r x", 0), (RawKind::Space, 4));
    assert_eq!(lex_raw(b"\n\n", 0), (RawKind::Break, 1));
}

#[test]
fn skipping_runs_of_a_class() {
    assert_eq!(scan_while(b"123abc", 0, ByteClass::Digit), 3);
    assert_eq!(scan_while(b"123abc", 3, ByteClass::Digit), 3);
    assert_eq!(scan_while(b"123abc", 6, ByteClass::Digit), 6);
    assert_eq!(scan_while(b"ab\ncd", 0, ByteClass::InLine), 2);
    assert_eq!(scan_while(b"--x", 0, ByteClass::Dash), 2);
    assert!(ByteClass::HexDigit.contains(b'f'));
    assert!(!ByteClass::HexDigit.contains(b'g'));
    assert!(ByteClass::Name.contains(0xc3));
    assert!(!ByteClass::Space.contains(b'\n'));
}

#[test]
fn blank_lines_and_line_breaks_are_trivia() {
    let src = "a\n\n  \n# c\nb\n";
    let s = scan(src.as_bytes());
    assert_eq!(texts(src, &s), vec!["a", "\n", "b", "\n", ""]);
    assert_eq!(
        trivia_of(src, &s, 2),
        vec![
            (TriviaKind::BlankLine, "\n".to_string()),
            (TriviaKind::Whitespace, "  ".to_string()),
            (TriviaKind::BlankLine, "\n".to_string()),
            (TriviaKind::LineComment, "# c".to_string()),
            (TriviaKind::LineBreak, "\n".to_string()),
        ]
    );
    check_tiling(src, &s);
}

#[test]
fn line_breaks_inside_parentheses_and_brackets_are_trivia() {
    let src = "f(a,\n b)[\n1]\n{\nc\n}\n";
    let s = scan(src.as_bytes());
    assert_eq!(
        texts(src, &s),
        vec!["f", "(", "a", ",", "b", ")", "[", "1", "]", "\n", "{", "c", "\n", "}", "\n", ""]
    );
    check_tiling(src, &s);
}

#[test]
fn line_break_after_a_header_is_trivia() {
    let src = "if (a)\n  b\nfunction(x)\n  x\nf(x)\ny";
    let s = scan(src.as_bytes());
    assert_eq!(
        texts(src, &s),
        vec!["if", "(", "a", ")", "b", "\n", "function", "(", "x", ")", "x", "\n", "f", "(", "x", ")", "\n", "y", ""]
    );
}

#[test]
fn line_break_before_else_inside_braces_is_trivia() {
    let src = "{\nif (a) b\n# why\nelse c\n}\nif (a) b\nelse c";
    let s = scan(src.as_bytes());
    assert_eq!(
        texts(src, &s),
        vec!["{", "if", "(", "a", ")", "b", "else", "c", "\n", "}", "\n", "if", "(", "a", ")", "b", "\n", "else", "c", ""]
    );
    check_tiling(src, &s);
}

#[test]
fn closing_brace_closes_what_is_open_inside() {
    let src = "{ f(a\n}\nb\nc";
    let s = scan(src.as_bytes());
    assert_eq!(texts(src, &s), vec!["{", "f", "(", "a", "}", "\n", "b", "\n", "c", ""]);
}

#[test]
fn lines_and_columns_count_from_zero() {
    let src = "a <- 1\n  bb <- \"x\ny\"\nc";
    let s = scan(src.as_bytes());
    let at: Vec<(usize, usize)> = s.tokens.iter().map(|t| (t.line, t.column)).collect();
    assert_eq!(
        at,
        vec![(0, 0), (0, 2), (0, 5), (0, 6), (1, 2), (1, 5), (1, 8), (2, 2), (3, 0), (3, 1)]
    );
}

#[test]
fn carriage_return_is_white_space() {
    let src = "a\r\nb";
    let s = scan(src.as_bytes());
    assert_eq!(texts(src, &s), vec!["a", "\n", "b", ""]);
    assert_eq!(trivia_of(src, &s, 1), vec![(TriviaKind::Whitespace, "\r".to_string())]);
    check_tiling(src, &s);
}

#[test]
fn scanner_goes_on_after_an_error() {
    let src = "x <- 'open\ny <- \u{7} 2\n";
    let s = scan(src.as_bytes());
    assert_eq!(
        kinds(&s),
        vec![
            TokenKind::Identifier,
            TokenKind::Operator(Operator::LeftAssign),
            TokenKind::Error(LexError::UnterminatedString),
            TokenKind::Newline,
            TokenKind::Identifier,
            TokenKind::Operator(Operator::LeftAssign),
            TokenKind::Error(LexError::UnexpectedCharacter),
            TokenKind::Number,
            TokenKind::Newline,
            TokenKind::Eof
        ]
    );
    check_tiling(src, &s);
}

#[test]
fn tiling_holds_on_odd_texts() {
    for src in [
        "))]]}}",
        "#",
        "\\\\",
        "a$b@c::d:::e",
        "%%%",
        "r\"",
        "0x",
        "\u{feff}x",
        "  \t",
        "1 +\n\n\n# c\n 2",
    ] {
        let s = scan(src.as_bytes());
        check_tiling(src, &s);
    }
}

#[test]
fn scanner_hands_out_tokens_one_by_one() {
    let src = "x <- f(1, # one\n  2)\n\ny\n";
    let whole = scan(src.as_bytes());
    let mut scanner = rfmt::parser::scanner::Scanner::new(src.as_bytes());
    let mut seen = 0;
    let mut trivia_seen = 0;
    while let Some((token, lead)) = scanner.next_token() {
        assert_eq!(token, whole.tokens[seen]);
        assert_eq!(lead.as_slice(), &whole.trivia[token.trivia_from..token.trivia_to]);
        assert_eq!(token.trivia_from, trivia_seen);
        trivia_seen = token.trivia_to;
        seen += 1;
    }
    assert_eq!(seen, whole.tokens.len());
    assert_eq!(trivia_seen, whole.trivia.len());
    assert!(scanner.next_token().is_none());
    assert!(scanner.next_token().is_none());
}

#[test]
fn scanner_on_empty_text_hands_out_eof_once() {
    let mut scanner = rfmt::parser::scanner::Scanner::new(b"");
    let (token, lead) = scanner.next_token().unwrap();
    assert_eq!(token.kind, TokenKind::Eof);
    assert!(lead.is_empty());
    assert!(scanner.next_token().is_none());
}

#[test]
fn documentation_comment_on_its_own_line_never_leads_a_line_end() {
    let src = "a\n#' one\nb #' two\n#' three\n\n#' four\nc\n";
    let s = scan(src.as_bytes());
    for (i, t) in s.tokens.iter().enumerate() {
        let lead = trivia_of(src, &s, i);
        if t.kind == TokenKind::Newline {
            assert!(lead
                .iter()
                .all(|(k, _)| *k != TriviaKind::LineBreak && *k != TriviaKind::BlankLine));
        }
    }
    assert_eq!(
        trivia_of(src, &s, 2)
            .iter()
            .filter(|(k, _)| *k == TriviaKind::DocComment)
            .count(),
        1
    );
    assert_eq!(
        trivia_of(src, &s, 3),
        vec![
            (TriviaKind::Whitespace, " ".to_string()),
            (TriviaKind::DocComment, "#' two".to_string())
        ]
    );
    let docs: Vec<String> = trivia_of(src, &s, 4)
        .into_iter()
        .filter(|(k, _)| *k == TriviaKind::DocComment)
        .map(|(_, t)| t)
        .collect();
    assert_eq!(docs, vec!["#' three", "#' four"]);
}

#[test]
fn tokens_and_trivia_borrow_their_text() {
    let src = "x <- 'a'  # note\n";
    let s = scan(src.as_bytes());
    let words: Vec<&[u8]> = s.tokens.iter().map(|t| t.text(src.as_bytes())).collect();
    assert_eq!(words, vec![&b"x"[..], &b"<-"[..], &b"'a'"[..], &b"\n"[..], &b""[..]]);
    let notes: Vec<&[u8]> = s.trivia.iter().map(|t| t.text(src.as_bytes())).collect();
    assert_eq!(notes, vec![&b" "[..], &b" "[..], &b"  "[..], &b"# note"[..]]);
    assert_eq!(s.tokens[2].text(b"x"), b"");
    assert_eq!(rfmt::parser::text::span_of(b"abcdef", 2, 4), b"cd");
    assert_eq!(rfmt::parser::text::span_of(b"abcdef", 4, 2), b"");
    assert_eq!(rfmt::parser::text::span_of(b"abcdef", 4, 7), b"");
}

#[test]
fn characters_of_several_bytes_stay_whole() {
    for src in [
        "caf\u{e9} <- \"\u{4e16}\u{754c}\" # \u{1F600} smile\n",
        "\u{e9}+\u{fc}",
        "x \u{1F600}y\n'\\\u{e9}' \u{3b1}\u{3b2}",
        "r\"(\u{e9})\" %\u{e9}% `\u{e9} x`",
        "1\u{e9} 1.\u{e9} 0x1\u{e9} 'open \u{e9}\n\u{e9}",
        "\u{feff}x",
    ] {
        let s = scan(src.as_bytes());
        for t in &s.tokens {
            assert!(src.is_char_boundary(t.lead), "{:?} at {}", src, t.lead);
            assert!(src.is_char_boundary(t.start), "{:?} at {}", src, t.start);
            assert!(src.is_char_boundary(t.end), "{:?} at {}", src, t.end);
        }
        for r in &s.trivia {
            assert!(src.is_char_boundary(r.start) && src.is_char_boundary(r.end));
        }
        check_tiling(src, &s);
    }
}
