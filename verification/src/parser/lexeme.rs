//! Reading one lexeme: which bytes belong together, and what they are.
//!
//! Everything here looks only at the bytes from a position on. Whether a line
//! break ends a statement depends on what came before it and is decided by the
//! scanner.
use crate::parser::token::{
    is_digit, is_hex_digit, is_name_start, is_space, lemma_skip_while_advances,
    lemma_skip_while_bounds, lemma_skip_while_ends, scan_while, skip_while, ByteClass, Keyword,
    LexError, Operator, Punct, TokenKind,
};
use vstd::prelude::*;
use vstd::string::StringSliceAdditionalSpecFns;

verus! {

/// What a lexeme is before its surroundings are taken into account.
#[derive(Clone, Copy, Debug, PartialEq, Eq, Structural)]
pub enum RawKind {
    Space,
    LineComment,
    DocComment,
    /// A line feed.
    Break,
    Token(TokenKind),
}

/// A lexeme's kind and the offset just past it.
pub struct RawLexeme {
    pub kind: RawKind,
    pub end: int,
}

/// The byte at `i`, or zero outside the text.
pub open spec fn byte_at(src: Seq<u8>, i: int) -> u8 {
    if 0 <= i < src.len() {
        src[i]
    } else {
        0
    }
}

/// The byte `off` places after `pos`, or zero past the end.
pub fn peek(src: &[u8], pos: usize, off: usize) -> (b: u8)
    requires
        pos <= src.len(),
    ensures
        b == byte_at(src@, pos + off),
{
    if off < src.len() - pos {
        src[pos + off]
    } else {
        0
    }
}

pub open spec fn suffix_end(src: Seq<u8>, c: int) -> int {
    if byte_at(src, c) == ('L' as u8) || byte_at(src, c) == ('i' as u8) {
        c + 1
    } else {
        c
    }
}

pub open spec fn exponent_end(src: Seq<u8>, b: int) -> int {
    if byte_at(src, b) == ('e' as u8) || byte_at(src, b) == ('E' as u8) {
        let s = if byte_at(src, b + 1) == ('+' as u8) || byte_at(src, b + 1) == ('-' as u8) {
            b + 2
        } else {
            b + 1
        };
        if is_digit(byte_at(src, s)) {
            skip_while(src, s, ByteClass::Digit)
        } else {
            b
        }
    } else {
        b
    }
}

pub open spec fn is_hex_prefix(src: Seq<u8>, pos: int) -> bool {
    byte_at(src, pos) == ('0' as u8) && (byte_at(src, pos + 1) == ('x' as u8) || byte_at(
        src,
        pos + 1,
    ) == ('X' as u8)) && is_hex_digit(byte_at(src, pos + 2))
}

/// The end of the numeric literal at `pos`: hexadecimal digits after `0x`, or
/// digits, a fraction and an exponent; then an `L` or `i` suffix.
pub open spec fn number_end(src: Seq<u8>, pos: int) -> int {
    if is_hex_prefix(src, pos) {
        suffix_end(src, skip_while(src, pos + 2, ByteClass::HexDigit))
    } else {
        let a = skip_while(src, pos, ByteClass::Digit);
        let b = if byte_at(src, a) == ('.' as u8) {
            skip_while(src, a + 1, ByteClass::Digit)
        } else {
            a
        };
        suffix_end(src, exponent_end(src, b))
    }
}

fn scan_suffix(src: &[u8], c: usize) -> (end: usize)
    requires
        c <= src.len(),
    ensures
        end == suffix_end(src@, c as int),
        c <= end <= src.len(),
{
    let b = peek(src, c, 0);
    if b == ('L' as u8) || b == ('i' as u8) {
        c + 1
    } else {
        c
    }
}

fn scan_exponent(src: &[u8], b: usize) -> (end: usize)
    requires
        b <= src.len(),
    ensures
        end == exponent_end(src@, b as int),
        b <= end <= src.len(),
{
    let e = peek(src, b, 0);
    if e == ('e' as u8) || e == ('E' as u8) {
        let sign = peek(src, b, 1);
        let off: usize = if sign == ('+' as u8) || sign == ('-' as u8) {
            2
        } else {
            1
        };
        let d = peek(src, b, off);
        if ByteClass::Digit.contains(d) {
            scan_while(src, b + off, ByteClass::Digit)
        } else {
            b
        }
    } else {
        b
    }
}

fn scan_number(src: &[u8], pos: usize) -> (end: usize)
    requires
        pos < src.len(),
        is_digit(src@[pos as int]) || (src@[pos as int] == ('.' as u8) && is_digit(
            byte_at(src@, pos + 1),
        )),
    ensures
        end == number_end(src@, pos as int),
        pos < end <= src.len(),
{
    let c0 = peek(src, pos, 0);
    let c1 = peek(src, pos, 1);
    let c2 = peek(src, pos, 2);
    if c0 == ('0' as u8) && (c1 == ('x' as u8) || c1 == ('X' as u8))
        && ByteClass::HexDigit.contains(c2) {
        let h = scan_while(src, pos + 2, ByteClass::HexDigit);
        scan_suffix(src, h)
    } else {
        let a = scan_while(src, pos, ByteClass::Digit);
        let b = if peek(src, a, 0) == ('.' as u8) {
            scan_while(src, a + 1, ByteClass::Digit)
        } else {
            a
        };
        proof {
            if is_digit(src@[pos as int]) {
                lemma_skip_while_advances(src@, pos as int, ByteClass::Digit);
            } else {
                lemma_skip_while_advances(src@, pos + 1, ByteClass::Digit);
            }
        }
        let c = scan_exponent(src, b);
        scan_suffix(src, c)
    }
}

/// Bytes that may follow a backslash inside a quoted string.
pub open spec fn is_escape(b: u8) -> bool {
    b == ('n' as u8) || b == ('r' as u8) || b == ('t' as u8) || b == ('b' as u8) || b == ('a' as u8)
        || b == ('f' as u8) || b == ('v' as u8) || b == ('\\' as u8) || b == ('"' as u8) || b == (
    '\'' as u8) || b == ('`' as u8) || b == ('x' as u8) || b == ('u' as u8) || b == ('U' as u8)
        || b == ('\n' as u8) || (('0' as u8) <= b && b <= ('7' as u8))
}

fn escape_ok(b: u8) -> (r: bool)
    ensures
        r == is_escape(b),
{
    b == ('n' as u8) || b == ('r' as u8) || b == ('t' as u8) || b == ('b' as u8) || b == ('a' as u8)
        || b == ('f' as u8) || b == ('v' as u8) || b == ('\\' as u8) || b == ('"' as u8) || b == (
    '\'' as u8) || b == ('`' as u8) || b == ('x' as u8) || b == ('u' as u8) || b == ('U' as u8)
        || b == ('\n' as u8) || (('0' as u8) <= b && b <= ('7' as u8))
}

/// Where the quoted text that is open at `i` closes, and whether it holds a
/// backslash followed by a byte that starts no escape. The first component is
/// the offset of the closing `quote`, or the length of the text if there is
/// none. A backslash always takes the next byte with it.
pub open spec fn quoted_scan(src: Seq<u8>, i: int, quote: u8) -> (int, bool)
    decreases src.len() - i,
{
    if !(0 <= i < src.len()) {
        (src.len() as int, false)
    } else if src[i] == quote {
        (i, false)
    } else if src[i] == ('\\' as u8) {
        if i + 1 < src.len() {
            let rest = quoted_scan(src, i + 2, quote);
            (rest.0, rest.1 || !is_escape(src[i + 1]))
        } else {
            (src.len() as int, false)
        }
    } else {
        quoted_scan(src, i + 1, quote)
    }
}

fn scan_quoted(src: &[u8], start: usize, quote: u8) -> (r: (usize, bool))
    requires
        start <= src.len(),
    ensures
        r.0 == quoted_scan(src@, start as int, quote).0,
        r.1 == quoted_scan(src@, start as int, quote).1,
        start <= r.0 <= src.len(),
        r.0 < src.len() ==> src@[r.0 as int] == quote,
{
    let mut i: usize = start;
    let mut bad = false;
    let n = src.len();
    loop
        invariant
            n == src.len(),
            start <= i <= n,
            quoted_scan(src@, start as int, quote).0 == quoted_scan(src@, i as int, quote).0,
            quoted_scan(src@, start as int, quote).1 == (bad || quoted_scan(
                src@,
                i as int,
                quote,
            ).1),
        decreases n - i,
    {
        if i >= n {
            return (n, bad);
        }
        let c = src[i];
        if c == quote {
            return (i, bad);
        } else if c == ('\\' as u8) {
            if n - i > 1 {
                if !escape_ok(src[i + 1]) {
                    bad = true;
                }
                i += 2;
            } else {
                return (n, bad);
            }
        } else {
            i += 1;
        }
    }
}

/// The lexeme that starts with the quote at `pos`: `good` if the quote closes
/// and every escape is known, an error otherwise. Without a closing quote the
/// error runs to the end of the line.
pub open spec fn quoted_lexeme(src: Seq<u8>, pos: int, good: TokenKind) -> RawLexeme {
    let r = quoted_scan(src, pos + 1, byte_at(src, pos));
    if r.0 >= src.len() {
        RawLexeme {
            kind: RawKind::Token(TokenKind::Error(LexError::UnterminatedString)),
            end: skip_while(src, pos, ByteClass::InLine),
        }
    } else if r.1 {
        RawLexeme { kind: RawKind::Token(TokenKind::Error(LexError::InvalidEscape)), end: r.0 + 1 }
    } else {
        RawLexeme { kind: RawKind::Token(good), end: r.0 + 1 }
    }
}

fn lex_quoted(src: &[u8], pos: usize, good: TokenKind) -> (r: (RawKind, usize))
    requires
        pos < src.len(),
        src@[pos as int] != ('\n' as u8),
    ensures
        r.0 == quoted_lexeme(src@, pos as int, good).kind,
        r.1 == quoted_lexeme(src@, pos as int, good).end,
        pos < r.1 <= src.len(),
{
    let (close, bad) = scan_quoted(src, pos + 1, src[pos]);
    if close >= src.len() {
        let end = scan_while(src, pos, ByteClass::InLine);
        proof {
            lemma_skip_while_advances(src@, pos as int, ByteClass::InLine);
        }
        (RawKind::Token(TokenKind::Error(LexError::UnterminatedString)), end)
    } else if bad {
        (RawKind::Token(TokenKind::Error(LexError::InvalidEscape)), close + 1)
    } else {
        (RawKind::Token(good), close + 1)
    }
}

/// The bracket that closes a raw string opened with `open`, or zero.
pub open spec fn raw_closer(open: u8) -> u8 {
    if open == ('(' as u8) {
        ')' as u8
    } else if open == ('[' as u8) {
        ']' as u8
    } else if open == ('{' as u8) {
        '}' as u8
    } else {
        0
    }
}

/// Whether a raw string closes at `i`: the closing bracket, exactly `dashes`
/// dashes, and the quote.
pub open spec fn raw_close_at(src: Seq<u8>, i: int, closer: u8, dashes: int, quote: u8) -> bool {
    byte_at(src, i) == closer && skip_while(src, i + 1, ByteClass::Dash) == i + 1 + dashes
        && byte_at(src, i + 1 + dashes) == quote
}

/// The first offset from `i` on at which the raw string closes, or the length
/// of the text.
pub open spec fn raw_close(src: Seq<u8>, i: int, closer: u8, dashes: int, quote: u8) -> int
    decreases src.len() - i,
{
    if !(0 <= i < src.len()) {
        src.len() as int
    } else if raw_close_at(src, i, closer, dashes, quote) {
        i
    } else {
        raw_close(src, i + 1, closer, dashes, quote)
    }
}

pub open spec fn is_raw_prefix(src: Seq<u8>, pos: int) -> bool {
    (byte_at(src, pos) == ('r' as u8) || byte_at(src, pos) == ('R' as u8)) && (byte_at(
        src,
        pos + 1,
    ) == ('"' as u8) || byte_at(src, pos + 1) == ('\'' as u8))
}

/// The raw string that starts at `pos`: `r`, a quote, dashes, an opening
/// bracket, then everything up to the matching close.
pub open spec fn raw_string_lexeme(src: Seq<u8>, pos: int) -> RawLexeme {
    let quote = byte_at(src, pos + 1);
    let d = skip_while(src, pos + 2, ByteClass::Dash);
    let closer = raw_closer(byte_at(src, d));
    if closer == 0 {
        RawLexeme { kind: RawKind::Token(TokenKind::Error(LexError::MalformedRawString)), end: d }
    } else {
        let c = raw_close(src, d + 1, closer, d - (pos + 2), quote);
        if c >= src.len() {
            RawLexeme {
                kind: RawKind::Token(TokenKind::Error(LexError::UnterminatedString)),
                end: skip_while(src, pos, ByteClass::InLine),
            }
        } else {
            RawLexeme { kind: RawKind::Token(TokenKind::String), end: c + (d - (pos + 2)) + 2 }
        }
    }
}

fn find_raw_close(src: &[u8], start: usize, closer: u8, dashes: usize, quote: u8) -> (c: usize)
    requires
        start <= src.len(),
        quote != 0,
    ensures
        c == raw_close(src@, start as int, closer, dashes as int, quote),
        start <= c <= src.len(),
        c < src.len() ==> c + dashes + 1 < src.len(),
{
    let n = src.len();
    let mut i: usize = start;
    while i < n
        invariant
            n == src.len(),
            quote != 0,
            start <= i <= n,
            raw_close(src@, start as int, closer, dashes as int, quote) == raw_close(
                src@,
                i as int,
                closer,
                dashes as int,
                quote,
            ),
        decreases n - i,
    {
        if src[i] == closer {
            let e = scan_while(src, i + 1, ByteClass::Dash);
            let q = peek(src, e, 0);
            if e - (i + 1) == dashes && q == quote {
                return i;
            }
        }
        i += 1;
    }
    i
}

fn lex_raw_string(src: &[u8], pos: usize) -> (r: (RawKind, usize))
    requires
        pos < src.len(),
        is_raw_prefix(src@, pos as int),
        src@[pos as int] != ('\n' as u8),
    ensures
        r.0 == raw_string_lexeme(src@, pos as int).kind,
        r.1 == raw_string_lexeme(src@, pos as int).end,
        pos < r.1 <= src.len(),
{
    let quote = peek(src, pos, 1);
    let d = scan_while(src, pos + 2, ByteClass::Dash);
    let open = peek(src, d, 0);
    let closer: u8 = if open == ('(' as u8) {
        ')' as u8
    } else if open == ('[' as u8) {
        ']' as u8
    } else if open == ('{' as u8) {
        '}' as u8
    } else {
        0
    };
    if closer == 0 {
        (RawKind::Token(TokenKind::Error(LexError::MalformedRawString)), d)
    } else {
        let c = find_raw_close(src, d + 1, closer, d - (pos + 2), quote);
        if c >= src.len() {
            let end = scan_while(src, pos, ByteClass::InLine);
            proof {
                lemma_skip_while_advances(src@, pos as int, ByteClass::InLine);
            }
            (RawKind::Token(TokenKind::Error(LexError::UnterminatedString)), end)
        } else {
            (RawKind::Token(TokenKind::String), c + (d - (pos + 2)) + 2)
        }
    }
}

/// Whether the bytes `[pos, end)` spell `word`.
fn word_is(src: &[u8], pos: usize, end: usize, word: &str) -> (r: bool)
    requires
        pos <= end <= src.len(),
    ensures
        r == (src@.subrange(pos as int, end as int) == word.spec_bytes()),
{
    let w = word.as_bytes();
    if w.len() != end - pos {
        return false;
    }
    let mut k: usize = 0;
    while k < w.len()
        invariant
            w@ == word.spec_bytes(),
            w.len() == end - pos,
            pos <= end <= src.len(),
            k <= w.len(),
            forall|j: int| 0 <= j < k ==> src@[pos + j] == w@[j],
        decreases w.len() - k,
    {
        if src[pos + k] != w[k] {
            assert(src@.subrange(pos as int, end as int)[k as int] != w@[k as int]);
            return false;
        }
        k += 1;
    }
    assert(src@.subrange(pos as int, end as int) =~= w@);
    true
}

/// The reserved word that `word` spells, if it spells one.
pub open spec fn keyword_of(word: Seq<u8>) -> Option<Keyword> {
    if word == "if".spec_bytes() {
        Some(Keyword::If)
    } else if word == "else".spec_bytes() {
        Some(Keyword::Else)
    } else if word == "for".spec_bytes() {
        Some(Keyword::For)
    } else if word == "while".spec_bytes() {
        Some(Keyword::While)
    } else if word == "repeat".spec_bytes() {
        Some(Keyword::Repeat)
    } else if word == "function".spec_bytes() {
        Some(Keyword::Function)
    } else if word == "break".spec_bytes() {
        Some(Keyword::Break)
    } else if word == "next".spec_bytes() {
        Some(Keyword::Next)
    } else if word == "TRUE".spec_bytes() {
        Some(Keyword::True)
    } else if word == "FALSE".spec_bytes() {
        Some(Keyword::False)
    } else if word == "NULL".spec_bytes() {
        Some(Keyword::Null)
    } else if word == "NA".spec_bytes() {
        Some(Keyword::Na)
    } else if word == "NA_integer_".spec_bytes() {
        Some(Keyword::NaInteger)
    } else if word == "NA_real_".spec_bytes() {
        Some(Keyword::NaReal)
    } else if word == "NA_character_".spec_bytes() {
        Some(Keyword::NaCharacter)
    } else if word == "Inf".spec_bytes() {
        Some(Keyword::Inf)
    } else if word == "NaN".spec_bytes() {
        Some(Keyword::NaN)
    } else {
        None
    }
}

fn lookup_keyword(src: &[u8], pos: usize, end: usize) -> (r: Option<Keyword>)
    requires
        pos <= end <= src.len(),
    ensures
        r == keyword_of(src@.subrange(pos as int, end as int)),
{
    if word_is(src, pos, end, "if") {
        Some(Keyword::If)
    } else if word_is(src, pos, end, "else") {
        Some(Keyword::Else)
    } else if word_is(src, pos, end, "for") {
        Some(Keyword::For)
    } else if word_is(src, pos, end, "while") {
        Some(Keyword::While)
    } else if word_is(src, pos, end, "repeat") {
        Some(Keyword::Repeat)
    } else if word_is(src, pos, end, "function") {
        Some(Keyword::Function)
    } else if word_is(src, pos, end, "break") {
        Some(Keyword::Break)
    } else if word_is(src, pos, end, "next") {
        Some(Keyword::Next)
    } else if word_is(src, pos, end, "TRUE") {
        Some(Keyword::True)
    } else if word_is(src, pos, end, "FALSE") {
        Some(Keyword::False)
    } else if word_is(src, pos, end, "NULL") {
        Some(Keyword::Null)
    } else if word_is(src, pos, end, "NA") {
        Some(Keyword::Na)
    } else if word_is(src, pos, end, "NA_integer_") {
        Some(Keyword::NaInteger)
    } else if word_is(src, pos, end, "NA_real_") {
        Some(Keyword::NaReal)
    } else if word_is(src, pos, end, "NA_character_") {
        Some(Keyword::NaCharacter)
    } else if word_is(src, pos, end, "Inf") {
        Some(Keyword::Inf)
    } else if word_is(src, pos, end, "NaN") {
        Some(Keyword::NaN)
    } else {
        None
    }
}

pub open spec fn operator_lexeme(o: Operator, end: int) -> RawLexeme {
    RawLexeme { kind: RawKind::Token(TokenKind::Operator(o)), end }
}

pub open spec fn punct_lexeme(p: Punct, end: int) -> RawLexeme {
    RawLexeme { kind: RawKind::Token(TokenKind::Punct(p)), end }
}

/// The operator or delimiter at `pos`, the longest that matches; a byte that
/// starts none is an error of its own. A `%` opens a special operator only if
/// another `%` follows on the same line.
pub open spec fn symbol_lexeme(src: Seq<u8>, pos: int) -> RawLexeme {
    let c = byte_at(src, pos);
    let c1 = byte_at(src, pos + 1);
    let c2 = byte_at(src, pos + 2);
    if c == ('<' as u8) {
        if c1 == ('<' as u8) && c2 == ('-' as u8) {
            operator_lexeme(Operator::LeftSuperAssign, pos + 3)
        } else if c1 == ('-' as u8) {
            operator_lexeme(Operator::LeftAssign, pos + 2)
        } else if c1 == ('=' as u8) {
            operator_lexeme(Operator::Le, pos + 2)
        } else {
            operator_lexeme(Operator::Lt, pos + 1)
        }
    } else if c == ('-' as u8) {
        if c1 == ('>' as u8) && c2 == ('>' as u8) {
            operator_lexeme(Operator::RightSuperAssign, pos + 3)
        } else if c1 == ('>' as u8) {
            operator_lexeme(Operator::RightAssign, pos + 2)
        } else {
            operator_lexeme(Operator::Minus, pos + 1)
        }
    } else if c == ('=' as u8) {
        if c1 == ('=' as u8) {
            operator_lexeme(Operator::EqEq, pos + 2)
        } else {
            operator_lexeme(Operator::EqAssign, pos + 1)
        }
    } else if c == ('!' as u8) {
        if c1 == ('=' as u8) {
            operator_lexeme(Operator::Ne, pos + 2)
        } else {
            operator_lexeme(Operator::Not, pos + 1)
        }
    } else if c == ('>' as u8) {
        if c1 == ('=' as u8) {
            operator_lexeme(Operator::Ge, pos + 2)
        } else {
            operator_lexeme(Operator::Gt, pos + 1)
        }
    } else if c == ('|' as u8) {
        if c1 == ('>' as u8) {
            operator_lexeme(Operator::Pipe, pos + 2)
        } else if c1 == ('|' as u8) {
            operator_lexeme(Operator::OrOr, pos + 2)
        } else {
            operator_lexeme(Operator::Or, pos + 1)
        }
    } else if c == ('&' as u8) {
        if c1 == ('&' as u8) {
            operator_lexeme(Operator::AndAnd, pos + 2)
        } else {
            operator_lexeme(Operator::And, pos + 1)
        }
    } else if c == (':' as u8) {
        if c1 == (':' as u8) && c2 == (':' as u8) {
            operator_lexeme(Operator::TripleColon, pos + 3)
        } else if c1 == (':' as u8) {
            operator_lexeme(Operator::DoubleColon, pos + 2)
        } else if c1 == ('=' as u8) {
            operator_lexeme(Operator::ColonAssign, pos + 2)
        } else {
            operator_lexeme(Operator::Colon, pos + 1)
        }
    } else if c == ('*' as u8) {
        if c1 == ('*' as u8) {
            operator_lexeme(Operator::Caret, pos + 2)
        } else {
            operator_lexeme(Operator::Star, pos + 1)
        }
    } else if c == ('%' as u8) {
        let e = skip_while(src, pos + 1, ByteClass::InSpecial);
        if byte_at(src, e) == ('%' as u8) {
            operator_lexeme(Operator::Special, e + 1)
        } else {
            RawLexeme {
                kind: RawKind::Token(TokenKind::Error(LexError::UnexpectedCharacter)),
                end: pos + 1,
            }
        }
    } else if c == ('+' as u8) {
        operator_lexeme(Operator::Plus, pos + 1)
    } else if c == ('/' as u8) {
        operator_lexeme(Operator::Slash, pos + 1)
    } else if c == ('^' as u8) {
        operator_lexeme(Operator::Caret, pos + 1)
    } else if c == ('~' as u8) {
        operator_lexeme(Operator::Tilde, pos + 1)
    } else if c == ('?' as u8) {
        operator_lexeme(Operator::Question, pos + 1)
    } else if c == ('$' as u8) {
        operator_lexeme(Operator::Dollar, pos + 1)
    } else if c == ('@' as u8) {
        operator_lexeme(Operator::At, pos + 1)
    } else if c == ('(' as u8) {
        punct_lexeme(Punct::LParen, pos + 1)
    } else if c == (')' as u8) {
        punct_lexeme(Punct::RParen, pos + 1)
    } else if c == ('{' as u8) {
        punct_lexeme(Punct::LBrace, pos + 1)
    } else if c == ('}' as u8) {
        punct_lexeme(Punct::RBrace, pos + 1)
    } else if c == ('[' as u8) {
        if c1 == ('[' as u8) {
            punct_lexeme(Punct::LDoubleBracket, pos + 2)
        } else {
            punct_lexeme(Punct::LBracket, pos + 1)
        }
    } else if c == (']' as u8) {
        punct_lexeme(Punct::RBracket, pos + 1)
    } else if c == (',' as u8) {
        punct_lexeme(Punct::Comma, pos + 1)
    } else if c == (';' as u8) {
        punct_lexeme(Punct::Semicolon, pos + 1)
    } else {
        RawLexeme {
            kind: RawKind::Token(TokenKind::Error(LexError::UnexpectedCharacter)),
            end: pos + 1,
        }
    }
}

fn operator_token(o: Operator, pos: usize, width: usize) -> (r: (RawKind, usize))
    requires
        pos + width <= usize::MAX,
    ensures
        r.0 == operator_lexeme(o, pos + width).kind,
        r.1 == pos + width,
{
    (RawKind::Token(TokenKind::Operator(o)), pos + width)
}

fn punct_token(p: Punct, pos: usize, width: usize) -> (r: (RawKind, usize))
    requires
        pos + width <= usize::MAX,
    ensures
        r.0 == punct_lexeme(p, pos + width).kind,
        r.1 == pos + width,
{
    (RawKind::Token(TokenKind::Punct(p)), pos + width)
}

fn lex_symbol(src: &[u8], pos: usize) -> (r: (RawKind, usize))
    requires
        pos < src.len(),
    ensures
        r.0 == symbol_lexeme(src@, pos as int).kind,
        r.1 == symbol_lexeme(src@, pos as int).end,
        pos < r.1 <= src.len(),
{
    let c = peek(src, pos, 0);
    let c1 = peek(src, pos, 1);
    let c2 = peek(src, pos, 2);
    if c == ('<' as u8) {
        if c1 == ('<' as u8) && c2 == ('-' as u8) {
            operator_token(Operator::LeftSuperAssign, pos, 3)
        } else if c1 == ('-' as u8) {
            operator_token(Operator::LeftAssign, pos, 2)
        } else if c1 == ('=' as u8) {
            operator_token(Operator::Le, pos, 2)
        } else {
            operator_token(Operator::Lt, pos, 1)
        }
    } else if c == ('-' as u8) {
        if c1 == ('>' as u8) && c2 == ('>' as u8) {
            operator_token(Operator::RightSuperAssign, pos, 3)
        } else if c1 == ('>' as u8) {
            operator_token(Operator::RightAssign, pos, 2)
        } else {
            operator_token(Operator::Minus, pos, 1)
        }
    } else if c == ('=' as u8) {
        if c1 == ('=' as u8) {
            operator_token(Operator::EqEq, pos, 2)
        } else {
            operator_token(Operator::EqAssign, pos, 1)
        }
    } else if c == ('!' as u8) {
        if c1 == ('=' as u8) {
            operator_token(Operator::Ne, pos, 2)
        } else {
            operator_token(Operator::Not, pos, 1)
        }
    } else if c == ('>' as u8) {
        if c1 == ('=' as u8) {
            operator_token(Operator::Ge, pos, 2)
        } else {
            operator_token(Operator::Gt, pos, 1)
        }
    } else if c == ('|' as u8) {
        if c1 == ('>' as u8) {
            operator_token(Operator::Pipe, pos, 2)
        } else if c1 == ('|' as u8) {
            operator_token(Operator::OrOr, pos, 2)
        } else {
            operator_token(Operator::Or, pos, 1)
        }
    } else if c == ('&' as u8) {
        if c1 == ('&' as u8) {
            operator_token(Operator::AndAnd, pos, 2)
        } else {
            operator_token(Operator::And, pos, 1)
        }
    } else if c == (':' as u8) {
        if c1 == (':' as u8) && c2 == (':' as u8) {
            operator_token(Operator::TripleColon, pos, 3)
        } else if c1 == (':' as u8) {
            operator_token(Operator::DoubleColon, pos, 2)
        } else if c1 == ('=' as u8) {
            operator_token(Operator::ColonAssign, pos, 2)
        } else {
            operator_token(Operator::Colon, pos, 1)
        }
    } else if c == ('*' as u8) {
        if c1 == ('*' as u8) {
            operator_token(Operator::Caret, pos, 2)
        } else {
            operator_token(Operator::Star, pos, 1)
        }
    } else if c == ('%' as u8) {
        let e = scan_while(src, pos + 1, ByteClass::InSpecial);
        if peek(src, e, 0) == ('%' as u8) {
            operator_token(Operator::Special, e, 1)
        } else {
            (RawKind::Token(TokenKind::Error(LexError::UnexpectedCharacter)), pos + 1)
        }
    } else if c == ('+' as u8) {
        operator_token(Operator::Plus, pos, 1)
    } else if c == ('/' as u8) {
        operator_token(Operator::Slash, pos, 1)
    } else if c == ('^' as u8) {
        operator_token(Operator::Caret, pos, 1)
    } else if c == ('~' as u8) {
        operator_token(Operator::Tilde, pos, 1)
    } else if c == ('?' as u8) {
        operator_token(Operator::Question, pos, 1)
    } else if c == ('$' as u8) {
        operator_token(Operator::Dollar, pos, 1)
    } else if c == ('@' as u8) {
        operator_token(Operator::At, pos, 1)
    } else if c == ('(' as u8) {
        punct_token(Punct::LParen, pos, 1)
    } else if c == (')' as u8) {
        punct_token(Punct::RParen, pos, 1)
    } else if c == ('{' as u8) {
        punct_token(Punct::LBrace, pos, 1)
    } else if c == ('}' as u8) {
        punct_token(Punct::RBrace, pos, 1)
    } else if c == ('[' as u8) {
        if c1 == ('[' as u8) {
            punct_token(Punct::LDoubleBracket, pos, 2)
        } else {
            punct_token(Punct::LBracket, pos, 1)
        }
    } else if c == (']' as u8) {
        punct_token(Punct::RBracket, pos, 1)
    } else if c == (',' as u8) {
        punct_token(Punct::Comma, pos, 1)
    } else if c == (';' as u8) {
        punct_token(Punct::Semicolon, pos, 1)
    } else {
        (RawKind::Token(TokenKind::Error(LexError::UnexpectedCharacter)), pos + 1)
    }
}

/// The name, reserved word or word operator at `pos`.
pub open spec fn name_lexeme(src: Seq<u8>, pos: int) -> RawLexeme {
    let end = skip_while(src, pos, ByteClass::Name);
    RawLexeme {
        kind: RawKind::Token(
            match keyword_of(src.subrange(pos, end)) {
                Some(k) => TokenKind::Keyword(k),
                None => if src.subrange(pos, end) == "in".spec_bytes() {
                    TokenKind::Operator(Operator::In)
                } else {
                    TokenKind::Identifier
                },
            },
        ),
        end,
    }
}

pub open spec fn comment_lexeme(src: Seq<u8>, pos: int) -> RawLexeme {
    RawLexeme {
        kind: if byte_at(src, pos + 1) == ('\'' as u8) {
            RawKind::DocComment
        } else {
            RawKind::LineComment
        },
        end: skip_while(src, pos, ByteClass::InLine),
    }
}

/// The lexeme that starts at `pos`, for `0 <= pos < src.len()`.
///
/// A line feed stands alone. A run of other white space, a comment to the end
/// of its line, a number, a raw string, a name, a quoted string, a backtick
/// name and the lambda backslash are each one lexeme; anything else is read
/// as an operator or delimiter.
pub open spec fn raw_lex(src: Seq<u8>, pos: int) -> RawLexeme {
    let c = byte_at(src, pos);
    if c == ('\n' as u8) {
        RawLexeme { kind: RawKind::Break, end: pos + 1 }
    } else if is_space(c) {
        RawLexeme { kind: RawKind::Space, end: skip_while(src, pos, ByteClass::Space) }
    } else if c == ('#' as u8) {
        comment_lexeme(src, pos)
    } else if is_digit(c) || (c == ('.' as u8) && is_digit(byte_at(src, pos + 1))) {
        RawLexeme { kind: RawKind::Token(TokenKind::Number), end: number_end(src, pos) }
    } else if is_raw_prefix(src, pos) {
        raw_string_lexeme(src, pos)
    } else if is_name_start(c) {
        name_lexeme(src, pos)
    } else if c == ('"' as u8) || c == ('\'' as u8) {
        quoted_lexeme(src, pos, TokenKind::String)
    } else if c == ('`' as u8) {
        quoted_lexeme(src, pos, TokenKind::Identifier)
    } else if c == ('\\' as u8) {
        RawLexeme { kind: RawKind::Token(TokenKind::Keyword(Keyword::Function)), end: pos + 1 }
    } else {
        symbol_lexeme(src, pos)
    }
}

/// Reads the lexeme at `pos`. It is never empty and never runs past the text.
pub fn lex_raw(src: &[u8], pos: usize) -> (r: (RawKind, usize))
    requires
        pos < src.len(),
    ensures
        r.0 == raw_lex(src@, pos as int).kind,
        r.1 == raw_lex(src@, pos as int).end,
        pos < r.1 <= src.len(),
{
    let c = src[pos];
    let c1 = peek(src, pos, 1);
    if c == ('\n' as u8) {
        (RawKind::Break, pos + 1)
    } else if ByteClass::Space.contains(c) {
        proof {
            lemma_skip_while_advances(src@, pos as int, ByteClass::Space);
        }
        (RawKind::Space, scan_while(src, pos, ByteClass::Space))
    } else if c == ('#' as u8) {
        proof {
            lemma_skip_while_advances(src@, pos as int, ByteClass::InLine);
        }
        let kind = if c1 == ('\'' as u8) {
            RawKind::DocComment
        } else {
            RawKind::LineComment
        };
        (kind, scan_while(src, pos, ByteClass::InLine))
    } else if ByteClass::Digit.contains(c) || (c == ('.' as u8) && ByteClass::Digit.contains(c1)) {
        (RawKind::Token(TokenKind::Number), scan_number(src, pos))
    } else if (c == ('r' as u8) || c == ('R' as u8)) && (c1 == ('"' as u8) || c1 == ('\'' as u8)) {
        lex_raw_string(src, pos)
    } else if ByteClass::Name.contains(c) && !ByteClass::Digit.contains(c) {
        proof {
            lemma_skip_while_advances(src@, pos as int, ByteClass::Name);
        }
        let end = scan_while(src, pos, ByteClass::Name);
        let kind = match lookup_keyword(src, pos, end) {
            Some(k) => TokenKind::Keyword(k),
            None => if word_is(src, pos, end, "in") {
                TokenKind::Operator(Operator::In)
            } else {
                TokenKind::Identifier
            },
        };
        (RawKind::Token(kind), end)
    } else if c == ('"' as u8) || c == ('\'' as u8) {
        lex_quoted(src, pos, TokenKind::String)
    } else if c == ('`' as u8) {
        lex_quoted(src, pos, TokenKind::Identifier)
    } else if c == ('\\' as u8) {
        (RawKind::Token(TokenKind::Keyword(Keyword::Function)), pos + 1)
    } else {
        lex_symbol(src, pos)
    }
}

/// Quoted text closes behind where it opens and inside the text.
pub proof fn lemma_quoted_scan_bounds(src: Seq<u8>, i: int, quote: u8)
    requires
        0 <= i <= src.len(),
    ensures
        i <= quoted_scan(src, i, quote).0 <= src.len(),
    decreases src.len() - i,
{
    if i < src.len() && src[i] != quote {
        if src[i] == ('\\' as u8) {
            if i + 1 < src.len() {
                lemma_quoted_scan_bounds(src, i + 2, quote);
            }
        } else {
            lemma_quoted_scan_bounds(src, i + 1, quote);
        }
    }
}

/// Where a raw string closes, its whole closing sequence lies inside the text.
pub proof fn lemma_raw_close_bounds(src: Seq<u8>, i: int, closer: u8, dashes: int, quote: u8)
    requires
        0 <= i <= src.len(),
        0 <= dashes,
        quote != 0,
    ensures
        i <= raw_close(src, i, closer, dashes, quote) <= src.len(),
        raw_close(src, i, closer, dashes, quote) < src.len() ==> raw_close(
            src,
            i,
            closer,
            dashes,
            quote,
        ) + dashes + 1 < src.len(),
    decreases src.len() - i,
{
    if i < src.len() && !raw_close_at(src, i, closer, dashes, quote) {
        lemma_raw_close_bounds(src, i + 1, closer, dashes, quote);
    }
}

/// A numeric literal is not empty and lies inside the text.
pub proof fn lemma_number_end_bounds(src: Seq<u8>, pos: int)
    requires
        0 <= pos < src.len(),
        is_digit(src[pos]) || (src[pos] == ('.' as u8) && is_digit(byte_at(src, pos + 1))),
    ensures
        pos < number_end(src, pos) <= src.len(),
{
    if is_hex_prefix(src, pos) {
        lemma_skip_while_advances(src, pos + 2, ByteClass::HexDigit);
    } else {
        lemma_skip_while_bounds(src, pos, ByteClass::Digit);
        let a = skip_while(src, pos, ByteClass::Digit);
        let b = if byte_at(src, a) == ('.' as u8) {
            skip_while(src, a + 1, ByteClass::Digit)
        } else {
            a
        };
        if is_digit(src[pos]) {
            lemma_skip_while_advances(src, pos, ByteClass::Digit);
        }
        if byte_at(src, a) == ('.' as u8) {
            lemma_skip_while_bounds(src, a + 1, ByteClass::Digit);
            if !is_digit(src[pos]) {
                lemma_skip_while_advances(src, pos + 1, ByteClass::Digit);
            }
        }
        if byte_at(src, b) == ('e' as u8) || byte_at(src, b) == ('E' as u8) {
            let s = if byte_at(src, b + 1) == ('+' as u8) || byte_at(src, b + 1) == ('-' as u8) {
                b + 2
            } else {
                b + 1
            };
            if is_digit(byte_at(src, s)) {
                lemma_skip_while_advances(src, s, ByteClass::Digit);
            }
        }
    }
}

/// Every lexeme is not empty and lies inside the text, and none is the end of
/// the text or a statement's end by itself.
pub proof fn lemma_raw_lex_bounds(src: Seq<u8>, pos: int)
    requires
        0 <= pos < src.len(),
    ensures
        pos < raw_lex(src, pos).end <= src.len(),
        raw_lex(src, pos).kind != RawKind::Token(TokenKind::Eof),
        raw_lex(src, pos).kind != RawKind::Token(TokenKind::Newline),
{
    let c = src[pos];
    if c == ('\n' as u8) {
    } else if is_space(c) {
        lemma_skip_while_advances(src, pos, ByteClass::Space);
    } else if c == ('#' as u8) {
        lemma_skip_while_advances(src, pos, ByteClass::InLine);
    } else if is_digit(c) || (c == ('.' as u8) && is_digit(byte_at(src, pos + 1))) {
        lemma_number_end_bounds(src, pos);
    } else if is_raw_prefix(src, pos) {
        lemma_skip_while_bounds(src, pos + 2, ByteClass::Dash);
        let d = skip_while(src, pos + 2, ByteClass::Dash);
        if raw_closer(byte_at(src, d)) != 0 {
            lemma_raw_close_bounds(src, d + 1, raw_closer(byte_at(src, d)), d - (pos + 2), src[pos + 1]);
        }
        lemma_skip_while_advances(src, pos, ByteClass::InLine);
    } else if is_name_start(c) {
        lemma_skip_while_advances(src, pos, ByteClass::Name);
    } else if c == ('"' as u8) || c == ('\'' as u8) || c == ('`' as u8) {
        lemma_quoted_scan_bounds(src, pos + 1, c);
        lemma_skip_while_advances(src, pos, ByteClass::InLine);
    } else if c == ('\\' as u8) {
    } else if c == ('%' as u8) {
        lemma_skip_while_bounds(src, pos + 1, ByteClass::InSpecial);
    } else {
    }
}

/// Whether `e` is the start or the end of the text, or lies next to a byte
/// below 128. A character of more than one byte has no such place inside it.
pub open spec fn at_edge(src: Seq<u8>, e: int) -> bool {
    e == 0 || e == src.len() || (0 < e < src.len() && (src[e] < 128 || src[e - 1] < 128))
}

proof fn lemma_quoted_scan_closes(src: Seq<u8>, i: int, quote: u8)
    requires
        0 <= i <= src.len(),
    ensures
        quoted_scan(src, i, quote).0 < src.len() ==> src[quoted_scan(src, i, quote).0] == quote,
    decreases src.len() - i,
{
    lemma_quoted_scan_bounds(src, i, quote);
    if i < src.len() && src[i] != quote {
        if src[i] == ('\\' as u8) {
            if i + 1 < src.len() {
                lemma_quoted_scan_closes(src, i + 2, quote);
            }
        } else {
            lemma_quoted_scan_closes(src, i + 1, quote);
        }
    }
}

proof fn lemma_raw_close_closes(src: Seq<u8>, i: int, closer: u8, dashes: int, quote: u8)
    requires
        0 <= i <= src.len(),
    ensures
        raw_close(src, i, closer, dashes, quote) < src.len() ==> raw_close_at(
            src,
            raw_close(src, i, closer, dashes, quote),
            closer,
            dashes,
            quote,
        ),
    decreases src.len() - i,
{
    if i < src.len() && !raw_close_at(src, i, closer, dashes, quote) {
        lemma_raw_close_closes(src, i + 1, closer, dashes, quote);
    }
}

proof fn lemma_number_end_edge(src: Seq<u8>, pos: int)
    requires
        0 <= pos < src.len(),
        is_digit(src[pos]) || (src[pos] == ('.' as u8) && is_digit(byte_at(src, pos + 1))),
    ensures
        at_edge(src, number_end(src, pos)),
{
    lemma_number_end_bounds(src, pos);
    if is_hex_prefix(src, pos) {
        lemma_skip_while_advances(src, pos + 2, ByteClass::HexDigit);
        lemma_skip_while_ends(src, pos + 2, ByteClass::HexDigit);
    } else {
        lemma_skip_while_bounds(src, pos, ByteClass::Digit);
        lemma_skip_while_ends(src, pos, ByteClass::Digit);
        let a = skip_while(src, pos, ByteClass::Digit);
        if byte_at(src, a) == ('.' as u8) {
            lemma_skip_while_bounds(src, a + 1, ByteClass::Digit);
            lemma_skip_while_ends(src, a + 1, ByteClass::Digit);
        }
        let b = if byte_at(src, a) == ('.' as u8) {
            skip_while(src, a + 1, ByteClass::Digit)
        } else {
            a
        };
        if byte_at(src, b) == ('e' as u8) || byte_at(src, b) == ('E' as u8) {
            let s = if byte_at(src, b + 1) == ('+' as u8) || byte_at(src, b + 1) == ('-' as u8) {
                b + 2
            } else {
                b + 1
            };
            if is_digit(byte_at(src, s)) {
                lemma_skip_while_advances(src, s, ByteClass::Digit);
                lemma_skip_while_ends(src, s, ByteClass::Digit);
            }
        }
    }
}

/// Every lexeme ends at the end of the text or next to a byte below 128.
pub proof fn lemma_raw_lex_edge(src: Seq<u8>, pos: int)
    requires
        0 <= pos < src.len(),
    ensures
        at_edge(src, raw_lex(src, pos).end),
{
    lemma_raw_lex_bounds(src, pos);
    let c = src[pos];
    if c == ('\n' as u8) {
    } else if is_space(c) {
        lemma_skip_while_ends(src, pos, ByteClass::Space);
    } else if c == ('#' as u8) {
        lemma_skip_while_ends(src, pos, ByteClass::InLine);
    } else if is_digit(c) || (c == ('.' as u8) && is_digit(byte_at(src, pos + 1))) {
        lemma_number_end_edge(src, pos);
    } else if is_raw_prefix(src, pos) {
        lemma_skip_while_bounds(src, pos + 2, ByteClass::Dash);
        lemma_skip_while_ends(src, pos + 2, ByteClass::Dash);
        let d = skip_while(src, pos + 2, ByteClass::Dash);
        if raw_closer(byte_at(src, d)) != 0 {
            lemma_raw_close_bounds(src, d + 1, raw_closer(byte_at(src, d)), d - (pos + 2), src[pos + 1]);
            lemma_raw_close_closes(src, d + 1, raw_closer(byte_at(src, d)), d - (pos + 2), src[pos + 1]);
        }
        lemma_skip_while_ends(src, pos, ByteClass::InLine);
    } else if is_name_start(c) {
        lemma_skip_while_ends(src, pos, ByteClass::Name);
    } else if c == ('"' as u8) || c == ('\'' as u8) || c == ('`' as u8) {
        lemma_quoted_scan_bounds(src, pos + 1, c);
        lemma_quoted_scan_closes(src, pos + 1, c);
        lemma_skip_while_ends(src, pos, ByteClass::InLine);
    } else if c == ('\\' as u8) {
    } else if c == ('%' as u8) {
        lemma_skip_while_bounds(src, pos + 1, ByteClass::InSpecial);
    } else {
    }
}

} // verus!
