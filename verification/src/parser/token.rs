//! Tokens and trivia: the lexical vocabulary of R source text.
use vstd::prelude::*;

verus! {

/// Insignificant text that is kept so the source can be rebuilt byte for byte.
#[derive(Clone, Copy, Debug, PartialEq, Eq, Structural)]
pub enum TriviaKind {
    /// A run of spaces, tabs, form feeds or carriage returns.
    Whitespace,
    /// `#` up to, but not including, the end of the line.
    LineComment,
    /// `#'` up to, but not including, the end of the line.
    DocComment,
    /// A line break that ends a line holding nothing but whitespace.
    BlankLine,
    /// Any other line break that does not end a statement.
    LineBreak,
}

/// One piece of trivia with its byte span `[start, end)`.
#[derive(Clone, Copy, Debug, PartialEq, Eq, Structural)]
pub struct Trivia {
    pub kind: TriviaKind,
    pub start: usize,
    pub end: usize,
}

/// Reserved words. The lambda backslash is read as `Function`.
#[derive(Clone, Copy, Debug, PartialEq, Eq, Structural)]
pub enum Keyword {
    If,
    Else,
    For,
    While,
    Repeat,
    Function,
    Break,
    Next,
    True,
    False,
    Null,
    Na,
    NaInteger,
    NaReal,
    NaCharacter,
    Inf,
    NaN,
}

/// Operator symbols. `**` is read as `Caret`, every `%...%` as `Special`, and
/// the word `in` as `In`.
#[derive(Clone, Copy, Debug, PartialEq, Eq, Structural)]
pub enum Operator {
    Plus,
    Minus,
    Star,
    Slash,
    Caret,
    Colon,
    Special,
    Pipe,
    Lt,
    Gt,
    Le,
    Ge,
    EqEq,
    Ne,
    Not,
    And,
    AndAnd,
    Or,
    OrOr,
    Tilde,
    LeftAssign,
    LeftSuperAssign,
    RightAssign,
    RightSuperAssign,
    EqAssign,
    ColonAssign,
    Question,
    Dollar,
    At,
    DoubleColon,
    TripleColon,
    In,
}

/// Delimiters and separators.
#[derive(Clone, Copy, Debug, PartialEq, Eq, Structural)]
pub enum Punct {
    LParen,
    RParen,
    LBrace,
    RBrace,
    LBracket,
    RBracket,
    LDoubleBracket,
    Comma,
    Semicolon,
}

/// Why a stretch of bytes could not be read as a token.
#[derive(Clone, Copy, Debug, PartialEq, Eq, Structural)]
pub enum LexError {
    /// A string or backtick name whose closing quote is missing.
    UnterminatedString,
    /// A backslash in a string followed by a byte that starts no escape.
    InvalidEscape,
    /// `r"` or `R"` not followed by dashes and an opening bracket.
    MalformedRawString,
    /// A byte that starts no token.
    UnexpectedCharacter,
}

#[derive(Clone, Copy, Debug, PartialEq, Eq, Structural)]
pub enum TokenKind {
    Identifier,
    Keyword(Keyword),
    Number,
    String,
    Operator(Operator),
    Punct(Punct),
    /// A line break that ends a statement.
    Newline,
    /// The zero-width token at the end of the input.
    Eof,
    Error(LexError),
}

/// A significant token.
///
/// The token's own text is `[start, end)`. Its leading trivia are the records
/// `trivia_from..trivia_to` of the scan's trivia list and cover `[lead, start)`.
/// `line` and `column` locate `start`, both counted from zero, in bytes.
#[derive(Clone, Copy, Debug, PartialEq, Eq, Structural)]
pub struct Token {
    pub kind: TokenKind,
    pub lead: usize,
    pub start: usize,
    pub end: usize,
    pub line: usize,
    pub column: usize,
    pub trivia_from: usize,
    pub trivia_to: usize,
}

/// Classes of bytes that the scanner skips over in runs.
#[derive(Clone, Copy, Debug, PartialEq, Eq, Structural)]
pub enum ByteClass {
    Space,
    Digit,
    HexDigit,
    Name,
    Dash,
    /// Every byte but the line feed.
    InLine,
    /// Every byte but the line feed and `%`.
    InSpecial,
}

pub open spec fn is_letter(b: u8) -> bool {
    (('a' as u8) <= b && b <= ('z' as u8)) || (('A' as u8) <= b && b <= ('Z' as u8))
}

pub open spec fn is_digit(b: u8) -> bool {
    ('0' as u8) <= b && b <= ('9' as u8)
}

pub open spec fn is_hex_digit(b: u8) -> bool {
    is_digit(b) || (('a' as u8) <= b && b <= ('f' as u8)) || (('A' as u8) <= b && b <= ('F' as u8))
}

pub open spec fn is_space(b: u8) -> bool {
    b == (' ' as u8) || b == ('\t' as u8) || b == ('\r' as u8) || b == 12
}

/// Bytes that may start a name: letters, `.`, `_`, and every byte of a
/// multi-byte character.
pub open spec fn is_name_start(b: u8) -> bool {
    is_letter(b) || b == ('.' as u8) || b == ('_' as u8) || b >= 128
}

pub open spec fn is_name_byte(b: u8) -> bool {
    is_name_start(b) || is_digit(b)
}

impl ByteClass {
    pub open spec fn has(self, b: u8) -> bool {
        match self {
            ByteClass::Space => is_space(b),
            ByteClass::Digit => is_digit(b),
            ByteClass::HexDigit => is_hex_digit(b),
            ByteClass::Name => is_name_byte(b),
            ByteClass::Dash => b == ('-' as u8),
            ByteClass::InLine => b != ('\n' as u8),
            ByteClass::InSpecial => b != ('\n' as u8) && b != ('%' as u8),
        }
    }

    pub fn contains(self, b: u8) -> (r: bool)
        ensures
            r == self.has(b),
    {
        match self {
            ByteClass::Space => b == (' ' as u8) || b == ('\t' as u8) || b == ('\r' as u8) || b == 12,
            ByteClass::Digit => ('0' as u8) <= b && b <= ('9' as u8),
            ByteClass::HexDigit => (('0' as u8) <= b && b <= ('9' as u8)) || (('a' as u8) <= b && b <= ('f' as u8)) || (('A' as u8)
                <= b && b <= ('F' as u8)),
            ByteClass::Name => (('a' as u8) <= b && b <= ('z' as u8)) || (('A' as u8) <= b && b <= ('Z' as u8)) || b == ('.' as u8)
                || b == ('_' as u8) || b >= 128 || (('0' as u8) <= b && b <= ('9' as u8)),
            ByteClass::Dash => b == ('-' as u8),
            ByteClass::InLine => b != ('\n' as u8),
            ByteClass::InSpecial => b != ('\n' as u8) && b != ('%' as u8),
        }
    }
}

/// The end of the longest run of bytes of `class` that starts at `pos`.
pub open spec fn skip_while(src: Seq<u8>, pos: int, class: ByteClass) -> int
    decreases src.len() - pos,
{
    if 0 <= pos < src.len() && class.has(src[pos]) {
        skip_while(src, pos + 1, class)
    } else {
        pos
    }
}

pub proof fn lemma_skip_while_bounds(src: Seq<u8>, pos: int, class: ByteClass)
    requires
        0 <= pos <= src.len(),
    ensures
        pos <= skip_while(src, pos, class) <= src.len(),
    decreases src.len() - pos,
{
    if pos < src.len() && class.has(src[pos]) {
        lemma_skip_while_bounds(src, pos + 1, class);
    }
}

/// A run that starts with a byte of the class is not empty.
pub proof fn lemma_skip_while_advances(src: Seq<u8>, pos: int, class: ByteClass)
    requires
        0 <= pos < src.len(),
        class.has(src[pos]),
    ensures
        pos < skip_while(src, pos, class) <= src.len(),
{
    lemma_skip_while_bounds(src, pos + 1, class);
}

pub fn scan_while(src: &[u8], pos: usize, class: ByteClass) -> (end: usize)
    requires
        pos <= src.len(),
    ensures
        end == skip_while(src@, pos as int, class),
        pos <= end <= src.len(),
{
    let mut i: usize = pos;
    while i < src.len() && class.contains(src[i])
        invariant
            pos <= i <= src.len(),
            skip_while(src@, pos as int, class) == skip_while(src@, i as int, class),
        decreases src.len() - i,
    {
        i += 1;
    }
    i
}

/// A run stops at the end of the text or in front of a byte that is not of
/// the class, and a run that is not empty ends with a byte of the class.
pub proof fn lemma_skip_while_ends(src: Seq<u8>, pos: int, class: ByteClass)
    requires
        0 <= pos <= src.len(),
    ensures
        skip_while(src, pos, class) < src.len() ==> !class.has(src[skip_while(src, pos, class)]),
        pos < skip_while(src, pos, class) ==> class.has(src[skip_while(src, pos, class) - 1]),
    decreases src.len() - pos,
{
    lemma_skip_while_bounds(src, pos, class);
    if pos < src.len() && class.has(src[pos]) {
        lemma_skip_while_ends(src, pos + 1, class);
        lemma_skip_while_bounds(src, pos + 1, class);
    }
}

} // verus!
