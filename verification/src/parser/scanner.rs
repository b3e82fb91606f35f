//! The lexical scanner: from source bytes to tokens with their leading trivia.
//!
//! Every byte of the text ends up in exactly one record: a token's own text
//! or one of the trivia in front of it. A line feed is a token only where it
//! ends a statement; inside parentheses and brackets, after a token that
//! cannot end a statement, and in front of an `else` inside braces it is
//! trivia.
use crate::parser::lexeme::{
    at_edge, byte_at, lemma_raw_lex_bounds, lemma_raw_lex_edge, lex_raw, peek, raw_lex, RawKind,
};
use crate::parser::token::{
    is_name_byte, is_space, lemma_skip_while_advances, scan_while, skip_while, ByteClass, Keyword,
    Punct, Token, TokenKind, Trivia, TriviaKind,
};
use vstd::prelude::*;
use vstd::utf8::{
    is_char_boundary, is_char_boundary_iff_not_is_continuation_byte,
    is_char_boundary_start_end_of_seq, length_of_first_scalar, pop_first_scalar, valid_utf8,
};

verus! {

/// An opening delimiter that has not been closed yet.
#[derive(Clone, Copy, Debug, PartialEq, Eq, Structural)]
pub enum Delim {
    Paren,
    /// The parenthesis after `if`, `for`, `while` or `function`.
    HeaderParen,
    Bracket,
    Brace,
}

/// What the scanner remembers of the tokens it has passed.
pub struct Context {
    /// The delimiters that are open, innermost last.
    pub stack: Seq<Delim>,
    /// The last token cannot end a statement, or there is none yet.
    pub cont: bool,
    /// Nothing but white space has been seen on the current line.
    pub blank: bool,
    /// The last token was `if`, `for`, `while` or `function`.
    pub header: bool,
}

/// A lexeme as the scanner files it.
#[derive(Clone, Copy, Debug, PartialEq, Eq, Structural)]
pub enum LexKind {
    Trivia(TriviaKind),
    Token(TokenKind),
}

pub struct Lexeme {
    pub kind: LexKind,
    pub end: int,
}

/// The result of a scan: tokens in source order, the last of them `Eof`, and
/// the trivia of all of them in source order.
pub struct Scanned {
    pub tokens: Vec<Token>,
    pub trivia: Vec<Trivia>,
}

pub struct ScanModel {
    pub tokens: Seq<Token>,
    pub trivia: Seq<Trivia>,
}

impl View for Scanned {
    type V = ScanModel;

    open spec fn view(&self) -> ScanModel {
        ScanModel { tokens: self.tokens@, trivia: self.trivia@ }
    }
}

pub open spec fn initial_context() -> Context {
    Context { stack: Seq::empty(), cont: true, blank: true, header: false }
}

/// The stack after a closing brace: everything down to and including the
/// innermost open brace is closed; without one, everything is.
pub open spec fn close_brace(stack: Seq<Delim>) -> Seq<Delim>
    decreases stack.len(),
{
    if stack.len() == 0 {
        stack
    } else if stack.last() == Delim::Brace {
        stack.drop_last()
    } else {
        close_brace(stack.drop_last())
    }
}

pub open spec fn stack_after(stack: Seq<Delim>, header: bool, kind: TokenKind) -> Seq<Delim> {
    match kind {
        TokenKind::Punct(Punct::LParen) => stack.push(
            if header {
                Delim::HeaderParen
            } else {
                Delim::Paren
            },
        ),
        TokenKind::Punct(Punct::LBracket) => stack.push(Delim::Bracket),
        TokenKind::Punct(Punct::LDoubleBracket) => stack.push(Delim::Bracket).push(Delim::Bracket),
        TokenKind::Punct(Punct::LBrace) => stack.push(Delim::Brace),
        TokenKind::Punct(Punct::RParen) => if stack.len() > 0 && (stack.last() == Delim::Paren
            || stack.last() == Delim::HeaderParen) {
            stack.drop_last()
        } else {
            stack
        },
        TokenKind::Punct(Punct::RBracket) => if stack.len() > 0 && stack.last() == Delim::Bracket {
            stack.drop_last()
        } else {
            stack
        },
        TokenKind::Punct(Punct::RBrace) => close_brace(stack),
        _ => stack,
    }
}

/// Whether a statement cannot end right after a token of this kind, met with
/// `stack` open: after an operator, an opening delimiter, a separator, a word
/// that wants something after it, and the parenthesis that closes a header.
pub open spec fn continues(stack: Seq<Delim>, kind: TokenKind) -> bool {
    match kind {
        TokenKind::Operator(_) => true,
        TokenKind::Newline => true,
        TokenKind::Punct(p) => match p {
            Punct::RParen => stack.len() > 0 && stack.last() == Delim::HeaderParen,
            Punct::RBracket => false,
            Punct::RBrace => false,
            _ => true,
        },
        TokenKind::Keyword(k) => match k {
            Keyword::If => true,
            Keyword::Else => true,
            Keyword::For => true,
            Keyword::While => true,
            Keyword::Repeat => true,
            Keyword::Function => true,
            _ => false,
        },
        _ => false,
    }
}

pub open spec fn opens_header(kind: TokenKind) -> bool {
    kind == TokenKind::Keyword(Keyword::If) || kind == TokenKind::Keyword(Keyword::For) || kind
        == TokenKind::Keyword(Keyword::While) || kind == TokenKind::Keyword(Keyword::Function)
}

/// The first offset from `pos` on that holds neither white space, a line
/// feed, nor a comment.
pub open spec fn skip_blank(src: Seq<u8>, pos: int) -> int
    decreases src.len() - pos,
{
    if !(0 <= pos < src.len()) {
        pos
    } else if src[pos] == ('\n' as u8) || is_space(src[pos]) {
        skip_blank(src, pos + 1)
    } else if src[pos] == ('#' as u8) {
        let e = skip_while(src, pos, ByteClass::InLine);
        if pos < e <= src.len() {
            skip_blank(src, e)
        } else {
            pos
        }
    } else {
        pos
    }
}

/// Whether the next text after `pos` that is not trivia is the word `else`.
pub open spec fn else_follows(src: Seq<u8>, pos: int) -> bool {
    let p = skip_blank(src, pos);
    byte_at(src, p) == ('e' as u8) && byte_at(src, p + 1) == ('l' as u8) && byte_at(src, p + 2) == (
    's' as u8) && byte_at(src, p + 3) == ('e' as u8) && !is_name_byte(byte_at(src, p + 4))
}

/// Whether the line feed that ends at `after` ends a statement.
pub open spec fn break_ends_statement(src: Seq<u8>, after: int, ctx: Context) -> bool {
    !ctx.cont && (ctx.stack.len() == 0 || (ctx.stack.last() == Delim::Brace && !else_follows(
        src,
        after,
    )))
}

/// The lexeme at `pos` as the scanner files it in context `ctx`.
pub open spec fn classify(src: Seq<u8>, pos: int, ctx: Context) -> Lexeme {
    let raw = raw_lex(src, pos);
    Lexeme {
        kind: match raw.kind {
            RawKind::Space => LexKind::Trivia(TriviaKind::Whitespace),
            RawKind::LineComment => LexKind::Trivia(TriviaKind::LineComment),
            RawKind::DocComment => LexKind::Trivia(TriviaKind::DocComment),
            RawKind::Break => if break_ends_statement(src, raw.end, ctx) {
                LexKind::Token(TokenKind::Newline)
            } else if ctx.blank {
                LexKind::Trivia(TriviaKind::BlankLine)
            } else {
                LexKind::Trivia(TriviaKind::LineBreak)
            },
            RawKind::Token(k) => LexKind::Token(k),
        },
        end: raw.end,
    }
}

pub open spec fn context_after(ctx: Context, kind: LexKind) -> Context {
    match kind {
        LexKind::Trivia(TriviaKind::Whitespace) => ctx,
        LexKind::Trivia(TriviaKind::LineComment) => Context { blank: false, ..ctx },
        LexKind::Trivia(TriviaKind::DocComment) => Context { blank: false, ..ctx },
        LexKind::Trivia(TriviaKind::BlankLine) => Context { blank: true, ..ctx },
        LexKind::Trivia(TriviaKind::LineBreak) => Context { blank: true, ..ctx },
        LexKind::Token(k) => Context {
            stack: stack_after(ctx.stack, ctx.header, k),
            cont: continues(ctx.stack, k),
            blank: k == TokenKind::Newline,
            header: opens_header(k),
        },
    }
}

/// The number of line feeds in front of `pos`.
pub open spec fn line_of(src: Seq<u8>, pos: int) -> int
    decreases pos,
{
    if pos <= 0 || pos > src.len() {
        0
    } else if src[pos - 1] == ('\n' as u8) {
        line_of(src, pos - 1) + 1
    } else {
        line_of(src, pos - 1)
    }
}

/// The number of bytes between `pos` and the start of its line.
pub open spec fn column_of(src: Seq<u8>, pos: int) -> int
    decreases pos,
{
    if pos <= 0 || pos > src.len() || src[pos - 1] == ('\n' as u8) {
        0
    } else {
        column_of(src, pos - 1) + 1
    }
}

impl ScanModel {
    pub open spec fn empty() -> ScanModel {
        ScanModel { tokens: Seq::empty(), trivia: Seq::empty() }
    }

    /// The index of the first trivia record that no token owns yet.
    pub open spec fn pending_from(self) -> int {
        if self.tokens.len() == 0 {
            0
        } else {
            self.tokens.last().trivia_to as int
        }
    }

    pub open spec fn with_trivia(self, kind: TriviaKind, start: int, end: int) -> ScanModel {
        ScanModel {
            tokens: self.tokens,
            trivia: self.trivia.push(Trivia { kind, start: start as usize, end: end as usize }),
        }
    }

    /// The scan with one more token, which takes the pending trivia.
    pub open spec fn with_token(
        self,
        src: Seq<u8>,
        kind: TokenKind,
        lead: int,
        start: int,
        end: int,
    ) -> ScanModel {
        ScanModel {
            tokens: self.tokens.push(
                Token {
                    kind,
                    lead: lead as usize,
                    start: start as usize,
                    end: end as usize,
                    line: line_of(src, start) as usize,
                    column: column_of(src, start) as usize,
                    trivia_from: self.pending_from() as usize,
                    trivia_to: self.trivia.len() as usize,
                },
            ),
            trivia: self.trivia,
        }
    }
}

/// The scan of the text from `pos` on, in context `ctx`, added to `acc`.
/// `lead` is where the trivia that wait for their token begin.
pub open spec fn scan_from(src: Seq<u8>, pos: int, ctx: Context, lead: int, acc: ScanModel) -> ScanModel
    decreases src.len() - pos,
{
    if !(0 <= pos < src.len()) {
        acc.with_token(src, TokenKind::Eof, lead, src.len() as int, src.len() as int)
    } else {
        let lx = classify(src, pos, ctx);
        if !(pos < lx.end <= src.len()) {
            acc
        } else {
            match lx.kind {
                LexKind::Trivia(k) => scan_from(
                    src,
                    lx.end,
                    context_after(ctx, lx.kind),
                    lead,
                    acc.with_trivia(k, pos, lx.end),
                ),
                LexKind::Token(k) => scan_from(
                    src,
                    lx.end,
                    context_after(ctx, lx.kind),
                    lx.end,
                    acc.with_token(src, k, lead, pos, lx.end),
                ),
            }
        }
    }
}

/// The tokens and trivia of a whole text.
pub open spec fn scan_model(src: Seq<u8>) -> ScanModel {
    scan_from(src, 0, initial_context(), 0, ScanModel::empty())
}

/// Trivia record `j` ends where the next one starts.
pub open spec fn trivia_joined(trivia: Seq<Trivia>, j: int) -> bool {
    trivia[j].end == trivia[j + 1].start
}

/// The trivia records `from..to` lie end to end and cover exactly `[lo, hi)`;
/// none of them is empty.
pub open spec fn trivia_tile(trivia: Seq<Trivia>, from: int, to: int, lo: int, hi: int) -> bool {
    &&& 0 <= from <= to <= trivia.len()
    &&& from == to ==> lo == hi
    &&& from < to ==> trivia[from].start == lo && trivia[to - 1].end == hi
    &&& forall|j: int| from <= j < to ==> (#[trigger] trivia[j]).start < trivia[j].end
    &&& forall|j: int| from <= j < to - 1 ==> #[trigger] trivia_joined(trivia, j)
}

impl ScanModel {
    /// Token `i` starts where the one before it ends, its trivia follow those
    /// of the one before it and cover exactly `[lead, start)`.
    pub open spec fn token_ok(self, i: int) -> bool {
        let t = self.tokens[i];
        &&& t.lead <= t.start <= t.end
        &&& t.lead == if i == 0 {
            0
        } else {
            self.tokens[i - 1].end as int
        }
        &&& t.trivia_from == if i == 0 {
            0
        } else {
            self.tokens[i - 1].trivia_to as int
        }
        &&& trivia_tile(self.trivia, t.trivia_from as int, t.trivia_to as int, t.lead as int, t.start as int)
    }

    /// The tokens so far cover `[0, lead)`, none of them is empty or `Eof`,
    /// and the trivia that wait for their token cover `[lead, pos)`.
    pub open spec fn wf_upto(self, lead: int, pos: int) -> bool {
        &&& forall|i: int| 0 <= i < self.tokens.len() ==> #[trigger] self.token_ok(i)
        &&& forall|i: int|
            0 <= i < self.tokens.len() ==> (#[trigger] self.tokens[i]).kind != TokenKind::Eof
                && self.tokens[i].start < self.tokens[i].end
        &&& lead == if self.tokens.len() == 0 {
            0
        } else {
            self.tokens.last().end as int
        }
        &&& trivia_tile(self.trivia, self.pending_from(), self.trivia.len() as int, lead, pos)
    }

    /// The scan is complete for a text of `len` bytes: tokens and trivia lie
    /// end to end from 0 to `len`, every trivia record belongs to one token,
    /// and the one `Eof` token is the last, empty, at `len`.
    pub open spec fn wf(self, len: int) -> bool {
        &&& self.tokens.len() > 0
        &&& forall|i: int| 0 <= i < self.tokens.len() ==> #[trigger] self.token_ok(i)
        &&& forall|i: int|
            0 <= i < self.tokens.len() - 1 ==> (#[trigger] self.tokens[i]).kind != TokenKind::Eof
                && self.tokens[i].start < self.tokens[i].end
        &&& self.tokens.last().kind == TokenKind::Eof
        &&& self.tokens.last().start == len
        &&& self.tokens.last().end == len
        &&& self.tokens.last().trivia_to == self.trivia.len()
    }
}

proof fn lemma_push_trivia(m: ScanModel, lead: int, pos: int, kind: TriviaKind, end: int)
    requires
        m.wf_upto(lead, pos),
        0 <= pos < end <= usize::MAX,
    ensures
        m.with_trivia(kind, pos, end).wf_upto(lead, end),
        m.with_trivia(kind, pos, end).pending_from() == m.pending_from(),
{
    let m2 = m.with_trivia(kind, pos, end);
    assert(forall|j: int| 0 <= j < m.trivia.len() ==> m2.trivia[j] == m.trivia[j]);
    assert forall|i: int| 0 <= i < m2.tokens.len() implies #[trigger] m2.token_ok(i) by {
        assert(m.token_ok(i));
        let t = m.tokens[i];
        assert forall|j: int| t.trivia_from <= j < t.trivia_to - 1 implies #[trigger] trivia_joined(
            m2.trivia,
            j,
        ) by {
            assert(trivia_joined(m.trivia, j));
        }
    }
    let from = m.pending_from();
    let to = m.trivia.len() as int;
    assert forall|j: int| from <= j < to + 1 - 1 implies #[trigger] trivia_joined(m2.trivia, j) by {
        if j < to - 1 {
            assert(trivia_joined(m.trivia, j));
        }
    }
}

proof fn lemma_push_token(m: ScanModel, src: Seq<u8>, kind: TokenKind, lead: int, pos: int, end: int)
    requires
        m.wf_upto(lead, pos),
        m.trivia.len() <= usize::MAX,
        0 <= lead <= pos < end <= usize::MAX,
        kind != TokenKind::Eof,
    ensures
        m.with_token(src, kind, lead, pos, end).wf_upto(end, end),
        m.with_token(src, kind, lead, pos, end).pending_from() == m.trivia.len(),
{
    let m2 = m.with_token(src, kind, lead, pos, end);
    assert forall|i: int| 0 <= i < m2.tokens.len() implies #[trigger] m2.token_ok(i) by {
        if i < m.tokens.len() {
            assert(m.token_ok(i));
        }
    }
}

proof fn lemma_push_eof(m: ScanModel, src: Seq<u8>, lead: int)
    requires
        m.wf_upto(lead, src.len() as int),
        m.trivia.len() <= usize::MAX,
        0 <= lead <= src.len() <= usize::MAX,
    ensures
        m.with_token(src, TokenKind::Eof, lead, src.len() as int, src.len() as int).wf(
            src.len() as int,
        ),
{
    let n = src.len() as int;
    let m2 = m.with_token(src, TokenKind::Eof, lead, n, n);
    assert forall|i: int| 0 <= i < m2.tokens.len() implies #[trigger] m2.token_ok(i) by {
        if i < m.tokens.len() {
            assert(m.token_ok(i));
        }
    }
    assert forall|i: int| 0 <= i < m2.tokens.len() - 1 implies (#[trigger] m2.tokens[i]).kind
        != TokenKind::Eof && m2.tokens[i].start < m2.tokens[i].end by {
        assert(m2.tokens[i] == m.tokens[i]);
    }
}

fn scan_blank(src: &[u8], pos: usize) -> (p: usize)
    requires
        pos <= src.len(),
    ensures
        p == skip_blank(src@, pos as int),
        pos <= p <= src.len(),
{
    let n = src.len();
    let mut p: usize = pos;
    loop
        invariant
            n == src.len(),
            pos <= p <= n,
            skip_blank(src@, pos as int) == skip_blank(src@, p as int),
        decreases n - p,
    {
        if p >= n {
            return p;
        }
        let c = src[p];
        if c == ('\n' as u8) || ByteClass::Space.contains(c) {
            p += 1;
        } else if c == ('#' as u8) {
            proof {
                lemma_skip_while_advances(src@, p as int, ByteClass::InLine);
            }
            p = scan_while(src, p, ByteClass::InLine);
        } else {
            return p;
        }
    }
}

fn find_else(src: &[u8], pos: usize) -> (r: bool)
    requires
        pos <= src.len(),
    ensures
        r == else_follows(src@, pos as int),
{
    let p = scan_blank(src, pos);
    peek(src, p, 0) == ('e' as u8) && peek(src, p, 1) == ('l' as u8) && peek(src, p, 2) == (
    's' as u8) && peek(src, p, 3) == ('e' as u8) && !ByteClass::Name.contains(peek(src, p, 4))
}

fn update_stack(stack: &mut Vec<Delim>, header: bool, kind: TokenKind)
    ensures
        final(stack)@ == stack_after(old(stack)@, header, kind),
{
    match kind {
        TokenKind::Punct(Punct::LParen) => {
            if header {
                stack.push(Delim::HeaderParen);
            } else {
                stack.push(Delim::Paren);
            }
        },
        TokenKind::Punct(Punct::LBracket) => {
            stack.push(Delim::Bracket);
        },
        TokenKind::Punct(Punct::LDoubleBracket) => {
            stack.push(Delim::Bracket);
            stack.push(Delim::Bracket);
        },
        TokenKind::Punct(Punct::LBrace) => {
            stack.push(Delim::Brace);
        },
        TokenKind::Punct(Punct::RParen) => {
            let n = stack.len();
            if n > 0 && (stack[n - 1] == Delim::Paren || stack[n - 1] == Delim::HeaderParen) {
                stack.pop();
            }
        },
        TokenKind::Punct(Punct::RBracket) => {
            let n = stack.len();
            if n > 0 && stack[n - 1] == Delim::Bracket {
                stack.pop();
            }
        },
        TokenKind::Punct(Punct::RBrace) => {
            loop
                invariant_except_break
                    close_brace(stack@) == close_brace(old(stack)@),
                ensures
                    stack@ == close_brace(old(stack)@),
                decreases stack.len(),
            {
                match stack.pop() {
                    None => {
                        break ;
                    },
                    Some(d) => {
                        if d == Delim::Brace {
                            break ;
                        }
                    },
                }
            }
        },
        _ => {},
    }
}

fn is_continuation(stack: &Vec<Delim>, kind: TokenKind) -> (r: bool)
    ensures
        r == continues(stack@, kind),
{
    match kind {
        TokenKind::Operator(_) => true,
        TokenKind::Newline => true,
        TokenKind::Punct(p) => match p {
            Punct::RParen => stack.len() > 0 && stack[stack.len() - 1] == Delim::HeaderParen,
            Punct::RBracket => false,
            Punct::RBrace => false,
            _ => true,
        },
        TokenKind::Keyword(k) => match k {
            Keyword::If => true,
            Keyword::Else => true,
            Keyword::For => true,
            Keyword::While => true,
            Keyword::Repeat => true,
            Keyword::Function => true,
            _ => false,
        },
        _ => false,
    }
}

fn is_header(kind: TokenKind) -> (r: bool)
    ensures
        r == opens_header(kind),
{
    match kind {
        TokenKind::Keyword(Keyword::If) => true,
        TokenKind::Keyword(Keyword::For) => true,
        TokenKind::Keyword(Keyword::While) => true,
        TokenKind::Keyword(Keyword::Function) => true,
        _ => false,
    }
}

/// Line and column of `to`, from those of `from`.
fn advance(src: &[u8], from: usize, to: usize, line: usize, column: usize) -> (r: (usize, usize))
    requires
        from <= to <= src.len(),
        line == line_of(src@, from as int),
        column == column_of(src@, from as int),
        line <= from,
        column <= from,
    ensures
        r.0 == line_of(src@, to as int),
        r.1 == column_of(src@, to as int),
        r.0 <= to,
        r.1 <= to,
{
    let mut i: usize = from;
    let mut l: usize = line;
    let mut c: usize = column;
    while i < to
        invariant
            from <= i <= to <= src.len(),
            l == line_of(src@, i as int),
            c == column_of(src@, i as int),
            l <= i,
            c <= i,
        decreases to - i,
    {
        if src[i] == ('\n' as u8) {
            l += 1;
            c = 0;
        } else {
            c += 1;
        }
        i += 1;
    }
    (l, c)
}

/// The trivia in front of token `i` of a scan.
pub open spec fn leading_trivia_of(scan: ScanModel, i: int) -> Seq<Trivia> {
    if 0 <= i < scan.tokens.len() && scan.tokens[i].trivia_from <= scan.tokens[i].trivia_to
        <= scan.trivia.len() {
        scan.trivia.subrange(scan.tokens[i].trivia_from as int, scan.tokens[i].trivia_to as int)
    } else {
        Seq::empty()
    }
}

/// A scan only grows: what has been filed stays as it is, and at least the
/// `Eof` token is still to come.
pub proof fn lemma_scan_from_extends(src: Seq<u8>, pos: int, ctx: Context, lead: int, acc: ScanModel)
    ensures
        acc.tokens.len() <= scan_from(src, pos, ctx, lead, acc).tokens.len(),
        acc.trivia.len() <= scan_from(src, pos, ctx, lead, acc).trivia.len(),
        scan_from(src, pos, ctx, lead, acc).tokens.subrange(0, acc.tokens.len() as int)
            == acc.tokens,
        scan_from(src, pos, ctx, lead, acc).trivia.subrange(0, acc.trivia.len() as int)
            == acc.trivia,
    decreases src.len() - pos,
{
    let r = scan_from(src, pos, ctx, lead, acc);
    if !(0 <= pos < src.len()) {
        assert(r.tokens.subrange(0, acc.tokens.len() as int) =~= acc.tokens);
        assert(r.trivia.subrange(0, acc.trivia.len() as int) =~= acc.trivia);
    } else {
        let lx = classify(src, pos, ctx);
        if !(pos < lx.end <= src.len()) {
            assert(r.tokens.subrange(0, acc.tokens.len() as int) =~= acc.tokens);
            assert(r.trivia.subrange(0, acc.trivia.len() as int) =~= acc.trivia);
        } else {
            let next = match lx.kind {
                LexKind::Trivia(k) => acc.with_trivia(k, pos, lx.end),
                LexKind::Token(k) => acc.with_token(src, k, lead, pos, lx.end),
            };
            let next_lead = match lx.kind {
                LexKind::Trivia(k) => lead,
                LexKind::Token(k) => lx.end,
            };
            lemma_scan_from_extends(src, lx.end, context_after(ctx, lx.kind), next_lead, next);
            assert(r.tokens.subrange(0, acc.tokens.len() as int) =~= r.tokens.subrange(
                0,
                next.tokens.len() as int,
            ).subrange(0, acc.tokens.len() as int));
            assert(r.trivia.subrange(0, acc.trivia.len() as int) =~= r.trivia.subrange(
                0,
                next.trivia.len() as int,
            ).subrange(0, acc.trivia.len() as int));
            assert(next.tokens.subrange(0, acc.tokens.len() as int) =~= acc.tokens);
            assert(next.trivia.subrange(0, acc.trivia.len() as int) =~= acc.trivia);
        }
    }
}

/// A scanner over one text. It hands out the tokens of the text one by one,
/// each with the trivia in front of it, and holds no more of the text's
/// tokens than the one it is working on. It goes through the text once, from
/// the start.
pub struct Scanner<'a> {
    src: &'a [u8],
    pos: usize,
    line: usize,
    column: usize,
    stack: Vec<Delim>,
    cont: bool,
    blank: bool,
    header: bool,
    trivia_count: usize,
    done: bool,
    acc: Ghost<ScanModel>,
}

impl<'a> Scanner<'a> {
    /// The text that the scanner goes through.
    pub closed spec fn text(&self) -> Seq<u8> {
        self.src@
    }

    /// The number of tokens handed out so far.
    pub closed spec fn produced(&self) -> nat {
        self.acc@.tokens.len()
    }

    pub closed spec fn context(&self) -> Context {
        Context { stack: self.stack@, cont: self.cont, blank: self.blank, header: self.header }
    }

    /// The scanner stands between two tokens of the scan of its text.
    pub closed spec fn wf(&self) -> bool {
        &&& self.pos <= self.src@.len()
        &&& self.line == line_of(self.src@, self.pos as int)
        &&& self.column == column_of(self.src@, self.pos as int)
        &&& self.line <= self.pos
        &&& self.column <= self.pos
        &&& self.trivia_count <= self.pos
        &&& self.acc@.trivia.len() == self.trivia_count
        &&& self.acc@.pending_from() == self.trivia_count
        &&& if self.done {
            self.acc@ == scan_model(self.src@)
        } else {
            scan_model(self.src@) == scan_from(
                self.src@,
                self.pos as int,
                self.context(),
                self.pos as int,
                self.acc@,
            )
        }
    }

    /// A scanner at the start of `src`.
    pub fn new(src: &'a [u8]) -> (s: Scanner<'a>)
        ensures
            s.wf(),
            s.text() == src@,
            s.produced() == 0,
    {
        Scanner {
            src,
            pos: 0,
            line: 0,
            column: 0,
            stack: Vec::new(),
            cont: true,
            blank: true,
            header: false,
            trivia_count: 0,
            done: false,
            acc: Ghost(ScanModel::empty()),
        }
    }

    /// The next token of the text with the trivia in front of it; nothing
    /// once `Eof` has been handed out.
    pub fn next_token(&mut self) -> (r: Option<(Token, Vec<Trivia>)>)
        requires
            old(self).wf(),
        ensures
            final(self).wf(),
            final(self).text() == old(self).text(),
            r.is_none() ==> old(self).produced() == scan_model(old(self).text()).tokens.len()
                && final(self).produced() == old(self).produced(),
            r.is_some() ==> old(self).produced() < scan_model(old(self).text()).tokens.len()
                && final(self).produced() == old(self).produced() + 1 && r.unwrap().0
                == scan_model(old(self).text()).tokens[old(self).produced() as int]
                && r.unwrap().1@ == leading_trivia_of(
                scan_model(old(self).text()),
                old(self).produced() as int,
            ),
    {
        if self.done {
            return None;
        }
        let src = self.src;
        let n = src.len();
        let lead = self.pos;
        let from = self.trivia_count;
        let ghost whole = scan_model(src@);
        let ghost first = self.acc@;
        let mut out: Vec<Trivia> = Vec::new();
        let mut found: Option<(TokenKind, usize)> = None;
        assert(self.acc@.trivia.subrange(from as int, self.acc@.trivia.len() as int) =~= out@);
        while self.pos < n
            invariant_except_break
                found.is_none(),
            invariant
                src == self.src,
                src == old(self).src,
                n == src.len(),
                !self.done,
                self.stack == old(self).stack,
                self.cont == old(self).cont,
                self.header == old(self).header,
                lead <= self.pos <= n,
                self.line == line_of(src@, self.pos as int),
                self.column == column_of(src@, self.pos as int),
                self.line <= self.pos,
                self.column <= self.pos,
                self.acc@.tokens == first.tokens,
                self.acc@.trivia.len() == from + out@.len(),
                self.acc@.trivia.len() <= self.pos,
                self.acc@.trivia.subrange(from as int, self.acc@.trivia.len() as int) == out@,
                self.acc@.pending_from() == from,
                whole == scan_model(src@),
                whole == scan_from(src@, self.pos as int, self.context(), lead as int, self.acc@),
            ensures
                found.is_some() ==> self.pos < n && classify(src@, self.pos as int, self.context())
                    == (Lexeme {
                    kind: LexKind::Token(found.unwrap().0),
                    end: found.unwrap().1 as int,
                }) && self.pos < found.unwrap().1 <= n,
                found.is_none() ==> self.pos == n,
            decreases n - self.pos,
        {
            let pos = self.pos;
            let (raw, end) = lex_raw(src, pos);
            let kind = match raw {
                RawKind::Space => LexKind::Trivia(TriviaKind::Whitespace),
                RawKind::LineComment => LexKind::Trivia(TriviaKind::LineComment),
                RawKind::DocComment => LexKind::Trivia(TriviaKind::DocComment),
                RawKind::Break => {
                    let ends = !self.cont && (self.stack.len() == 0 || (self.stack[self.stack.len()
                        - 1] == Delim::Brace && !find_else(src, end)));
                    if ends {
                        LexKind::Token(TokenKind::Newline)
                    } else if self.blank {
                        LexKind::Trivia(TriviaKind::BlankLine)
                    } else {
                        LexKind::Trivia(TriviaKind::LineBreak)
                    }
                },
                RawKind::Token(k) => LexKind::Token(k),
            };
            assert(kind == classify(src@, pos as int, self.context()).kind);
            assert(end == classify(src@, pos as int, self.context()).end);
            match kind {
                LexKind::Token(k) => {
                    found = Some((k, end));
                    break ;
                },
                LexKind::Trivia(k) => {
                    let ghost before = self.acc@;
                    out.push(Trivia { kind: k, start: pos, end });
                    self.blank = match k {
                        TriviaKind::Whitespace => self.blank,
                        TriviaKind::LineComment => false,
                        TriviaKind::DocComment => false,
                        TriviaKind::BlankLine => true,
                        TriviaKind::LineBreak => true,
                    };
                    self.acc = Ghost(before.with_trivia(k, pos as int, end as int));
                    let (l, c) = advance(src, pos, end, self.line, self.column);
                    self.line = l;
                    self.column = c;
                    self.pos = end;
                    assert(self.acc@.trivia.subrange(from as int, self.acc@.trivia.len() as int)
                        =~= out@);
                },
            }
        }
        let ghost before = self.acc@;
        let to = from + out.len();
        let pos = self.pos;
        match found {
            Some((k, end)) => {
                let token = Token {
                    kind: k,
                    lead,
                    start: pos,
                    end,
                    line: self.line,
                    column: self.column,
                    trivia_from: from,
                    trivia_to: to,
                };
                let next_cont = is_continuation(&self.stack, k);
                update_stack(&mut self.stack, self.header, k);
                self.cont = next_cont;
                self.blank = match k {
                    TokenKind::Newline => true,
                    _ => false,
                };
                self.header = is_header(k);
                let (l, c) = advance(src, pos, end, self.line, self.column);
                self.line = l;
                self.column = c;
                self.pos = end;
                self.trivia_count = to;
                self.acc = Ghost(before.with_token(src@, k, lead as int, pos as int, end as int));
                proof {
                    assert(self.acc@.tokens.last() == token);
                    lemma_scan_from_extends(
                        src@,
                        end as int,
                        self.context(),
                        end as int,
                        self.acc@,
                    );
                    let m = first.tokens.len() as int;
                    assert(whole.tokens.subrange(0, m + 1)[m] == token);
                    assert(whole.trivia.subrange(from as int, to as int) =~= whole.trivia.subrange(
                        0,
                        to as int,
                    ).subrange(from as int, to as int));
                }
                Some((token, out))
            },
            None => {
                let token = Token {
                    kind: TokenKind::Eof,
                    lead,
                    start: n,
                    end: n,
                    line: self.line,
                    column: self.column,
                    trivia_from: from,
                    trivia_to: to,
                };
                self.trivia_count = to;
                self.done = true;
                self.acc = Ghost(
                    before.with_token(src@, TokenKind::Eof, lead as int, n as int, n as int),
                );
                proof {
                    assert(self.acc@.tokens.last() == token);
                    assert(self.acc@ == whole);
                    assert(whole.trivia.subrange(from as int, to as int) =~= out@);
                }
                Some((token, out))
            },
        }
    }
}

/// In a complete scan the trivia of token `k` follow those of the token before
/// it, so that the trivia up to token `k` and its own are the trivia up to
/// the next.
proof fn lemma_trivia_follow(whole: ScanModel, len: int, k: int, had: Seq<Trivia>, lead: Seq<Trivia>)
    requires
        whole.wf(len),
        0 <= k < whole.tokens.len(),
        had == whole.trivia.subrange(
            0,
            if k == 0 {
                0
            } else {
                whole.tokens[k - 1].trivia_to as int
            },
        ),
        lead == leading_trivia_of(whole, k),
    ensures
        had + lead == whole.trivia.subrange(0, whole.tokens[k].trivia_to as int),
{
    assert(whole.token_ok(k));
    if k > 0 {
        assert(whole.token_ok(k - 1));
    }
    assert(had + lead =~= whole.trivia.subrange(0, whole.tokens[k].trivia_to as int));
}

/// Scans a whole text.
///
/// The result is the scan that `scan_model` defines. Tokens and trivia lie
/// end to end over the text, so that no byte is lost and none is read twice,
/// and what stands in front of a line end trails the line that it ends.
pub fn scan(src: &[u8]) -> (out: Scanned)
    ensures
        out@ == scan_model(src@),
        out@.wf(src@.len() as int),
        line_ends_trail(out@),
{
    let ghost whole = scan_model(src@);
    proof {
        assert(src@.len() == src.len());
        lemma_scan_wf(src@);
        lemma_line_ends_trail(src@);
    }
    let mut scanner = Scanner::new(src);
    let mut tokens: Vec<Token> = Vec::new();
    let mut trivia: Vec<Trivia> = Vec::new();
    assert(tokens@ =~= whole.tokens.subrange(0, 0));
    assert(trivia@ =~= whole.trivia.subrange(0, 0));
    loop
        invariant_except_break
            scanner.produced() == tokens@.len(),
        invariant
            whole == scan_model(src@),
            whole.wf(src@.len() as int),
            scanner.wf(),
            scanner.text() == src@,
            tokens@.len() <= whole.tokens.len(),
            tokens@ == whole.tokens.subrange(0, tokens@.len() as int),
            trivia@ == whole.trivia.subrange(
                0,
                if tokens@.len() == 0 {
                    0
                } else {
                    tokens@.last().trivia_to as int
                },
            ),
        ensures
            tokens@.len() == whole.tokens.len(),
        decreases whole.tokens.len() - tokens@.len(),
    {
        match scanner.next_token() {
            None => {
                break ;
            },
            Some((token, lead)) => {
                let ghost k = tokens@.len() as int;
                let mut lead = lead;
                proof {
                    if k > 0 {
                        assert(tokens@.last() == whole.tokens[k - 1]);
                    }
                    lemma_trivia_follow(whole, src@.len() as int, k, trivia@, lead@);
                }
                tokens.push(token);
                trivia.append(&mut lead);
                proof {
                    assert(tokens@ =~= whole.tokens.subrange(0, k + 1));
                }
            },
        }
    }
    proof {
        assert(tokens@ =~= whole.tokens);
        assert(whole.trivia.subrange(0, whole.trivia.len() as int) =~= whole.trivia);
    }
    Scanned { tokens, trivia }
}

/// The scan from a state in which tokens and trivia lie end to end up to
/// `pos` is complete.
pub proof fn lemma_scan_from_wf(src: Seq<u8>, pos: int, ctx: Context, lead: int, acc: ScanModel)
    requires
        src.len() <= usize::MAX,
        0 <= lead <= pos <= src.len(),
        acc.wf_upto(lead, pos),
        acc.trivia.len() <= pos,
    ensures
        scan_from(src, pos, ctx, lead, acc).wf(src.len() as int),
    decreases src.len() - pos,
{
    if pos < src.len() {
        lemma_raw_lex_bounds(src, pos);
        let lx = classify(src, pos, ctx);
        match lx.kind {
            LexKind::Trivia(k) => {
                lemma_push_trivia(acc, lead, pos, k, lx.end);
                lemma_scan_from_wf(
                    src,
                    lx.end,
                    context_after(ctx, lx.kind),
                    lead,
                    acc.with_trivia(k, pos, lx.end),
                );
            },
            LexKind::Token(k) => {
                lemma_push_token(acc, src, k, lead, pos, lx.end);
                lemma_scan_from_wf(
                    src,
                    lx.end,
                    context_after(ctx, lx.kind),
                    lx.end,
                    acc.with_token(src, k, lead, pos, lx.end),
                );
            },
        }
    } else {
        lemma_push_eof(acc, src, lead);
    }
}

/// The scan of a text is complete: its tokens and trivia lie end to end over
/// the whole text.
pub proof fn lemma_scan_wf(src: Seq<u8>)
    requires
        src.len() <= usize::MAX,
    ensures
        scan_model(src).wf(src.len() as int),
{
    lemma_scan_from_wf(src, 0, initial_context(), 0, ScanModel::empty());
}

pub open spec fn is_line_break(kind: TriviaKind) -> bool {
    kind == TriviaKind::BlankLine || kind == TriviaKind::LineBreak
}

/// None of the trivia records `from..to` is a line break.
pub open spec fn on_one_line(trivia: Seq<Trivia>, from: int, to: int) -> bool {
    forall|j: int| from <= j < to ==> !is_line_break((#[trigger] trivia[j]).kind)
}

/// What stands in front of the line end `i` stands on the line that it ends,
/// behind a token that is no line end itself.
pub open spec fn trails(scan: ScanModel, i: int) -> bool {
    &&& i > 0
    &&& scan.tokens[i - 1].kind != TokenKind::Newline
    &&& on_one_line(scan.trivia, scan.tokens[i].trivia_from as int, scan.tokens[i].trivia_to as int)
}

/// Every line end among the tokens has only what trails its own line in front
/// of it.
pub open spec fn line_ends_trail(scan: ScanModel) -> bool {
    forall|i: int|
        0 <= i < scan.tokens.len() && (#[trigger] scan.tokens[i]).kind == TokenKind::Newline
            ==> trails(scan, i)
}

/// A line feed at `pos` would end no statement in context `ctx`.
pub open spec fn muted(src: Seq<u8>, pos: int, ctx: Context) -> bool {
    ctx.cont || (ctx.stack.len() > 0 && (ctx.stack.last() != Delim::Brace || else_follows(src, pos)))
}

proof fn lemma_skip_blank_spaces(src: Seq<u8>, pos: int)
    requires
        0 <= pos <= src.len(),
    ensures
        skip_blank(src, pos) == skip_blank(src, skip_while(src, pos, ByteClass::Space)),
    decreases src.len() - pos,
{
    if pos < src.len() && is_space(src[pos]) {
        lemma_skip_blank_spaces(src, pos + 1);
    }
}

/// White space, comments and line feeds do not change what text comes next.
proof fn lemma_skip_blank_over_trivia(src: Seq<u8>, pos: int)
    requires
        0 <= pos < src.len(),
        !(raw_lex(src, pos).kind is Token),
    ensures
        skip_blank(src, pos) == skip_blank(src, raw_lex(src, pos).end),
{
    let c = src[pos];
    if c == ('\n' as u8) {
    } else if is_space(c) {
        lemma_skip_blank_spaces(src, pos);
    } else if c == ('#' as u8) {
        lemma_skip_while_advances(src, pos, ByteClass::InLine);
    } else {
    }
}

/// The state between two lexemes in which line ends trail: those filed so far
/// do, and where a line break waits for its token, or a line end or nothing
/// came last, the next line feed ends no statement.
spec fn trailing_so_far(src: Seq<u8>, pos: int, ctx: Context, acc: ScanModel) -> bool {
    &&& line_ends_trail(acc)
    &&& acc.pending_from() <= acc.trivia.len()
    &&& (acc.tokens.len() == 0 || acc.tokens.last().kind == TokenKind::Newline || !on_one_line(
        acc.trivia,
        acc.pending_from(),
        acc.trivia.len() as int,
    )) ==> muted(src, pos, ctx)
}

proof fn lemma_scan_from_trails(src: Seq<u8>, pos: int, ctx: Context, lead: int, acc: ScanModel)
    requires
        src.len() <= usize::MAX,
        0 <= lead <= pos <= src.len(),
        acc.trivia.len() <= pos,
        acc.wf_upto(lead, pos),
        trailing_so_far(src, pos, ctx, acc),
    ensures
        line_ends_trail(scan_from(src, pos, ctx, lead, acc)),
    decreases src.len() - pos,
{
    if pos < src.len() {
        lemma_raw_lex_bounds(src, pos);
        let lx = classify(src, pos, ctx);
        let next_ctx = context_after(ctx, lx.kind);
        match lx.kind {
            LexKind::Trivia(k) => {
                let next = acc.with_trivia(k, pos, lx.end);
                lemma_skip_blank_over_trivia(src, pos);
                lemma_push_trivia(acc, lead, pos, k, lx.end);
                assert(line_ends_trail(next)) by {
                    assert forall|i: int|
                        0 <= i < next.tokens.len() && (#[trigger] next.tokens[i]).kind
                            == TokenKind::Newline implies trails(next, i) by {
                        assert(trails(acc, i));
                        assert(acc.token_ok(i));
                    }
                }
                if !on_one_line(next.trivia, next.pending_from(), next.trivia.len() as int) {
                    if on_one_line(acc.trivia, acc.pending_from(), acc.trivia.len() as int) {
                        assert(is_line_break(k));
                    }
                }
                lemma_scan_from_trails(src, lx.end, next_ctx, lead, next);
            },
            LexKind::Token(k) => {
                let next = acc.with_token(src, k, lead, pos, lx.end);
                lemma_push_token(acc, src, k, lead, pos, lx.end);
                assert(line_ends_trail(next)) by {
                    assert forall|i: int|
                        0 <= i < next.tokens.len() && (#[trigger] next.tokens[i]).kind
                            == TokenKind::Newline implies trails(next, i) by {
                        if i < acc.tokens.len() {
                            assert(trails(acc, i));
                        }
                    }
                }
                assert(on_one_line(next.trivia, next.pending_from(), next.trivia.len() as int));
                lemma_scan_from_trails(src, lx.end, next_ctx, lx.end, next);
            },
        }
    } else {
        let next = acc.with_token(src, TokenKind::Eof, lead, src.len() as int, src.len() as int);
        assert forall|i: int|
            0 <= i < next.tokens.len() && (#[trigger] next.tokens[i]).kind
                == TokenKind::Newline implies trails(next, i) by {
            if i < acc.tokens.len() {
                assert(trails(acc, i));
            }
        }
    }
}

/// Trivia attachment: in the scan of a text, what stands in front of a line
/// end stands on the line that it ends, behind a token of that line. So a
/// comment on a line of its own leads the first token of what follows; it
/// never trails the statement before it.
pub proof fn lemma_line_ends_trail(src: Seq<u8>)
    requires
        src.len() <= usize::MAX,
    ensures
        line_ends_trail(scan_model(src)),
{
    lemma_scan_from_trails(src, 0, initial_context(), 0, ScanModel::empty());
}

/// Whether `e` is a place in the text that is its start or its end or lies
/// next to a byte below 128.
pub open spec fn edge_in(src: Seq<u8>, e: int) -> bool {
    0 <= e <= src.len() && at_edge(src, e)
}

/// Every token and every trivia record begins and ends at the start or the
/// end of the text or next to a byte below 128.
pub open spec fn on_edges(scan: ScanModel, src: Seq<u8>) -> bool {
    &&& forall|i: int|
        0 <= i < scan.tokens.len() ==> edge_in(src, (#[trigger] scan.tokens[i]).lead as int)
            && edge_in(src, scan.tokens[i].start as int) && edge_in(src, scan.tokens[i].end as int)
    &&& forall|j: int|
        0 <= j < scan.trivia.len() ==> edge_in(src, (#[trigger] scan.trivia[j]).start as int)
            && edge_in(src, scan.trivia[j].end as int)
}

/// Every token and every trivia record begins and ends between two
/// characters of the text.
pub open spec fn on_char_boundaries(scan: ScanModel, src: Seq<u8>) -> bool {
    &&& forall|i: int|
        0 <= i < scan.tokens.len() ==> is_char_boundary(src, (#[trigger] scan.tokens[i]).lead as int)
            && is_char_boundary(src, scan.tokens[i].start as int) && is_char_boundary(
            src,
            scan.tokens[i].end as int,
        )
    &&& forall|j: int|
        0 <= j < scan.trivia.len() ==> is_char_boundary(
            src,
            (#[trigger] scan.trivia[j]).start as int,
        ) && is_char_boundary(src, scan.trivia[j].end as int)
}

proof fn lemma_scan_from_edges(src: Seq<u8>, pos: int, ctx: Context, lead: int, acc: ScanModel)
    requires
        src.len() <= usize::MAX,
        0 <= lead <= pos <= src.len(),
        at_edge(src, lead),
        at_edge(src, pos),
        on_edges(acc, src),
    ensures
        on_edges(scan_from(src, pos, ctx, lead, acc), src),
    decreases src.len() - pos,
{
    if pos < src.len() {
        lemma_raw_lex_bounds(src, pos);
        lemma_raw_lex_edge(src, pos);
        let lx = classify(src, pos, ctx);
        match lx.kind {
            LexKind::Trivia(k) => {
                let next = acc.with_trivia(k, pos, lx.end);
                assert forall|j: int| 0 <= j < next.trivia.len() implies edge_in(
                    src,
                    (#[trigger] next.trivia[j]).start as int,
                ) && edge_in(src, next.trivia[j].end as int) by {
                    if j < acc.trivia.len() {
                        assert(next.trivia[j] == acc.trivia[j]);
                    }
                }
                lemma_scan_from_edges(src, lx.end, context_after(ctx, lx.kind), lead, next);
            },
            LexKind::Token(k) => {
                let next = acc.with_token(src, k, lead, pos, lx.end);
                assert forall|i: int| 0 <= i < next.tokens.len() implies edge_in(
                    src,
                    (#[trigger] next.tokens[i]).lead as int,
                ) && edge_in(src, next.tokens[i].start as int) && edge_in(
                    src,
                    next.tokens[i].end as int,
                ) by {
                    if i < acc.tokens.len() {
                        assert(next.tokens[i] == acc.tokens[i]);
                    }
                }
                lemma_scan_from_edges(src, lx.end, context_after(ctx, lx.kind), lx.end, next);
            },
        }
    } else {
        let next = acc.with_token(src, TokenKind::Eof, lead, src.len() as int, src.len() as int);
        assert forall|i: int| 0 <= i < next.tokens.len() implies edge_in(
            src,
            (#[trigger] next.tokens[i]).lead as int,
        ) && edge_in(src, next.tokens[i].start as int) && edge_in(src, next.tokens[i].end as int) by {
            if i < acc.tokens.len() {
                assert(next.tokens[i] == acc.tokens[i]);
            }
        }
    }
}

/// In well-formed UTF-8 the place behind a byte below 128 is the start of a
/// character.
proof fn lemma_boundary_after_ascii(bytes: Seq<u8>, i: int)
    requires
        valid_utf8(bytes),
        0 <= i < bytes.len(),
        bytes[i] < 128,
        is_char_boundary(bytes, i),
    ensures
        is_char_boundary(bytes, i + 1),
    decreases bytes.len(),
{
    reveal_with_fuel(is_char_boundary, 2);
    reveal_with_fuel(valid_utf8, 2);
    let width = length_of_first_scalar(bytes);
    let rest = pop_first_scalar(bytes);
    if i > 0 {
        assert(rest[i - width] == bytes[i]);
        lemma_boundary_after_ascii(rest, i - width);
    }
}

/// In well-formed UTF-8 a place at the start or the end of the text or next
/// to a byte below 128 lies between two characters.
pub proof fn lemma_edge_is_boundary(src: Seq<u8>, e: int)
    requires
        valid_utf8(src),
        0 <= e <= src.len(),
        at_edge(src, e),
    ensures
        is_char_boundary(src, e),
{
    is_char_boundary_start_end_of_seq(src);
    if 0 < e < src.len() {
        if src[e] < 128 {
            is_char_boundary_iff_not_is_continuation_byte(src, e);
        } else {
            is_char_boundary_iff_not_is_continuation_byte(src, e - 1);
            lemma_boundary_after_ascii(src, e - 1);
        }
    }
}

/// Every token and every trivia record of a scan begins and ends next to a
/// byte below 128, or where the text does.
pub proof fn lemma_scan_on_edges(src: Seq<u8>)
    requires
        src.len() <= usize::MAX,
    ensures
        on_edges(scan_model(src), src),
{
    lemma_scan_from_edges(src, 0, initial_context(), 0, ScanModel::empty());
}

/// Characters stay whole: in the scan of a text of well-formed UTF-8 every
/// token and every trivia record begins and ends between two characters.
pub proof fn lemma_scan_on_char_boundaries(src: Seq<u8>)
    requires
        src.len() <= usize::MAX,
        valid_utf8(src),
    ensures
        on_char_boundaries(scan_model(src), src),
{
    lemma_scan_on_edges(src);
    let scan = scan_model(src);
    assert forall|i: int| 0 <= i < scan.tokens.len() implies is_char_boundary(
        src,
        (#[trigger] scan.tokens[i]).lead as int,
    ) && is_char_boundary(src, scan.tokens[i].start as int) && is_char_boundary(
        src,
        scan.tokens[i].end as int,
    ) by {
        lemma_edge_is_boundary(src, scan.tokens[i].lead as int);
        lemma_edge_is_boundary(src, scan.tokens[i].start as int);
        lemma_edge_is_boundary(src, scan.tokens[i].end as int);
    }
    assert forall|j: int| 0 <= j < scan.trivia.len() implies is_char_boundary(
        src,
        (#[trigger] scan.trivia[j]).start as int,
    ) && is_char_boundary(src, scan.trivia[j].end as int) by {
        lemma_edge_is_boundary(src, scan.trivia[j].start as int);
        lemma_edge_is_boundary(src, scan.trivia[j].end as int);
    }
}

} // verus!
