//! The grammar: what the parse of a sequence of tokens is.
//!
//! Each rule reads tokens from a cursor on and yields a node and the cursor
//! behind it. A rule never fails: where something is missing it yields a
//! `Missing` node of no width and records a diagnostic, so that the rules
//! around it go on. Rules that nest take a depth and give up at depth zero.
use crate::parser::diagnostic::{Diagnostic, DiagnosticKind, Severity};
use crate::parser::operators::{line_of_operator, RESOLVED_LEN};
use crate::parser::pratt::{
    alternates, obeys_table, pratt_shape, resolver_ops, shape_codes, Shape, OPERAND,
};
use crate::parser::token::{Keyword, Operator, Punct, Token, TokenKind};
use crate::parser::tree::{binary_of, clashes, line_tier, unary_of, NodeKind, NodeModel};
use vstd::prelude::*;

verus! {

/// Where the parser stands: the next token, whether the statement at hand is
/// sound so far, and the diagnostics recorded so far.
pub struct CursorModel {
    pub next: int,
    pub ok: bool,
    pub diags: Seq<Diagnostic>,
}

/// Nodes gathered for a parent, and the cursor behind them.
pub struct ListModel {
    pub items: Seq<NodeModel>,
    pub cur: CursorModel,
}

/// One item of a flat run: an operand, or an operator token with its line in
/// the operator table.
pub enum ItemModel {
    Operand(NodeModel),
    Operator { token: int, line: int },
}

/// A flat run of operands and operators, and the cursor behind it.
pub struct RunModel {
    pub items: Seq<ItemModel>,
    pub cur: CursorModel,
}

/// The kind of token `i`; `Eof` outside the sequence.
pub open spec fn kind_at(tokens: Seq<Token>, i: int) -> TokenKind {
    if 0 <= i < tokens.len() {
        tokens[i].kind
    } else {
        TokenKind::Eof
    }
}

/// The kind of the leaf that stands for a token.
pub open spec fn leaf_kind(kind: TokenKind) -> NodeKind {
    match kind {
        TokenKind::Number => NodeKind::Literal,
        TokenKind::String => NodeKind::Literal,
        TokenKind::Identifier => NodeKind::Symbol,
        TokenKind::Keyword(Keyword::True) => NodeKind::Literal,
        TokenKind::Keyword(Keyword::False) => NodeKind::Literal,
        TokenKind::Keyword(Keyword::Null) => NodeKind::Literal,
        TokenKind::Keyword(Keyword::Na) => NodeKind::Literal,
        TokenKind::Keyword(Keyword::NaInteger) => NodeKind::Literal,
        TokenKind::Keyword(Keyword::NaReal) => NodeKind::Literal,
        TokenKind::Keyword(Keyword::NaCharacter) => NodeKind::Literal,
        TokenKind::Keyword(Keyword::Inf) => NodeKind::Literal,
        TokenKind::Keyword(Keyword::NaN) => NodeKind::Literal,
        TokenKind::Keyword(Keyword::Break) => NodeKind::Break,
        TokenKind::Keyword(Keyword::Next) => NodeKind::Next,
        TokenKind::Error(_) => NodeKind::Error,
        _ => NodeKind::Token,
    }
}

/// Whether a token of this kind is an operand by itself.
pub open spec fn is_atom(kind: TokenKind) -> bool {
    leaf_kind(kind) != NodeKind::Token
}

/// Whether a token of this kind opens an operand that nests.
pub open spec fn opens_construct(kind: TokenKind) -> bool {
    kind == TokenKind::Punct(Punct::LParen) || kind == TokenKind::Punct(Punct::LBrace) || kind
        == TokenKind::Keyword(Keyword::If) || kind == TokenKind::Keyword(Keyword::For) || kind
        == TokenKind::Keyword(Keyword::While) || kind == TokenKind::Keyword(Keyword::Repeat)
        || kind == TokenKind::Keyword(Keyword::Function)
}

/// Whether a statement may end in front of a token of this kind.
pub open spec fn ends_statement(kind: TokenKind, in_block: bool) -> bool {
    kind == TokenKind::Eof || kind == TokenKind::Newline || kind == TokenKind::Punct(
        Punct::Semicolon,
    ) || (in_block && kind == TokenKind::Punct(Punct::RBrace))
}

/// Whether a list of arguments ends in front of a token of this kind.
pub open spec fn ends_list(kind: TokenKind) -> bool {
    kind == TokenKind::Eof || kind == TokenKind::Newline || kind == TokenKind::Punct(
        Punct::Semicolon,
    ) || kind == TokenKind::Punct(Punct::RParen) || kind == TokenKind::Punct(Punct::RBracket)
        || kind == TokenKind::Punct(Punct::RBrace)
}

/// A diagnostic on token `i`.
pub open spec fn diag_at(tokens: Seq<Token>, i: int, kind: DiagnosticKind) -> Diagnostic {
    if 0 <= i < tokens.len() {
        Diagnostic { start: tokens[i].start, end: tokens[i].end, severity: Severity::Error, kind }
    } else {
        Diagnostic { start: 0, end: 0, severity: Severity::Error, kind }
    }
}

/// The cursor after a diagnostic of `kind` on the next token: the statement is
/// no longer sound.
pub open spec fn report(tokens: Seq<Token>, cur: CursorModel, kind: DiagnosticKind) -> CursorModel {
    CursorModel { next: cur.next, ok: false, diags: cur.diags.push(diag_at(tokens, cur.next, kind)) }
}

pub open spec fn leaf(kind: NodeKind, i: int) -> NodeModel {
    NodeModel { kind, lo: i, hi: i + 1, children: Seq::empty() }
}

/// The next token as a leaf. A token that the scanner could not read is
/// reported.
pub open spec fn token_leaf(tokens: Seq<Token>, cur: CursorModel) -> (NodeModel, CursorModel) {
    let kind = kind_at(tokens, cur.next);
    let seen = match kind {
        TokenKind::Error(e) => report(tokens, cur, DiagnosticKind::Lexical(e)),
        _ => cur,
    };
    (leaf(leaf_kind(kind), cur.next), CursorModel { next: cur.next + 1, ..seen })
}

/// A node of no width where something had to stand, and the diagnostic for it.
pub open spec fn missing(tokens: Seq<Token>, cur: CursorModel, kind: DiagnosticKind) -> (
    NodeModel,
    CursorModel,
) {
    (
        NodeModel { kind: NodeKind::Missing, lo: cur.next, hi: cur.next, children: Seq::empty() },
        report(tokens, cur, kind),
    )
}

pub open spec fn list_at(cur: CursorModel) -> ListModel {
    ListModel { items: Seq::empty(), cur }
}

pub open spec fn append(l: ListModel, r: (NodeModel, CursorModel)) -> ListModel {
    ListModel { items: l.items.push(r.0), cur: r.1 }
}

/// The list with the next token as a leaf.
pub open spec fn take(tokens: Seq<Token>, l: ListModel) -> ListModel {
    append(l, token_leaf(tokens, l.cur))
}

/// The list with the delimiter `p`, which has to come next: as a leaf if it
/// does, as a `Missing` node with a diagnostic if it does not.
pub open spec fn expect(tokens: Seq<Token>, l: ListModel, p: Punct) -> ListModel {
    if kind_at(tokens, l.cur.next) == TokenKind::Punct(p) {
        take(tokens, l)
    } else {
        append(l, missing(tokens, l.cur, DiagnosticKind::Expected(p)))
    }
}

/// The parent of the nodes gathered from `lo` on.
pub open spec fn close(l: ListModel, kind: NodeKind, lo: int) -> (NodeModel, CursorModel) {
    (NodeModel { kind, lo, hi: l.cur.next, children: l.items }, l.cur)
}

/// The line of a prefix (`prefix`) or binary operator in the table, if the
/// next token is one.
pub open spec fn operator_line(kind: TokenKind, prefix: bool) -> Option<int> {
    match kind {
        TokenKind::Operator(o) => if line_of_operator(o, prefix, 0) < RESOLVED_LEN {
            Some(line_of_operator(o, prefix, 0))
        } else {
            None
        },
        _ => None,
    }
}

pub open spec fn is_access(kind: TokenKind) -> bool {
    kind == TokenKind::Operator(Operator::Dollar) || kind == TokenKind::Operator(Operator::At)
        || kind == TokenKind::Operator(Operator::DoubleColon) || kind == TokenKind::Operator(
        Operator::TripleColon,
    )
}

pub open spec fn opens_arguments(kind: TokenKind) -> bool {
    kind == TokenKind::Punct(Punct::LParen) || kind == TokenKind::Punct(Punct::LBracket) || kind
        == TokenKind::Punct(Punct::LDoubleBracket)
}

/// `object`, an access operator, and the name behind it.
pub open spec fn member(tokens: Seq<Token>, object: NodeModel, cur: CursorModel, lo: int) -> (
    NodeModel,
    CursorModel,
) {
    let l = take(tokens, ListModel { items: seq![object], cur });
    let kind = kind_at(tokens, l.cur.next);
    let named = if kind == TokenKind::Identifier || kind == TokenKind::String {
        take(tokens, l)
    } else {
        append(l, missing(tokens, l.cur, DiagnosticKind::ExpectedName))
    };
    close(named, NodeKind::Member, lo)
}

/// Whether an element of a parameter list is a name, or a name, `=` and a
/// default value.
pub open spec fn is_parameter(tokens: Seq<Token>, node: NodeModel) -> bool {
    node.kind == NodeKind::Symbol || (node.kind == NodeKind::Assignment && node.children.len() == 3
        && node.children[0].kind == NodeKind::Symbol && kind_at(tokens, node.children[1].lo)
        == TokenKind::Operator(Operator::EqAssign))
}

/// An element of a list as it enters the list: as it is in an argument list,
/// inside a `Parameter` node in a parameter list. What is no parameter is
/// reported and goes inside an `Error` node.
pub open spec fn element(tokens: Seq<Token>, r: (NodeModel, CursorModel), parameters: bool) -> (
    NodeModel,
    CursorModel,
) {
    if !parameters {
        r
    } else if is_parameter(tokens, r.0) {
        (NodeModel { kind: NodeKind::Parameter, lo: r.0.lo, hi: r.0.hi, children: seq![r.0] }, r.1)
    } else {
        (
            NodeModel { kind: NodeKind::Error, lo: r.0.lo, hi: r.0.hi, children: seq![r.0] },
            CursorModel {
                next: r.1.next,
                ok: false,
                diags: r.1.diags.push(diag_at(tokens, r.0.lo, DiagnosticKind::InvalidParameter)),
            },
        )
    }
}

pub open spec fn item_node(item: ItemModel) -> NodeModel {
    match item {
        ItemModel::Operand(n) => n,
        ItemModel::Operator { token, line } => leaf(NodeKind::Token, token),
    }
}

pub open spec fn item_code(item: ItemModel) -> u8 {
    match item {
        ItemModel::Operand(n) => OPERAND,
        ItemModel::Operator { token, line } => (line + 1) as u8,
    }
}

/// The numbers under which a run is handed to the precedence resolver.
pub open spec fn codes_of(items: Seq<ItemModel>) -> Seq<u8> {
    Seq::new(items.len(), |i: int| item_code(items[i]))
}

pub open spec fn item_nodes(items: Seq<ItemModel>) -> Seq<NodeModel> {
    Seq::new(items.len(), |i: int| item_node(items[i]))
}

/// The line of the operator table that an item stands for; `RESOLVED_LEN` for
/// an operand.
pub open spec fn item_line(item: ItemModel) -> int {
    match item {
        ItemModel::Operand(n) => RESOLVED_LEN as int,
        ItemModel::Operator { token, line } => line,
    }
}

/// A part of an expression that has been put together: its node, the index of
/// the run's item at which it starts, the tier of the binary operator at its
/// root (zero if there is none), and the cursor.
pub struct Assembled {
    pub node: NodeModel,
    pub start: int,
    pub tier: int,
    pub cur: CursorModel,
}

/// Puts the items in front of `end` together as `shape` says, from the right:
/// an operand is the item itself, a prefix operator stands over its operand,
/// a binary operator over both. A binary operator that does not associate is
/// not accepted over an operand of its own tier: the node is an `Error` and
/// a diagnostic says so.
pub open spec fn assemble(
    tokens: Seq<Token>,
    shape: Shape,
    items: Seq<ItemModel>,
    end: int,
    cur: CursorModel,
) -> Assembled
    decreases shape,
{
    match shape {
        Shape::Operand => Assembled {
            node: item_node(items[end - 1]),
            start: end - 1,
            tier: 0,
            cur,
        },
        Shape::Prefix(_, operand) => {
            let a = assemble(tokens, *operand, items, end, cur);
            let op = item_node(items[a.start - 1]);
            Assembled {
                node: unary_of(op, a.node),
                start: a.start - 1,
                tier: 0,
                cur: a.cur,
            }
        },
        Shape::Infix(left, _, right) => {
            let b = assemble(tokens, *right, items, end, cur);
            let op = item_node(items[b.start - 1]);
            let line = item_line(items[b.start - 1]);
            let a = assemble(tokens, *left, items, b.start - 1, b.cur);
            Assembled {
                node: binary_of(a.node, a.tier, op, line, b.node, b.tier),
                start: a.start,
                tier: line_tier(line),
                cur: if clashes(line, a.tier, b.tier) {
                    CursorModel {
                        next: a.cur.next,
                        ok: false,
                        diags: a.cur.diags.push(
                            diag_at(tokens, op.lo, DiagnosticKind::NonAssociative),
                        ),
                    }
                } else {
                    a.cur
                },
            }
        },
    }
}

/// The longest run that is handed to the precedence resolver.
pub const MAX_RUN: usize = 1024;

/// The expression that a flat run stands for. A single operand is itself.
/// Any other run of at most `MAX_RUN` items goes to the precedence resolver;
/// its answer is used if it reads, from left to right, exactly as the run
/// does, and obeys the operator table. Otherwise the run stays flat inside an
/// `Error` node.
pub open spec fn resolve_run(tokens: Seq<Token>, run: RunModel, lo: int) -> (
    NodeModel,
    CursorModel,
) {
    let codes = codes_of(run.items);
    if run.items.len() == 1 {
        (item_node(run.items[0]), run.cur)
    } else if run.items.len() <= MAX_RUN && alternates(resolver_ops(), codes) && shape_codes(
        pratt_shape(resolver_ops(), codes),
    ) == codes && obeys_table(pratt_shape(resolver_ops(), codes)) {
        let a = assemble(
            tokens,
            pratt_shape(resolver_ops(), codes),
            run.items,
            run.items.len() as int,
            run.cur,
        );
        (a.node, a.cur)
    } else {
        (
            NodeModel {
                kind: NodeKind::Error,
                lo,
                hi: run.cur.next,
                children: item_nodes(run.items),
            },
            CursorModel {
                next: run.cur.next,
                ok: false,
                diags: run.cur.diags.push(diag_at(tokens, lo, DiagnosticKind::Unresolved)),
            },
        )
    }
}

pub open spec fn push_operator(run: RunModel, line: int) -> RunModel {
    RunModel {
        items: run.items.push(ItemModel::Operator { token: run.cur.next, line }),
        cur: CursorModel { next: run.cur.next + 1, ..run.cur },
    }
}

pub open spec fn push_operand(run: RunModel, r: (NodeModel, CursorModel)) -> RunModel {
    RunModel { items: run.items.push(ItemModel::Operand(r.0)), cur: r.1 }
}

/// Statements and their terminators up to the end of the text, or of the
/// block if `in_block`.
pub open spec fn statements(tokens: Seq<Token>, l: ListModel, depth: nat, in_block: bool) -> ListModel
    decreases depth, tokens.len() - l.cur.next, 12int,
{
    let kind = kind_at(tokens, l.cur.next);
    if kind == TokenKind::Eof || (in_block && kind == TokenKind::Punct(Punct::RBrace)) {
        l
    } else if kind == TokenKind::Newline || kind == TokenKind::Punct(Punct::Semicolon) {
        statements(tokens, take(tokens, l), depth, in_block)
    } else {
        let r = statement(tokens, l.cur, depth, in_block);
        if l.cur.next < r.1.next <= tokens.len() {
            statements(tokens, append(l, r), depth, in_block)
        } else {
            append(l, r)
        }
    }
}

/// The tokens up to the next place where a statement may end, as leaves.
pub open spec fn skip(tokens: Seq<Token>, l: ListModel, in_block: bool) -> ListModel
    decreases tokens.len() - l.cur.next,
{
    if ends_statement(kind_at(tokens, l.cur.next), in_block) {
        l
    } else {
        skip(tokens, take(tokens, l), in_block)
    }
}

/// One statement: an expression that is sound and ends where a statement may
/// end. Anything else is one `Error` node: the expression as far as it was
/// read and the tokens up to the next place where a statement may end, with a
/// diagnostic. Either way the statement leaves the soundness of what is
/// around it as it was.
pub open spec fn statement(tokens: Seq<Token>, cur: CursorModel, depth: nat, in_block: bool) -> (
    NodeModel,
    CursorModel,
)
    decreases depth, tokens.len() - cur.next, 11int,
{
    let r = expr(tokens, CursorModel { ok: true, ..cur }, depth);
    if r.1.ok && cur.next < r.1.next && ends_statement(kind_at(tokens, r.1.next), in_block) {
        (r.0, CursorModel { ok: cur.ok, ..r.1 })
    } else {
        let l = skip(
            tokens,
            ListModel { items: seq![r.0], cur: report(tokens, r.1, DiagnosticKind::MalformedStatement) },
            in_block,
        );
        (
            NodeModel { kind: NodeKind::Error, lo: cur.next, hi: l.cur.next, children: l.items },
            CursorModel { ok: cur.ok, ..l.cur },
        )
    }
}

/// One expression: the longest run of operands and operators from the cursor
/// on, nested by precedence.
pub open spec fn expr(tokens: Seq<Token>, cur: CursorModel, depth: nat) -> (NodeModel, CursorModel)
    decreases depth, tokens.len() - cur.next, 10int,
{
    resolve_run(tokens, collect(tokens, RunModel { items: Seq::empty(), cur }, depth), cur.next)
}

/// The rest of a run, where an operand is due: prefix operators, the operand,
/// and, if a binary operator follows, the operator and what is due after it.
pub open spec fn collect(tokens: Seq<Token>, run: RunModel, depth: nat) -> RunModel
    decreases depth, tokens.len() - run.cur.next, 9int,
{
    let kind = kind_at(tokens, run.cur.next);
    if kind != TokenKind::Eof && operator_line(kind, true).is_some() {
        collect(tokens, push_operator(run, operator_line(kind, true).unwrap()), depth)
    } else {
        let r = operand(tokens, run.cur, depth);
        let with = push_operand(run, r);
        let after = kind_at(tokens, r.1.next);
        if after != TokenKind::Eof && operator_line(after, false).is_some() && run.cur.next
            <= r.1.next {
            collect(tokens, push_operator(with, operator_line(after, false).unwrap()), depth)
        } else {
            with
        }
    }
}

/// One operand: a primary, and every call, subscript and access behind it.
pub open spec fn operand(tokens: Seq<Token>, cur: CursorModel, depth: nat) -> (
    NodeModel,
    CursorModel,
)
    decreases depth, tokens.len() - cur.next, 7int,
{
    let r = primary(tokens, cur, depth);
    if cur.next <= r.1.next <= tokens.len() {
        postfix(tokens, r.0, r.1, depth, cur.next)
    } else {
        r
    }
}

/// One primary: a token that is an operand by itself, or a construct that
/// nests. Anything else is `Missing`.
pub open spec fn primary(tokens: Seq<Token>, cur: CursorModel, depth: nat) -> (
    NodeModel,
    CursorModel,
)
    decreases depth, tokens.len() - cur.next, 6int,
{
    let kind = kind_at(tokens, cur.next);
    if is_atom(kind) {
        token_leaf(tokens, cur)
    } else if opens_construct(kind) {
        construct(tokens, cur, depth)
    } else {
        missing(tokens, cur, DiagnosticKind::MissingOperand)
    }
}

/// `object` with every call, subscript and access that follows it.
pub open spec fn postfix(
    tokens: Seq<Token>,
    object: NodeModel,
    cur: CursorModel,
    depth: nat,
    lo: int,
) -> (NodeModel, CursorModel)
    decreases depth, tokens.len() - cur.next, 5int,
{
    let kind = kind_at(tokens, cur.next);
    if opens_arguments(kind) {
        let r = arguments(tokens, object, cur, depth, lo);
        if cur.next < r.1.next <= tokens.len() {
            postfix(tokens, r.0, r.1, depth, lo)
        } else {
            r
        }
    } else if is_access(kind) {
        let r = member(tokens, object, cur, lo);
        postfix(tokens, r.0, r.1, depth, lo)
    } else {
        (object, cur)
    }
}

/// `object` with the argument list that follows it: a `Call` for
/// parentheses, an `Index` for brackets. At depth zero the list is not read
/// and `object` goes inside an `Error` node.
pub open spec fn arguments(
    tokens: Seq<Token>,
    object: NodeModel,
    cur: CursorModel,
    depth: nat,
    lo: int,
) -> (NodeModel, CursorModel)
    decreases depth, tokens.len() - cur.next, 4int,
{
    if depth == 0 {
        close(
            ListModel { items: seq![object], cur: report(tokens, cur, DiagnosticKind::TooDeep) },
            NodeKind::Error,
            lo,
        )
    } else {
        let kind = kind_at(tokens, cur.next);
        let inner = elements(
            tokens,
            take(tokens, ListModel { items: seq![object], cur }),
            (depth - 1) as nat,
            false,
            false,
        );
        if kind == TokenKind::Punct(Punct::LParen) {
            close(expect(tokens, inner, Punct::RParen), NodeKind::Call, lo)
        } else if kind == TokenKind::Punct(Punct::LBracket) {
            close(expect(tokens, inner, Punct::RBracket), NodeKind::Index, lo)
        } else {
            close(
                expect(tokens, expect(tokens, inner, Punct::RBracket), Punct::RBracket),
                NodeKind::Index,
                lo,
            )
        }
    }
}

/// Whether token `i` is a name that is given no value: a name, `=`, and then
/// a comma or the end of the list.
pub open spec fn names_nothing(tokens: Seq<Token>, i: int) -> bool {
    (kind_at(tokens, i) == TokenKind::Identifier || kind_at(tokens, i) == TokenKind::String)
        && kind_at(tokens, i + 1) == TokenKind::Operator(Operator::EqAssign) && (kind_at(
        tokens,
        i + 2,
    ) == TokenKind::Punct(Punct::Comma) || ends_list(kind_at(tokens, i + 2)))
}

/// A name and the `=` behind it, as an argument without a value.
pub open spec fn bare_argument(tokens: Seq<Token>, cur: CursorModel) -> (NodeModel, CursorModel) {
    close(take(tokens, take(tokens, list_at(cur))), NodeKind::Argument, cur.next)
}

/// The elements of a list and the commas between them, up to where the list
/// ends. An element may be empty, and an argument may be a name without a
/// value. `after` says that an element has just been read, so that a comma is
/// due before the next.
pub open spec fn elements(
    tokens: Seq<Token>,
    l: ListModel,
    depth: nat,
    parameters: bool,
    after: bool,
) -> ListModel
    decreases depth, tokens.len() - l.cur.next, 13int,
{
    let kind = kind_at(tokens, l.cur.next);
    if ends_list(kind) {
        l
    } else if kind == TokenKind::Punct(Punct::Comma) {
        elements(tokens, take(tokens, l), depth, parameters, false)
    } else {
        let due = if after {
            append(l, missing(tokens, l.cur, DiagnosticKind::Expected(Punct::Comma)))
        } else {
            l
        };
        if !parameters && names_nothing(tokens, due.cur.next) {
            elements(
                tokens,
                append(due, bare_argument(tokens, due.cur)),
                depth,
                parameters,
                true,
            )
        } else {
            let r = expr(tokens, due.cur, depth);
            let with = append(due, element(tokens, r, parameters));
            if l.cur.next < r.1.next <= tokens.len() {
                elements(tokens, with, depth, parameters, true)
            } else {
                with
            }
        }
    }
}

/// `(`, one expression, `)`.
pub open spec fn condition(tokens: Seq<Token>, l: ListModel, depth: nat) -> ListModel
    decreases depth, tokens.len() - l.cur.next, 14int,
{
    let open = expect(tokens, l, Punct::LParen);
    expect(tokens, append(open, expr(tokens, open.cur, depth)), Punct::RParen)
}

/// The construct that the next token opens: an expression in parentheses, a
/// block, `if`, `for`, `while`, `repeat` or a function definition. What
/// stands inside is read at one depth less; at depth zero the construct is
/// `Missing`.
pub open spec fn construct(tokens: Seq<Token>, cur: CursorModel, depth: nat) -> (
    NodeModel,
    CursorModel,
)
    decreases depth, tokens.len() - cur.next, 4int,
{
    let kind = kind_at(tokens, cur.next);
    if depth == 0 {
        missing(tokens, cur, DiagnosticKind::TooDeep)
    } else {
        let d = (depth - 1) as nat;
        if kind == TokenKind::Punct(Punct::LParen) {
            close(condition(tokens, list_at(cur), d), NodeKind::Paren, cur.next)
        } else if kind == TokenKind::Punct(Punct::LBrace) {
            close(
                expect(
                    tokens,
                    statements(tokens, take(tokens, list_at(cur)), d, true),
                    Punct::RBrace,
                ),
                NodeKind::Block,
                cur.next,
            )
        } else if kind == TokenKind::Keyword(Keyword::Repeat) {
            let word = take(tokens, list_at(cur));
            close(append(word, expr(tokens, word.cur, d)), NodeKind::Repeat, cur.next)
        } else if kind == TokenKind::Keyword(Keyword::Function) {
            let word = take(tokens, list_at(cur));
            let head = if kind_at(tokens, word.cur.next) == TokenKind::Punct(Punct::LParen) {
                expect(
                    tokens,
                    elements(tokens, take(tokens, word), d, true, false),
                    Punct::RParen,
                )
            } else {
                expect(tokens, word, Punct::LParen)
            };
            close(append(head, expr(tokens, head.cur, d)), NodeKind::FunctionDef, cur.next)
        } else {
            let head = condition(tokens, take(tokens, list_at(cur)), d);
            let body = append(head, expr(tokens, head.cur, d));
            if kind == TokenKind::Keyword(Keyword::If) {
                if kind_at(tokens, body.cur.next) == TokenKind::Keyword(Keyword::Else) {
                    let word = take(tokens, body);
                    close(append(word, expr(tokens, word.cur, d)), NodeKind::If, cur.next)
                } else {
                    close(body, NodeKind::If, cur.next)
                }
            } else if kind == TokenKind::Keyword(Keyword::For) {
                close(body, NodeKind::For, cur.next)
            } else {
                close(body, NodeKind::While, cur.next)
            }
        }
    }
}

/// The deepest nesting that the parser follows.
pub const MAX_DEPTH: usize = 256;

/// The whole text: statements and their terminators, then the `Eof` token.
pub open spec fn program(tokens: Seq<Token>) -> (NodeModel, CursorModel) {
    let body = statements(
        tokens,
        list_at(CursorModel { next: 0, ok: true, diags: Seq::empty() }),
        MAX_DEPTH as nat,
        false,
    );
    close(take(tokens, body), NodeKind::Program, 0)
}

} // verus!
