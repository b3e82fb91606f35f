//! Every rule of the grammar yields a well-formed node over exactly the
//! tokens it read, and never reads past the end of the text.
use crate::parser::diagnostic::DiagnosticKind;
use crate::parser::grammar::{
    append, arguments, assemble, bare_argument, names_nothing, close, codes_of, collect, condition, construct, element, elements,
    ends_list, ends_statement, expect, expr, is_access, is_atom, item_node, item_nodes, kind_at,
    list_at, member, missing, opens_arguments, opens_construct, operand, operator_line, postfix,
    primary, program, push_operand, push_operator, report, resolve_run, skip, statement,
    statements, take, token_leaf, CursorModel, ItemModel, ListModel, RunModel, MAX_DEPTH, MAX_RUN,
};
use crate::parser::parse::{gathers, lands, valid_tokens};
use crate::parser::pratt::{
    alternates, obeys_table, pratt_shape, resolver_ops, shape_codes, Shape,
};
use crate::parser::token::{Keyword, Punct, Token, TokenKind};
use crate::parser::tree::{joined, lemma_tiles_push, tiles, NodeKind, NodeModel};
use vstd::prelude::*;

verus! {

pub proof fn lemma_token_leaf(tokens: Seq<Token>, cur: CursorModel)
    requires
        valid_tokens(tokens),
        0 <= cur.next < tokens.len(),
        kind_at(tokens, cur.next) != TokenKind::Eof,
    ensures
        lands(tokens, cur.next, token_leaf(tokens, cur)),
        token_leaf(tokens, cur).1.next == cur.next + 1,
{
}

pub proof fn lemma_missing(tokens: Seq<Token>, cur: CursorModel, kind: DiagnosticKind)
    requires
        0 <= cur.next < tokens.len(),
    ensures
        lands(tokens, cur.next, missing(tokens, cur, kind)),
        missing(tokens, cur, kind).1.next == cur.next,
{
}

pub proof fn lemma_append(tokens: Seq<Token>, l: ListModel, lo: int, r: (NodeModel, CursorModel))
    requires
        tiles(l.items, lo, l.cur.next),
        lands(tokens, l.cur.next, r),
    ensures
        gathers(tokens, lo, append(l, r)),
        append(l, r).items.len() > 0,
        append(l, r).cur.next == r.1.next,
{
    lemma_tiles_push(l.items, lo, l.cur.next, r.0);
}

pub proof fn lemma_take(tokens: Seq<Token>, l: ListModel, lo: int)
    requires
        valid_tokens(tokens),
        tiles(l.items, lo, l.cur.next),
        l.cur.next < tokens.len(),
        kind_at(tokens, l.cur.next) != TokenKind::Eof,
    ensures
        gathers(tokens, lo, take(tokens, l)),
        take(tokens, l).items.len() > 0,
        take(tokens, l).cur.next == l.cur.next + 1,
{
    lemma_token_leaf(tokens, l.cur);
    lemma_append(tokens, l, lo, token_leaf(tokens, l.cur));
}

pub proof fn lemma_expect(tokens: Seq<Token>, l: ListModel, p: Punct, lo: int)
    requires
        valid_tokens(tokens),
        gathers(tokens, lo, l),
    ensures
        gathers(tokens, lo, expect(tokens, l, p)),
        expect(tokens, l, p).items.len() > 0,
        l.cur.next <= expect(tokens, l, p).cur.next,
{
    if kind_at(tokens, l.cur.next) == TokenKind::Punct(p) {
        lemma_take(tokens, l, lo);
    } else {
        lemma_missing(tokens, l.cur, DiagnosticKind::Expected(p));
        lemma_append(tokens, l, lo, missing(tokens, l.cur, DiagnosticKind::Expected(p)));
    }
}

pub proof fn lemma_close(tokens: Seq<Token>, l: ListModel, kind: NodeKind, lo: int)
    requires
        gathers(tokens, lo, l),
        l.items.len() > 0,
    ensures
        lands(tokens, lo, close(l, kind, lo)),
        close(l, kind, lo).1.next == l.cur.next,
{
}

pub proof fn lemma_member(tokens: Seq<Token>, object: NodeModel, cur: CursorModel, lo: int)
    requires
        valid_tokens(tokens),
        object.wf(),
        object.lo == lo,
        object.hi == cur.next,
        is_access(kind_at(tokens, cur.next)),
    ensures
        lands(tokens, lo, member(tokens, object, cur, lo)),
        cur.next < member(tokens, object, cur, lo).1.next,
{
    let first = ListModel { items: seq![object], cur };
    assert(tiles(first.items, lo, cur.next));
    lemma_take(tokens, first, lo);
    let l = take(tokens, first);
    let kind = kind_at(tokens, l.cur.next);
    if kind == TokenKind::Identifier || kind == TokenKind::String {
        lemma_take(tokens, l, lo);
        lemma_close(tokens, take(tokens, l), NodeKind::Member, lo);
    } else {
        lemma_missing(tokens, l.cur, DiagnosticKind::ExpectedName);
        lemma_append(tokens, l, lo, missing(tokens, l.cur, DiagnosticKind::ExpectedName));
        lemma_close(
            tokens,
            append(l, missing(tokens, l.cur, DiagnosticKind::ExpectedName)),
            NodeKind::Member,
            lo,
        );
    }
}

pub proof fn lemma_element(tokens: Seq<Token>, from: int, r: (NodeModel, CursorModel), parameters: bool)
    requires
        lands(tokens, from, r),
    ensures
        lands(tokens, from, element(tokens, r, parameters)),
        element(tokens, r, parameters).1.next == r.1.next,
{
    assert(tiles(seq![r.0], r.0.lo, r.0.hi));
}

/// The items in front of `end` that `shape` takes make a well-formed node.
pub proof fn lemma_assemble(
    tokens: Seq<Token>,
    shape: Shape,
    items: Seq<ItemModel>,
    end: int,
    cur: CursorModel,
    lo: int,
    hi: int,
)
    requires
        tiles(item_nodes(items), lo, hi),
        shape_codes(shape).len() <= end <= items.len(),
    ensures
        ({
            let a = assemble(tokens, shape, items, end, cur);
            &&& a.start == end - shape_codes(shape).len()
            &&& a.node.wf()
            &&& a.node.lo == item_nodes(items)[a.start].lo
            &&& a.node.hi == item_nodes(items)[end - 1].hi
            &&& a.cur.next == cur.next
        }),
    decreases shape,
{
    match shape {
        Shape::Operand => {
            assert(item_nodes(items)[end - 1].wf());
        },
        Shape::Prefix(_, operand) => {
            lemma_assemble(tokens, *operand, items, end, cur, lo, hi);
            let a = assemble(tokens, *operand, items, end, cur);
            assert(item_nodes(items)[a.start - 1].wf());
            assert(joined(item_nodes(items), a.start - 1));
            let kids = seq![item_nodes(items)[a.start - 1], a.node];
            assert(joined(kids, 0));
            assert(tiles(kids, kids[0].lo, kids[1].hi));
        },
        Shape::Infix(left, _, right) => {
            lemma_assemble(tokens, *right, items, end, cur, lo, hi);
            let b = assemble(tokens, *right, items, end, cur);
            assert(shape_codes(*left).len() >= 1);
            lemma_assemble(tokens, *left, items, b.start - 1, b.cur, lo, hi);
            let a = assemble(tokens, *left, items, b.start - 1, b.cur);
            assert(item_nodes(items)[b.start - 1].wf());
            assert(joined(item_nodes(items), b.start - 1));
            assert(joined(item_nodes(items), b.start - 2));
            let kids = seq![a.node, item_nodes(items)[b.start - 1], b.node];
            assert(joined(kids, 0));
            assert(joined(kids, 1));
            assert(tiles(kids, kids[0].lo, kids[2].hi));
        },
    }
}

pub proof fn lemma_resolve_run(tokens: Seq<Token>, run: RunModel, lo: int)
    requires
        tiles(item_nodes(run.items), lo, run.cur.next),
        run.items.len() > 0,
        run.cur.next < tokens.len(),
    ensures
        lands(tokens, lo, resolve_run(tokens, run, lo)),
        resolve_run(tokens, run, lo).1.next == run.cur.next,
{
    let codes = codes_of(run.items);
    assert(item_nodes(run.items)[0].wf());
    if run.items.len() == 1 {
    } else if run.items.len() <= MAX_RUN && alternates(resolver_ops(), codes) && shape_codes(
        pratt_shape(resolver_ops(), codes),
    ) == codes && obeys_table(pratt_shape(resolver_ops(), codes)) {
        lemma_assemble(
            tokens,
            pratt_shape(resolver_ops(), codes),
            run.items,
            run.items.len() as int,
            run.cur,
            lo,
            run.cur.next,
        );
    } else {
    }
}

pub proof fn lemma_push_operator(tokens: Seq<Token>, run: RunModel, line: int, lo: int)
    requires
        valid_tokens(tokens),
        tiles(item_nodes(run.items), lo, run.cur.next),
        run.cur.next < tokens.len(),
        kind_at(tokens, run.cur.next) != TokenKind::Eof,
    ensures
        tiles(item_nodes(push_operator(run, line).items), lo, run.cur.next + 1),
        push_operator(run, line).cur.next == run.cur.next + 1,
        push_operator(run, line).cur.next < tokens.len(),
{
    let item = ItemModel::Operator { token: run.cur.next, line };
    assert(item_nodes(run.items.push(item)) =~= item_nodes(run.items).push(item_node(item)));
    lemma_tiles_push(item_nodes(run.items), lo, run.cur.next, item_node(item));
}

pub proof fn lemma_push_operand(tokens: Seq<Token>, run: RunModel, r: (NodeModel, CursorModel), lo: int)
    requires
        tiles(item_nodes(run.items), lo, run.cur.next),
        lands(tokens, run.cur.next, r),
    ensures
        tiles(item_nodes(push_operand(run, r).items), lo, r.1.next),
        push_operand(run, r).items.len() > 0,
{
    let item = ItemModel::Operand(r.0);
    assert(item_nodes(run.items.push(item)) =~= item_nodes(run.items).push(item_node(item)));
    lemma_tiles_push(item_nodes(run.items), lo, run.cur.next, r.0);
}

pub proof fn lemma_skip(tokens: Seq<Token>, l: ListModel, in_block: bool, lo: int)
    requires
        valid_tokens(tokens),
        gathers(tokens, lo, l),
        l.items.len() > 0,
    ensures
        gathers(tokens, lo, skip(tokens, l, in_block)),
        skip(tokens, l, in_block).items.len() > 0,
        l.cur.next <= skip(tokens, l, in_block).cur.next,
        ends_statement(kind_at(tokens, skip(tokens, l, in_block).cur.next), in_block),
    decreases tokens.len() - l.cur.next,
{
    if !ends_statement(kind_at(tokens, l.cur.next), in_block) {
        lemma_take(tokens, l, lo);
        lemma_skip(tokens, take(tokens, l), in_block, lo);
    }
}

pub proof fn lemma_statements(tokens: Seq<Token>, l: ListModel, depth: nat, in_block: bool, lo: int)
    requires
        valid_tokens(tokens),
        gathers(tokens, lo, l),
    ensures
        gathers(tokens, lo, statements(tokens, l, depth, in_block)),
        ({
            let kind = kind_at(tokens, statements(tokens, l, depth, in_block).cur.next);
            kind == TokenKind::Eof || (in_block && kind == TokenKind::Punct(Punct::RBrace))
        }),
    decreases depth, tokens.len() - l.cur.next, 12int,
{
    let kind = kind_at(tokens, l.cur.next);
    if kind == TokenKind::Eof || (in_block && kind == TokenKind::Punct(Punct::RBrace)) {
    } else if kind == TokenKind::Newline || kind == TokenKind::Punct(Punct::Semicolon) {
        lemma_take(tokens, l, lo);
        lemma_statements(tokens, take(tokens, l), depth, in_block, lo);
    } else {
        lemma_statement(tokens, l.cur, depth, in_block);
        let r = statement(tokens, l.cur, depth, in_block);
        lemma_append(tokens, l, lo, r);
        lemma_statements(tokens, append(l, r), depth, in_block, lo);
    }
}

pub proof fn lemma_statement(tokens: Seq<Token>, cur: CursorModel, depth: nat, in_block: bool)
    requires
        valid_tokens(tokens),
        0 <= cur.next < tokens.len(),
        !ends_statement(kind_at(tokens, cur.next), in_block),
    ensures
        lands(tokens, cur.next, statement(tokens, cur, depth, in_block)),
        cur.next < statement(tokens, cur, depth, in_block).1.next,
    decreases depth, tokens.len() - cur.next, 11int,
{
    let start = CursorModel { ok: true, ..cur };
    lemma_expr(tokens, start, depth);
    let r = expr(tokens, start, depth);
    if r.1.ok && cur.next < r.1.next && ends_statement(kind_at(tokens, r.1.next), in_block) {
    } else {
        let first = ListModel {
            items: seq![r.0],
            cur: report(tokens, r.1, DiagnosticKind::MalformedStatement),
        };
        assert(tiles(first.items, cur.next, r.1.next));
        lemma_skip(tokens, first, in_block, cur.next);
    }
}

pub proof fn lemma_expr(tokens: Seq<Token>, cur: CursorModel, depth: nat)
    requires
        valid_tokens(tokens),
        0 <= cur.next < tokens.len(),
    ensures
        lands(tokens, cur.next, expr(tokens, cur, depth)),
    decreases depth, tokens.len() - cur.next, 10int,
{
    let start = RunModel { items: Seq::empty(), cur };
    assert(item_nodes(start.items) =~= Seq::empty());
    lemma_collect(tokens, start, depth, cur.next);
    lemma_resolve_run(tokens, collect(tokens, start, depth), cur.next);
}

pub proof fn lemma_collect(tokens: Seq<Token>, run: RunModel, depth: nat, lo: int)
    requires
        valid_tokens(tokens),
        tiles(item_nodes(run.items), lo, run.cur.next),
        run.cur.next < tokens.len(),
    ensures
        tiles(item_nodes(collect(tokens, run, depth).items), lo, collect(tokens, run, depth).cur.next),
        collect(tokens, run, depth).items.len() > 0,
        collect(tokens, run, depth).cur.next < tokens.len(),
    decreases depth, tokens.len() - run.cur.next, 9int,
{
    let kind = kind_at(tokens, run.cur.next);
    if kind != TokenKind::Eof && operator_line(kind, true).is_some() {
        let line = operator_line(kind, true).unwrap();
        lemma_push_operator(tokens, run, line, lo);
        lemma_collect(tokens, push_operator(run, line), depth, lo);
    } else {
        lemma_operand(tokens, run.cur, depth);
        let r = operand(tokens, run.cur, depth);
        lemma_push_operand(tokens, run, r, lo);
        let with = push_operand(run, r);
        let after = kind_at(tokens, r.1.next);
        if after != TokenKind::Eof && operator_line(after, false).is_some() {
            let line = operator_line(after, false).unwrap();
            lemma_push_operator(tokens, with, line, lo);
            lemma_collect(tokens, push_operator(with, line), depth, lo);
        }
    }
}

pub proof fn lemma_operand(tokens: Seq<Token>, cur: CursorModel, depth: nat)
    requires
        valid_tokens(tokens),
        0 <= cur.next < tokens.len(),
    ensures
        lands(tokens, cur.next, operand(tokens, cur, depth)),
    decreases depth, tokens.len() - cur.next, 7int,
{
    lemma_primary(tokens, cur, depth);
    let r = primary(tokens, cur, depth);
    lemma_postfix(tokens, r.0, r.1, depth, cur.next);
}

pub proof fn lemma_primary(tokens: Seq<Token>, cur: CursorModel, depth: nat)
    requires
        valid_tokens(tokens),
        0 <= cur.next < tokens.len(),
    ensures
        lands(tokens, cur.next, primary(tokens, cur, depth)),
    decreases depth, tokens.len() - cur.next, 6int,
{
    let kind = kind_at(tokens, cur.next);
    if is_atom(kind) {
        lemma_token_leaf(tokens, cur);
    } else if opens_construct(kind) {
        lemma_construct(tokens, cur, depth);
    } else {
        lemma_missing(tokens, cur, DiagnosticKind::MissingOperand);
    }
}

pub proof fn lemma_postfix(tokens: Seq<Token>, object: NodeModel, cur: CursorModel, depth: nat, lo: int)
    requires
        valid_tokens(tokens),
        lands(tokens, lo, (object, cur)),
    ensures
        lands(tokens, lo, postfix(tokens, object, cur, depth, lo)),
    decreases depth, tokens.len() - cur.next, 5int,
{
    let kind = kind_at(tokens, cur.next);
    if opens_arguments(kind) {
        lemma_arguments(tokens, object, cur, depth, lo);
        let r = arguments(tokens, object, cur, depth, lo);
        if cur.next < r.1.next <= tokens.len() {
            lemma_postfix(tokens, r.0, r.1, depth, lo);
        }
    } else if is_access(kind) {
        lemma_member(tokens, object, cur, lo);
        let r = member(tokens, object, cur, lo);
        lemma_postfix(tokens, r.0, r.1, depth, lo);
    }
}

pub proof fn lemma_arguments(tokens: Seq<Token>, object: NodeModel, cur: CursorModel, depth: nat, lo: int)
    requires
        valid_tokens(tokens),
        lands(tokens, lo, (object, cur)),
        opens_arguments(kind_at(tokens, cur.next)),
    ensures
        lands(tokens, lo, arguments(tokens, object, cur, depth, lo)),
    decreases depth, tokens.len() - cur.next, 4int,
{
    if depth == 0 {
        let whole = ListModel {
            items: seq![object],
            cur: report(tokens, cur, DiagnosticKind::TooDeep),
        };
        assert(tiles(whole.items, lo, cur.next));
        lemma_close(tokens, whole, NodeKind::Error, lo);
    } else {
        let d = (depth - 1) as nat;
        let kind = kind_at(tokens, cur.next);
        let first = ListModel { items: seq![object], cur };
        assert(tiles(first.items, lo, cur.next));
        lemma_take(tokens, first, lo);
        lemma_elements(tokens, take(tokens, first), d, false, false, lo);
        let inner = elements(tokens, take(tokens, first), d, false, false);
        if kind == TokenKind::Punct(Punct::LParen) {
            lemma_expect(tokens, inner, Punct::RParen, lo);
            lemma_close(tokens, expect(tokens, inner, Punct::RParen), NodeKind::Call, lo);
        } else if kind == TokenKind::Punct(Punct::LBracket) {
            lemma_expect(tokens, inner, Punct::RBracket, lo);
            lemma_close(tokens, expect(tokens, inner, Punct::RBracket), NodeKind::Index, lo);
        } else {
            lemma_expect(tokens, inner, Punct::RBracket, lo);
            let once = expect(tokens, inner, Punct::RBracket);
            lemma_expect(tokens, once, Punct::RBracket, lo);
            lemma_close(tokens, expect(tokens, once, Punct::RBracket), NodeKind::Index, lo);
        }
    }
}

pub proof fn lemma_elements(
    tokens: Seq<Token>,
    l: ListModel,
    depth: nat,
    parameters: bool,
    after: bool,
    lo: int,
)
    requires
        valid_tokens(tokens),
        gathers(tokens, lo, l),
    ensures
        gathers(tokens, lo, elements(tokens, l, depth, parameters, after)),
        l.cur.next <= elements(tokens, l, depth, parameters, after).cur.next,
    decreases depth, tokens.len() - l.cur.next, 13int,
{
    let kind = kind_at(tokens, l.cur.next);
    if ends_list(kind) {
    } else if kind == TokenKind::Punct(Punct::Comma) {
        lemma_take(tokens, l, lo);
        lemma_elements(tokens, take(tokens, l), depth, parameters, false, lo);
    } else {
        let gap = missing(tokens, l.cur, DiagnosticKind::Expected(Punct::Comma));
        if after {
            lemma_missing(tokens, l.cur, DiagnosticKind::Expected(Punct::Comma));
            lemma_append(tokens, l, lo, gap);
        }
        let due = if after {
            append(l, gap)
        } else {
            l
        };
        if !parameters && names_nothing(tokens, due.cur.next) {
            let at = due.cur.next;
            assert(tiles(list_at(due.cur).items, at, at));
            lemma_take(tokens, list_at(due.cur), at);
            lemma_take(tokens, take(tokens, list_at(due.cur)), at);
            lemma_close(
                tokens,
                take(tokens, take(tokens, list_at(due.cur))),
                NodeKind::Argument,
                at,
            );
            lemma_append(tokens, due, lo, bare_argument(tokens, due.cur));
            lemma_elements(
                tokens,
                append(due, bare_argument(tokens, due.cur)),
                depth,
                parameters,
                true,
                lo,
            );
        } else {
            lemma_expr(tokens, due.cur, depth);
            let r = expr(tokens, due.cur, depth);
            lemma_element(tokens, due.cur.next, r, parameters);
            lemma_append(tokens, due, lo, element(tokens, r, parameters));
            let with = append(due, element(tokens, r, parameters));
            if l.cur.next < r.1.next <= tokens.len() {
                lemma_elements(tokens, with, depth, parameters, true, lo);
            }
        }
    }
}

pub proof fn lemma_condition(tokens: Seq<Token>, l: ListModel, depth: nat, lo: int)
    requires
        valid_tokens(tokens),
        gathers(tokens, lo, l),
    ensures
        gathers(tokens, lo, condition(tokens, l, depth)),
        condition(tokens, l, depth).items.len() > 0,
    decreases depth, tokens.len() - l.cur.next, 14int,
{
    lemma_expect(tokens, l, Punct::LParen, lo);
    let open = expect(tokens, l, Punct::LParen);
    lemma_expr(tokens, open.cur, depth);
    lemma_append(tokens, open, lo, expr(tokens, open.cur, depth));
    lemma_expect(tokens, append(open, expr(tokens, open.cur, depth)), Punct::RParen, lo);
}

/// The list with one more expression.
pub proof fn lemma_append_expr(tokens: Seq<Token>, l: ListModel, depth: nat, lo: int)
    requires
        valid_tokens(tokens),
        gathers(tokens, lo, l),
    ensures
        gathers(tokens, lo, append(l, expr(tokens, l.cur, depth))),
        append(l, expr(tokens, l.cur, depth)).items.len() > 0,
    decreases depth, tokens.len() - l.cur.next, 11int,
{
    lemma_expr(tokens, l.cur, depth);
    lemma_append(tokens, l, lo, expr(tokens, l.cur, depth));
}

pub proof fn lemma_construct(tokens: Seq<Token>, cur: CursorModel, depth: nat)
    requires
        valid_tokens(tokens),
        0 <= cur.next < tokens.len(),
        opens_construct(kind_at(tokens, cur.next)),
    ensures
        lands(tokens, cur.next, construct(tokens, cur, depth)),
    decreases depth, tokens.len() - cur.next, 4int,
{
    let kind = kind_at(tokens, cur.next);
    let lo = cur.next;
    if depth == 0 {
        lemma_missing(tokens, cur, DiagnosticKind::TooDeep);
    } else {
        let d = (depth - 1) as nat;
        assert(tiles(list_at(cur).items, lo, lo));
        if kind == TokenKind::Punct(Punct::LParen) {
            lemma_condition(tokens, list_at(cur), d, lo);
            lemma_close(tokens, condition(tokens, list_at(cur), d), NodeKind::Paren, lo);
        } else if kind == TokenKind::Punct(Punct::LBrace) {
            lemma_take(tokens, list_at(cur), lo);
            lemma_statements(tokens, take(tokens, list_at(cur)), d, true, lo);
            let inner = statements(tokens, take(tokens, list_at(cur)), d, true);
            lemma_expect(tokens, inner, Punct::RBrace, lo);
            lemma_close(tokens, expect(tokens, inner, Punct::RBrace), NodeKind::Block, lo);
        } else if kind == TokenKind::Keyword(Keyword::Repeat) {
            lemma_take(tokens, list_at(cur), lo);
            let word = take(tokens, list_at(cur));
            lemma_append_expr(tokens, word, d, lo);
            lemma_close(tokens, append(word, expr(tokens, word.cur, d)), NodeKind::Repeat, lo);
        } else if kind == TokenKind::Keyword(Keyword::Function) {
            lemma_take(tokens, list_at(cur), lo);
            let word = take(tokens, list_at(cur));
            if kind_at(tokens, word.cur.next) == TokenKind::Punct(Punct::LParen) {
                lemma_take(tokens, word, lo);
                lemma_elements(tokens, take(tokens, word), d, true, false, lo);
                lemma_expect(
                    tokens,
                    elements(tokens, take(tokens, word), d, true, false),
                    Punct::RParen,
                    lo,
                );
            } else {
                lemma_expect(tokens, word, Punct::LParen, lo);
            }
            let head = if kind_at(tokens, word.cur.next) == TokenKind::Punct(Punct::LParen) {
                expect(
                    tokens,
                    elements(tokens, take(tokens, word), d, true, false),
                    Punct::RParen,
                )
            } else {
                expect(tokens, word, Punct::LParen)
            };
            lemma_append_expr(tokens, head, d, lo);
            lemma_close(tokens, append(head, expr(tokens, head.cur, d)), NodeKind::FunctionDef, lo);
        } else {
            lemma_take(tokens, list_at(cur), lo);
            lemma_condition(tokens, take(tokens, list_at(cur)), d, lo);
            let head = condition(tokens, take(tokens, list_at(cur)), d);
            lemma_append_expr(tokens, head, d, lo);
            let body = append(head, expr(tokens, head.cur, d));
            if kind == TokenKind::Keyword(Keyword::If) {
                if kind_at(tokens, body.cur.next) == TokenKind::Keyword(Keyword::Else) {
                    lemma_take(tokens, body, lo);
                    let word = take(tokens, body);
                    lemma_append_expr(tokens, word, d, lo);
                    lemma_close(tokens, append(word, expr(tokens, word.cur, d)), NodeKind::If, lo);
                } else {
                    lemma_close(tokens, body, NodeKind::If, lo);
                }
            } else if kind == TokenKind::Keyword(Keyword::For) {
                lemma_close(tokens, body, NodeKind::For, lo);
            } else {
                lemma_close(tokens, body, NodeKind::While, lo);
            }
        }
    }
}

/// The tree of a whole text is a well-formed `Program` over all its tokens.
pub proof fn lemma_program(tokens: Seq<Token>)
    requires
        valid_tokens(tokens),
    ensures
        program(tokens).0.wf(),
        program(tokens).0.kind == NodeKind::Program,
        program(tokens).0.lo == 0,
        program(tokens).0.hi == tokens.len(),
{
    let start = list_at(CursorModel { next: 0, ok: true, diags: Seq::empty() });
    assert(tiles(start.items, 0, 0));
    lemma_statements(tokens, start, MAX_DEPTH as nat, false, 0);
    let body = statements(tokens, start, MAX_DEPTH as nat, false);
    lemma_token_leaf_any(tokens, body.cur);
    lemma_tiles_push(body.items, 0, body.cur.next, token_leaf(tokens, body.cur).0);
}

proof fn lemma_token_leaf_any(tokens: Seq<Token>, cur: CursorModel)
    requires
        0 <= cur.next < tokens.len(),
    ensures
        token_leaf(tokens, cur).0.wf(),
        token_leaf(tokens, cur).0.lo == cur.next,
        token_leaf(tokens, cur).0.hi == cur.next + 1,
        token_leaf(tokens, cur).1.next == cur.next + 1,
{
}

} // verus!
