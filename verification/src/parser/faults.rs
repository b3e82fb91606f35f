//! Faults and diagnostics go together: every rule of the grammar records one
//! diagnostic for each `Error` and each `Missing` node that it makes, and
//! none otherwise.
use crate::parser::diagnostic::DiagnosticKind;
use crate::parser::grammar::{
    append, arguments, assemble, bare_argument, names_nothing, close, codes_of, collect, condition, construct, element, elements,
    ends_list, ends_statement, expect, expr, is_access, is_atom, item_line, item_node,
    item_nodes, kind_at, list_at, member, missing, opens_arguments, opens_construct, operand, operator_line, postfix,
    primary, program, push_operand, push_operator, report, resolve_run, skip, statement,
    statements, take, token_leaf, CursorModel, ItemModel, ListModel, RunModel, MAX_DEPTH, MAX_RUN,
};
use crate::parser::pratt::{
    alternates, obeys_table, pratt_shape, resolver_ops, shape_codes, Shape,
};
use crate::parser::token::{Keyword, Punct, Token, TokenKind};
use crate::parser::tree::{
    binary_of, faults, faults_upto, lemma_faults_of, lemma_faults_push, marks_fault, unary_of,
    NodeKind, NodeModel,
};
use vstd::prelude::*;

verus! {

/// A rule that started with `before` diagnostics recorded one for each fault
/// in its node.
pub open spec fn balanced(before: int, r: (NodeModel, CursorModel)) -> bool {
    r.1.diags.len() == before + faults(r.0)
}

/// The number of diagnostics of a list that do not belong to faults in its
/// nodes.
pub open spec fn owed(l: ListModel) -> int {
    l.cur.diags.len() - faults_upto(l.items, l.items.len())
}

/// The number of diagnostics of a run that do not belong to faults in its
/// items.
pub open spec fn run_owed(run: RunModel) -> int {
    run.cur.diags.len() - faults_upto(item_nodes(run.items), run.items.len())
}

pub proof fn lemma_token_leaf_balanced(tokens: Seq<Token>, cur: CursorModel)
    ensures
        balanced(cur.diags.len() as int, token_leaf(tokens, cur)),
{
}

pub proof fn lemma_missing_balanced(tokens: Seq<Token>, cur: CursorModel, kind: DiagnosticKind)
    ensures
        balanced(cur.diags.len() as int, missing(tokens, cur, kind)),
{
}

pub proof fn lemma_append_owed(l: ListModel, r: (NodeModel, CursorModel))
    requires
        balanced(l.cur.diags.len() as int, r),
    ensures
        owed(append(l, r)) == owed(l),
{
    lemma_faults_push(l.items, r.0);
}

pub proof fn lemma_take_owed(tokens: Seq<Token>, l: ListModel)
    ensures
        owed(take(tokens, l)) == owed(l),
{
    lemma_token_leaf_balanced(tokens, l.cur);
    lemma_append_owed(l, token_leaf(tokens, l.cur));
}

pub proof fn lemma_expect_owed(tokens: Seq<Token>, l: ListModel, p: Punct)
    ensures
        owed(expect(tokens, l, p)) == owed(l),
{
    lemma_take_owed(tokens, l);
    lemma_missing_balanced(tokens, l.cur, DiagnosticKind::Expected(p));
    lemma_append_owed(l, missing(tokens, l.cur, DiagnosticKind::Expected(p)));
}

/// The parent of a list has the faults of the list's nodes, and one more if
/// it is an `Error` itself.
pub proof fn lemma_close_faults(l: ListModel, kind: NodeKind, lo: int)
    ensures
        !marks_fault(kind) ==> balanced(owed(l), close(l, kind, lo)),
        marks_fault(kind) ==> balanced(owed(l) - 1, close(l, kind, lo)),
{
}

/// A list of one node.
pub proof fn lemma_single_owed(node: NodeModel, cur: CursorModel)
    ensures
        owed(ListModel { items: seq![node], cur }) == cur.diags.len() - faults(node),
{
    lemma_faults_step(seq![node], 1);
}

pub proof fn lemma_member_balanced(
    tokens: Seq<Token>,
    object: NodeModel,
    cur: CursorModel,
    lo: int,
    before: int,
)
    requires
        balanced(before, (object, cur)),
    ensures
        balanced(before, member(tokens, object, cur, lo)),
{
    let first = ListModel { items: seq![object], cur };
    lemma_single_owed(object, cur);
    lemma_take_owed(tokens, first);
    let l = take(tokens, first);
    lemma_take_owed(tokens, l);
    lemma_missing_balanced(tokens, l.cur, DiagnosticKind::ExpectedName);
    lemma_append_owed(l, missing(tokens, l.cur, DiagnosticKind::ExpectedName));
    lemma_close_faults(take(tokens, l), NodeKind::Member, lo);
    lemma_close_faults(
        append(l, missing(tokens, l.cur, DiagnosticKind::ExpectedName)),
        NodeKind::Member,
        lo,
    );
}

pub proof fn lemma_element_balanced(
    tokens: Seq<Token>,
    r: (NodeModel, CursorModel),
    parameters: bool,
    before: int,
)
    requires
        balanced(before, r),
    ensures
        balanced(before, element(tokens, r, parameters)),
{
    lemma_faults_of(element(tokens, r, parameters).0);
}

/// Putting items together adds one fault and one diagnostic for each
/// operator that is rejected, and nothing else.
pub proof fn lemma_assemble_balanced(
    tokens: Seq<Token>,
    shape: Shape,
    items: Seq<ItemModel>,
    end: int,
    cur: CursorModel,
)
    requires
        shape_codes(shape).len() <= end <= items.len(),
    ensures
        ({
            let a = assemble(tokens, shape, items, end, cur);
            &&& a.start == end - shape_codes(shape).len()
            &&& a.cur.diags.len() - cur.diags.len() == faults(a.node) - (faults_upto(
                item_nodes(items),
                end as nat,
            ) - faults_upto(item_nodes(items), a.start as nat))
        }),
    decreases shape,
{
    let nodes = item_nodes(items);
    match shape {
        Shape::Operand => {
            lemma_faults_step(nodes, end);
        },
        Shape::Prefix(_, operand) => {
            lemma_assemble_balanced(tokens, *operand, items, end, cur);
            let a = assemble(tokens, *operand, items, end, cur);
            lemma_faults_step(nodes, a.start);
            lemma_faults_of(unary_of(nodes[a.start - 1], a.node));
        },
        Shape::Infix(left, _, right) => {
            lemma_assemble_balanced(tokens, *right, items, end, cur);
            let b = assemble(tokens, *right, items, end, cur);
            assert(shape_codes(*left).len() >= 1);
            lemma_assemble_balanced(tokens, *left, items, b.start - 1, b.cur);
            let a = assemble(tokens, *left, items, b.start - 1, b.cur);
            lemma_faults_step(nodes, b.start);
            lemma_faults_of(
                binary_of(
                    a.node,
                    a.tier,
                    nodes[b.start - 1],
                    item_line(items[b.start - 1]),
                    b.node,
                    b.tier,
                ),
            );
        },
    }
}

/// The count over the first `n` nodes is that over the first `n - 1` and
/// that of the `n`-th.
proof fn lemma_faults_step(nodes: Seq<NodeModel>, n: int)
    requires
        0 < n <= nodes.len(),
    ensures
        faults_upto(nodes, n as nat) == faults_upto(nodes, (n - 1) as nat) + faults(nodes[n - 1]),
{
}

pub proof fn lemma_resolve_run_balanced(tokens: Seq<Token>, run: RunModel, lo: int)
    requires
        run.items.len() > 0,
    ensures
        balanced(run_owed(run), resolve_run(tokens, run, lo)),
{
    let codes = codes_of(run.items);
    lemma_faults_step(item_nodes(run.items), 1);
    lemma_faults_of(resolve_run(tokens, run, lo).0);
    if run.items.len() == 1 {
    } else if run.items.len() <= MAX_RUN && alternates(resolver_ops(), codes) && shape_codes(
        pratt_shape(resolver_ops(), codes),
    ) == codes && obeys_table(pratt_shape(resolver_ops(), codes)) {
        lemma_assemble_balanced(
            tokens,
            pratt_shape(resolver_ops(), codes),
            run.items,
            run.items.len() as int,
            run.cur,
        );
    } else {
    }
}

pub proof fn lemma_push_operator_owed(run: RunModel, line: int)
    ensures
        run_owed(push_operator(run, line)) == run_owed(run),
{
    let item = ItemModel::Operator { token: run.cur.next, line };
    assert(item_nodes(run.items.push(item)) =~= item_nodes(run.items).push(item_node(item)));
    lemma_faults_push(item_nodes(run.items), item_node(item));
}

pub proof fn lemma_push_operand_owed(run: RunModel, r: (NodeModel, CursorModel))
    requires
        balanced(run.cur.diags.len() as int, r),
    ensures
        run_owed(push_operand(run, r)) == run_owed(run),
{
    let item = ItemModel::Operand(r.0);
    assert(item_nodes(run.items.push(item)) =~= item_nodes(run.items).push(item_node(item)));
    lemma_faults_push(item_nodes(run.items), r.0);
}

pub proof fn lemma_skip_owed(tokens: Seq<Token>, l: ListModel, in_block: bool)
    ensures
        owed(skip(tokens, l, in_block)) == owed(l),
    decreases tokens.len() - l.cur.next,
{
    if !ends_statement(kind_at(tokens, l.cur.next), in_block) {
        lemma_take_owed(tokens, l);
        lemma_skip_owed(tokens, take(tokens, l), in_block);
    }
}

pub proof fn lemma_statements_owed(tokens: Seq<Token>, l: ListModel, depth: nat, in_block: bool)
    ensures
        owed(statements(tokens, l, depth, in_block)) == owed(l),
    decreases depth, tokens.len() - l.cur.next, 12int,
{
    let kind = kind_at(tokens, l.cur.next);
    if kind == TokenKind::Eof || (in_block && kind == TokenKind::Punct(Punct::RBrace)) {
    } else if kind == TokenKind::Newline || kind == TokenKind::Punct(Punct::Semicolon) {
        lemma_take_owed(tokens, l);
        lemma_statements_owed(tokens, take(tokens, l), depth, in_block);
    } else {
        lemma_statement_balanced(tokens, l.cur, depth, in_block);
        let r = statement(tokens, l.cur, depth, in_block);
        lemma_append_owed(l, r);
        if l.cur.next < r.1.next <= tokens.len() {
            lemma_statements_owed(tokens, append(l, r), depth, in_block);
        }
    }
}

pub proof fn lemma_statement_balanced(tokens: Seq<Token>, cur: CursorModel, depth: nat, in_block: bool)
    ensures
        balanced(cur.diags.len() as int, statement(tokens, cur, depth, in_block)),
    decreases depth, tokens.len() - cur.next, 11int,
{
    let start = CursorModel { ok: true, ..cur };
    lemma_expr_balanced(tokens, start, depth);
    let r = expr(tokens, start, depth);
    if r.1.ok && cur.next < r.1.next && ends_statement(kind_at(tokens, r.1.next), in_block) {
    } else {
        let first = ListModel {
            items: seq![r.0],
            cur: report(tokens, r.1, DiagnosticKind::MalformedStatement),
        };
        lemma_single_owed(r.0, first.cur);
        lemma_skip_owed(tokens, first, in_block);
        lemma_close_faults(skip(tokens, first, in_block), NodeKind::Error, cur.next);
    }
}

pub proof fn lemma_expr_balanced(tokens: Seq<Token>, cur: CursorModel, depth: nat)
    ensures
        balanced(cur.diags.len() as int, expr(tokens, cur, depth)),
    decreases depth, tokens.len() - cur.next, 10int,
{
    let start = RunModel { items: Seq::empty(), cur };
    assert(item_nodes(start.items) =~= Seq::empty());
    lemma_collect_owed(tokens, start, depth);
    lemma_resolve_run_balanced(tokens, collect(tokens, start, depth), cur.next);
}

pub proof fn lemma_collect_owed(tokens: Seq<Token>, run: RunModel, depth: nat)
    ensures
        run_owed(collect(tokens, run, depth)) == run_owed(run),
        collect(tokens, run, depth).items.len() > 0,
    decreases depth, tokens.len() - run.cur.next, 9int,
{
    let kind = kind_at(tokens, run.cur.next);
    if kind != TokenKind::Eof && operator_line(kind, true).is_some() {
        let line = operator_line(kind, true).unwrap();
        lemma_push_operator_owed(run, line);
        lemma_collect_owed(tokens, push_operator(run, line), depth);
    } else {
        lemma_operand_balanced(tokens, run.cur, depth);
        let r = operand(tokens, run.cur, depth);
        lemma_push_operand_owed(run, r);
        let with = push_operand(run, r);
        let after = kind_at(tokens, r.1.next);
        if after != TokenKind::Eof && operator_line(after, false).is_some() && run.cur.next
            <= r.1.next {
            let line = operator_line(after, false).unwrap();
            lemma_push_operator_owed(with, line);
            lemma_collect_owed(tokens, push_operator(with, line), depth);
        }
    }
}

pub proof fn lemma_operand_balanced(tokens: Seq<Token>, cur: CursorModel, depth: nat)
    ensures
        balanced(cur.diags.len() as int, operand(tokens, cur, depth)),
    decreases depth, tokens.len() - cur.next, 7int,
{
    lemma_primary_balanced(tokens, cur, depth);
    let r = primary(tokens, cur, depth);
    if cur.next <= r.1.next <= tokens.len() {
        lemma_postfix_balanced(tokens, r.0, r.1, depth, cur.next, cur.diags.len() as int);
    }
}

pub proof fn lemma_primary_balanced(tokens: Seq<Token>, cur: CursorModel, depth: nat)
    ensures
        balanced(cur.diags.len() as int, primary(tokens, cur, depth)),
    decreases depth, tokens.len() - cur.next, 6int,
{
    let kind = kind_at(tokens, cur.next);
    if is_atom(kind) {
        lemma_token_leaf_balanced(tokens, cur);
    } else if opens_construct(kind) {
        lemma_construct_balanced(tokens, cur, depth);
    } else {
        lemma_missing_balanced(tokens, cur, DiagnosticKind::MissingOperand);
    }
}

pub proof fn lemma_postfix_balanced(
    tokens: Seq<Token>,
    object: NodeModel,
    cur: CursorModel,
    depth: nat,
    lo: int,
    before: int,
)
    requires
        balanced(before, (object, cur)),
    ensures
        balanced(before, postfix(tokens, object, cur, depth, lo)),
    decreases depth, tokens.len() - cur.next, 5int,
{
    let kind = kind_at(tokens, cur.next);
    if opens_arguments(kind) {
        lemma_arguments_balanced(tokens, object, cur, depth, lo, before);
        let r = arguments(tokens, object, cur, depth, lo);
        if cur.next < r.1.next <= tokens.len() {
            lemma_postfix_balanced(tokens, r.0, r.1, depth, lo, before);
        }
    } else if is_access(kind) {
        lemma_member_balanced(tokens, object, cur, lo, before);
        let r = member(tokens, object, cur, lo);
        lemma_postfix_balanced(tokens, r.0, r.1, depth, lo, before);
    }
}

pub proof fn lemma_arguments_balanced(
    tokens: Seq<Token>,
    object: NodeModel,
    cur: CursorModel,
    depth: nat,
    lo: int,
    before: int,
)
    requires
        balanced(before, (object, cur)),
    ensures
        balanced(before, arguments(tokens, object, cur, depth, lo)),
    decreases depth, tokens.len() - cur.next, 4int,
{
    if depth == 0 {
        let whole = ListModel {
            items: seq![object],
            cur: report(tokens, cur, DiagnosticKind::TooDeep),
        };
        lemma_single_owed(object, whole.cur);
        lemma_close_faults(whole, NodeKind::Error, lo);
    } else {
        let d = (depth - 1) as nat;
        let kind = kind_at(tokens, cur.next);
        let first = ListModel { items: seq![object], cur };
        lemma_single_owed(object, cur);
        lemma_take_owed(tokens, first);
        lemma_elements_owed(tokens, take(tokens, first), d, false, false);
        let inner = elements(tokens, take(tokens, first), d, false, false);
        lemma_expect_owed(tokens, inner, Punct::RParen);
        lemma_expect_owed(tokens, inner, Punct::RBracket);
        let once = expect(tokens, inner, Punct::RBracket);
        lemma_expect_owed(tokens, once, Punct::RBracket);
        lemma_close_faults(expect(tokens, inner, Punct::RParen), NodeKind::Call, lo);
        lemma_close_faults(once, NodeKind::Index, lo);
        lemma_close_faults(expect(tokens, once, Punct::RBracket), NodeKind::Index, lo);
    }
}

pub proof fn lemma_elements_owed(
    tokens: Seq<Token>,
    l: ListModel,
    depth: nat,
    parameters: bool,
    after: bool,
)
    ensures
        owed(elements(tokens, l, depth, parameters, after)) == owed(l),
    decreases depth, tokens.len() - l.cur.next, 13int,
{
    let kind = kind_at(tokens, l.cur.next);
    if ends_list(kind) {
    } else if kind == TokenKind::Punct(Punct::Comma) {
        lemma_take_owed(tokens, l);
        lemma_elements_owed(tokens, take(tokens, l), depth, parameters, false);
    } else {
        let gap = missing(tokens, l.cur, DiagnosticKind::Expected(Punct::Comma));
        lemma_missing_balanced(tokens, l.cur, DiagnosticKind::Expected(Punct::Comma));
        lemma_append_owed(l, gap);
        let due = if after {
            append(l, gap)
        } else {
            l
        };
        if !parameters && names_nothing(tokens, due.cur.next) {
            assert(owed(list_at(due.cur)) == due.cur.diags.len());
            lemma_take_owed(tokens, list_at(due.cur));
            lemma_take_owed(tokens, take(tokens, list_at(due.cur)));
            lemma_close_faults(
                take(tokens, take(tokens, list_at(due.cur))),
                NodeKind::Argument,
                due.cur.next,
            );
            lemma_append_owed(due, bare_argument(tokens, due.cur));
            lemma_elements_owed(
                tokens,
                append(due, bare_argument(tokens, due.cur)),
                depth,
                parameters,
                true,
            );
        } else {
            lemma_expr_balanced(tokens, due.cur, depth);
            let r = expr(tokens, due.cur, depth);
            lemma_element_balanced(tokens, r, parameters, due.cur.diags.len() as int);
            lemma_append_owed(due, element(tokens, r, parameters));
            let with = append(due, element(tokens, r, parameters));
            if l.cur.next < r.1.next <= tokens.len() {
                lemma_elements_owed(tokens, with, depth, parameters, true);
            }
        }
    }
}

pub proof fn lemma_condition_owed(tokens: Seq<Token>, l: ListModel, depth: nat)
    ensures
        owed(condition(tokens, l, depth)) == owed(l),
    decreases depth, tokens.len() - l.cur.next, 14int,
{
    lemma_expect_owed(tokens, l, Punct::LParen);
    let open = expect(tokens, l, Punct::LParen);
    lemma_expr_balanced(tokens, open.cur, depth);
    lemma_append_owed(open, expr(tokens, open.cur, depth));
    lemma_expect_owed(tokens, append(open, expr(tokens, open.cur, depth)), Punct::RParen);
}

/// The list with one more expression.
pub proof fn lemma_append_expr_owed(tokens: Seq<Token>, l: ListModel, depth: nat)
    ensures
        owed(append(l, expr(tokens, l.cur, depth))) == owed(l),
    decreases depth, tokens.len() - l.cur.next, 11int,
{
    lemma_expr_balanced(tokens, l.cur, depth);
    lemma_append_owed(l, expr(tokens, l.cur, depth));
}

pub proof fn lemma_construct_balanced(tokens: Seq<Token>, cur: CursorModel, depth: nat)
    ensures
        balanced(cur.diags.len() as int, construct(tokens, cur, depth)),
    decreases depth, tokens.len() - cur.next, 4int,
{
    let kind = kind_at(tokens, cur.next);
    let lo = cur.next;
    if depth == 0 {
        lemma_missing_balanced(tokens, cur, DiagnosticKind::TooDeep);
    } else {
        let d = (depth - 1) as nat;
        assert(owed(list_at(cur)) == cur.diags.len());
        if kind == TokenKind::Punct(Punct::LParen) {
            lemma_condition_owed(tokens, list_at(cur), d);
            lemma_close_faults(condition(tokens, list_at(cur), d), NodeKind::Paren, lo);
        } else if kind == TokenKind::Punct(Punct::LBrace) {
            lemma_take_owed(tokens, list_at(cur));
            lemma_statements_owed(tokens, take(tokens, list_at(cur)), d, true);
            let inner = statements(tokens, take(tokens, list_at(cur)), d, true);
            lemma_expect_owed(tokens, inner, Punct::RBrace);
            lemma_close_faults(expect(tokens, inner, Punct::RBrace), NodeKind::Block, lo);
        } else if kind == TokenKind::Keyword(Keyword::Repeat) {
            lemma_take_owed(tokens, list_at(cur));
            let word = take(tokens, list_at(cur));
            lemma_append_expr_owed(tokens, word, d);
            lemma_close_faults(append(word, expr(tokens, word.cur, d)), NodeKind::Repeat, lo);
        } else if kind == TokenKind::Keyword(Keyword::Function) {
            lemma_take_owed(tokens, list_at(cur));
            let word = take(tokens, list_at(cur));
            lemma_take_owed(tokens, word);
            lemma_elements_owed(tokens, take(tokens, word), d, true, false);
            lemma_expect_owed(
                tokens,
                elements(tokens, take(tokens, word), d, true, false),
                Punct::RParen,
            );
            lemma_expect_owed(tokens, word, Punct::LParen);
            let head = if kind_at(tokens, word.cur.next) == TokenKind::Punct(Punct::LParen) {
                expect(
                    tokens,
                    elements(tokens, take(tokens, word), d, true, false),
                    Punct::RParen,
                )
            } else {
                expect(tokens, word, Punct::LParen)
            };
            lemma_append_expr_owed(tokens, head, d);
            lemma_close_faults(append(head, expr(tokens, head.cur, d)), NodeKind::FunctionDef, lo);
        } else {
            lemma_take_owed(tokens, list_at(cur));
            lemma_condition_owed(tokens, take(tokens, list_at(cur)), d);
            let head = condition(tokens, take(tokens, list_at(cur)), d);
            lemma_append_expr_owed(tokens, head, d);
            let body = append(head, expr(tokens, head.cur, d));
            lemma_take_owed(tokens, body);
            let word = take(tokens, body);
            lemma_append_expr_owed(tokens, word, d);
            lemma_close_faults(append(word, expr(tokens, word.cur, d)), NodeKind::If, lo);
            lemma_close_faults(body, NodeKind::If, lo);
            lemma_close_faults(body, NodeKind::For, lo);
            lemma_close_faults(body, NodeKind::While, lo);
        }
    }
}

/// The tree of a whole text holds one `Error` or `Missing` node for each
/// diagnostic.
pub proof fn lemma_program_balanced(tokens: Seq<Token>)
    ensures
        program(tokens).1.diags.len() == faults(program(tokens).0),
{
    let start = list_at(CursorModel { next: 0, ok: true, diags: Seq::empty() });
    assert(owed(start) == 0);
    lemma_statements_owed(tokens, start, MAX_DEPTH as nat, false);
    let body = statements(tokens, start, MAX_DEPTH as nat, false);
    lemma_take_owed(tokens, body);
    lemma_close_faults(take(tokens, body), NodeKind::Program, 0);
}

} // verus!
