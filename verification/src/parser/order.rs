//! Precedence in the tree: no operator stands over an operand that the
//! operator table does not let it have.
//!
//! A binary operator has on its left only what binds tighter, or a binary
//! operator of its own tier if the tier does not group to the right; on its
//! right only what binds tighter, or one of its own tier if the tier groups to
//! the right, or a prefix operator. A prefix operator has no looser binary
//! operator below it. What stands in parentheses, in a call or in any other
//! construct is an operand and free of this.
use crate::parser::diagnostic::DiagnosticKind;
use crate::parser::grammar::{
    append, arguments, assemble, bare_argument, close, codes_of, collect, condition, construct,
    element, elements, ends_list, ends_statement, expect, expr, is_access, is_atom, item_code,
    item_node, kind_at, list_at, member, missing, names_nothing, opens_arguments,
    opens_construct, operand, operator_line, postfix, primary, program, push_operand,
    push_operator, report, resolve_run, skip, statement, statements, take, token_leaf,
    CursorModel, ItemModel, ListModel, RunModel, MAX_DEPTH, MAX_RUN,
};
use crate::parser::operators::{line_of_operator, table_entry, Arity, Assoc, RESOLVED_LEN};
use crate::parser::pratt::{
    alternates, obeys_table, pratt_shape, resolver_ops, shape_codes, Shape, OPERAND,
};
use crate::parser::token::{Keyword, Operator, Punct, Token, TokenKind};
use crate::parser::tree::{line_tier, unary_of, NodeKind, NodeModel};
use vstd::prelude::*;

verus! {

/// The line of the operator table for token `i` as a prefix (`prefix`) or a
/// binary operator; `RESOLVED_LEN` if it is none.
pub open spec fn line_at(tokens: Seq<Token>, i: int, prefix: bool) -> int {
    match kind_at(tokens, i) {
        TokenKind::Operator(o) => line_of_operator(o, prefix, 0),
        _ => RESOLVED_LEN as int,
    }
}

/// A left operand, a binary operator and a right operand.
pub open spec fn is_binary(n: NodeModel) -> bool {
    (n.kind == NodeKind::Binary || n.kind == NodeKind::Assignment) && n.children.len() == 3
}

/// A prefix operator and its operand.
pub open spec fn is_unary(n: NodeModel) -> bool {
    n.kind == NodeKind::Unary && n.children.len() == 2
}

/// Neither a binary nor a prefix operator over its operands.
pub open spec fn is_plain(n: NodeModel) -> bool {
    n.kind != NodeKind::Binary && n.kind != NodeKind::Assignment && n.kind != NodeKind::Unary
}

/// The tier of the operator at the root of `n`.
pub open spec fn root_tier(tokens: Seq<Token>, n: NodeModel) -> int {
    if is_binary(n) {
        line_tier(line_at(tokens, n.children[1].lo, false))
    } else if is_unary(n) {
        line_tier(line_at(tokens, n.children[0].lo, true))
    } else {
        0
    }
}

/// Whether the operator at the root of `n`, if there is one, has operands
/// that the operator table lets it have.
pub open spec fn in_order(tokens: Seq<Token>, n: NodeModel) -> bool {
    if is_binary(n) {
        let line = line_at(tokens, n.children[1].lo, false);
        let left = n.children[0];
        let right = n.children[2];
        &&& 0 <= line < RESOLVED_LEN
        &&& is_unary(left) ==> root_tier(tokens, left) > line_tier(line)
        &&& is_binary(left) ==> root_tier(tokens, left) > line_tier(line) || (root_tier(
            tokens,
            left,
        ) == line_tier(line) && table_entry(line).assoc != Assoc::Right)
        &&& is_binary(right) ==> root_tier(tokens, right) > line_tier(line) || (root_tier(
            tokens,
            right,
        ) == line_tier(line) && table_entry(line).assoc == Assoc::Right)
    } else if is_unary(n) {
        let line = line_at(tokens, n.children[0].lo, true);
        &&& 0 <= line < RESOLVED_LEN
        &&& is_binary(n.children[1]) ==> root_tier(tokens, n.children[1]) >= line_tier(line)
    } else {
        true
    }
}

/// Whether every operator in the tree has operands that the operator table
/// lets it have.
pub open spec fn ordered(tokens: Seq<Token>, n: NodeModel) -> bool
    decreases n,
{
    &&& in_order(tokens, n)
    &&& forall|i: int| 0 <= i < n.children.len() ==> ordered(tokens, #[trigger] n.children[i])
}

pub open spec fn all_ordered(tokens: Seq<Token>, nodes: Seq<NodeModel>) -> bool {
    forall|i: int| 0 <= i < nodes.len() ==> ordered(tokens, #[trigger] nodes[i])
}

/// Every operator of the run is filed under its own line of the table, and
/// every operand is in order and no operator over operands itself.
pub open spec fn labelled(tokens: Seq<Token>, items: Seq<ItemModel>) -> bool {
    forall|k: int|
        0 <= k < items.len() ==> match #[trigger] items[k] {
            ItemModel::Operand(n) => ordered(tokens, n) && is_plain(n),
            ItemModel::Operator { token, line } => 0 <= line < RESOLVED_LEN && line_at(
                tokens,
                token,
                table_entry(line).arity == Arity::Prefix,
            ) == line,
        }
}

/// A node that has no operator at its root is in order if its children are.
pub proof fn lemma_plain_ordered(tokens: Seq<Token>, n: NodeModel)
    requires
        is_plain(n),
        all_ordered(tokens, n.children),
    ensures
        ordered(tokens, n),
{
}

pub proof fn lemma_all_ordered_push(tokens: Seq<Token>, nodes: Seq<NodeModel>, n: NodeModel)
    requires
        all_ordered(tokens, nodes),
        ordered(tokens, n),
    ensures
        all_ordered(tokens, nodes.push(n)),
{
    assert forall|i: int| 0 <= i < nodes.push(n).len() implies ordered(
        tokens,
        #[trigger] nodes.push(n)[i],
    ) by {
        if i < nodes.len() {
            assert(ordered(tokens, nodes[i]));
        }
    }
}

/// The items in front of `end` stand where `shape` has its operands and
/// operators, each operator under the line that the shape names.
pub open spec fn reads(tokens: Seq<Token>, shape: Shape, items: Seq<ItemModel>, end: int) -> bool
    decreases shape,
{
    match shape {
        Shape::Operand => 1 <= end <= items.len() && items[end - 1] is Operand,
        Shape::Prefix(rule, operand) => {
            let at = end - shape_codes(*operand).len() - 1;
            &&& reads(tokens, *operand, items, end)
            &&& 0 <= at < items.len()
            &&& items[at] matches ItemModel::Operator { token, line } && line == rule - 1
        },
        Shape::Infix(left, rule, right) => {
            let at = end - shape_codes(*right).len() - 1;
            &&& reads(tokens, *right, items, end)
            &&& 0 <= at < items.len()
            &&& items[at] matches ItemModel::Operator { token, line } && line == rule - 1
            &&& reads(tokens, *left, items, at)
        },
    }
}

/// A shape that reads as the items in front of `end` do has its operands and
/// operators where the items have theirs.
pub proof fn lemma_reads(tokens: Seq<Token>, shape: Shape, items: Seq<ItemModel>, end: int)
    requires
        obeys_table(shape),
        labelled(tokens, items),
        shape_codes(shape).len() <= end <= items.len(),
        shape_codes(shape) == codes_of(items).subrange(end - shape_codes(shape).len(), end),
    ensures
        reads(tokens, shape, items, end),
    decreases shape,
{
    let all = codes_of(items);
    let from = end - shape_codes(shape).len();
    match shape {
        Shape::Operand => {
            assert(shape_codes(shape)[0] == all[end - 1]);
            assert(item_code(items[end - 1]) == OPERAND);
        },
        Shape::Prefix(rule, operand) => {
            let rest = shape_codes(*operand);
            assert(shape_codes(shape)[0] == all[from]);
            assert(rest =~= all.subrange(from + 1, end)) by {
                assert forall|i: int| 0 <= i < rest.len() implies rest[i] == all.subrange(
                    from + 1,
                    end,
                )[i] by {
                    assert(shape_codes(shape)[i + 1] == rest[i]);
                }
            }
            lemma_reads(tokens, *operand, items, end);
            assert(item_code(items[from]) == rule);
        },
        Shape::Infix(left, rule, right) => {
            let l = shape_codes(*left);
            let r = shape_codes(*right);
            let at = end - r.len() - 1;
            assert(shape_codes(shape)[l.len() as int] == all[at]);
            assert(r =~= all.subrange(at + 1, end)) by {
                assert forall|i: int| 0 <= i < r.len() implies r[i] == all.subrange(at + 1, end)[i] by {
                    assert(shape_codes(shape)[l.len() + 1 + i] == r[i]);
                }
            }
            assert(l =~= all.subrange(from, at)) by {
                assert forall|i: int| 0 <= i < l.len() implies l[i] == all.subrange(from, at)[i] by {
                    assert(shape_codes(shape)[i] == l[i]);
                }
            }
            lemma_reads(tokens, *right, items, end);
            lemma_reads(tokens, *left, items, at);
            assert(item_code(items[at]) == rule);
        },
    }
}

/// What a shape that obeys the table is put together to: a node in order,
/// with the shape's operator at its root unless the operator was rejected.
pub open spec fn takes_after(tokens: Seq<Token>, shape: Shape, n: NodeModel) -> bool {
    match shape {
        Shape::Operand => is_plain(n),
        Shape::Prefix(rule, _) => is_unary(n) && root_tier(tokens, n) == line_tier(rule - 1),
        Shape::Infix(_, rule, _) => n.kind == NodeKind::Error || (is_binary(n) && root_tier(
            tokens,
            n,
        ) == line_tier(rule - 1)),
    }
}

pub proof fn lemma_assemble_ordered(
    tokens: Seq<Token>,
    shape: Shape,
    items: Seq<ItemModel>,
    end: int,
    cur: CursorModel,
)
    requires
        obeys_table(shape),
        labelled(tokens, items),
        reads(tokens, shape, items, end),
    ensures
        ordered(tokens, assemble(tokens, shape, items, end, cur).node),
        takes_after(tokens, shape, assemble(tokens, shape, items, end, cur).node),
        assemble(tokens, shape, items, end, cur).start == end - shape_codes(shape).len(),
    decreases shape,
{
    match shape {
        Shape::Operand => {},
        Shape::Prefix(rule, operand) => {
            lemma_assemble_ordered(tokens, *operand, items, end, cur);
            let a = assemble(tokens, *operand, items, end, cur);
            let op = item_node(items[a.start - 1]);
            let node = unary_of(op, a.node);
            assert(node.children[0] == op);
            assert(node.children[1] == a.node);
            assert(ordered(tokens, op));
            assert(in_order(tokens, node));
        },
        Shape::Infix(left, rule, right) => {
            lemma_assemble_ordered(tokens, *right, items, end, cur);
            let b = assemble(tokens, *right, items, end, cur);
            lemma_assemble_ordered(tokens, *left, items, b.start - 1, b.cur);
            let a = assemble(tokens, *left, items, b.start - 1, b.cur);
            let op = item_node(items[b.start - 1]);
            let node = assemble(tokens, shape, items, end, cur).node;
            assert(node.children[0] == a.node);
            assert(node.children[1] == op);
            assert(node.children[2] == b.node);
            assert(ordered(tokens, op));
            assert(in_order(tokens, node));
        },
    }
}

pub proof fn lemma_resolve_run_ordered(tokens: Seq<Token>, run: RunModel, lo: int)
    requires
        run.items.len() > 0,
        labelled(tokens, run.items),
        run.items.last() is Operand,
    ensures
        ordered(tokens, resolve_run(tokens, run, lo).0),
{
    let codes = codes_of(run.items);
    if run.items.len() == 1 {
    } else if run.items.len() <= MAX_RUN && alternates(resolver_ops(), codes) && shape_codes(
        pratt_shape(resolver_ops(), codes),
    ) == codes && obeys_table(pratt_shape(resolver_ops(), codes)) {
        let shape = pratt_shape(resolver_ops(), codes);
        assert(codes.subrange(0, codes.len() as int) =~= codes);
        lemma_reads(tokens, shape, run.items, run.items.len() as int);
        lemma_assemble_ordered(tokens, shape, run.items, run.items.len() as int, run.cur);
    } else {
        let flat = resolve_run(tokens, run, lo).0;
        assert forall|i: int| 0 <= i < flat.children.len() implies ordered(
            tokens,
            #[trigger] flat.children[i],
        ) by {
            assert(flat.children[i] == item_node(run.items[i]));
        }
    }
}

pub proof fn lemma_token_leaf_ordered(tokens: Seq<Token>, cur: CursorModel)
    ensures
        ordered(tokens, token_leaf(tokens, cur).0),
        is_plain(token_leaf(tokens, cur).0),
{
}

pub proof fn lemma_missing_ordered(tokens: Seq<Token>, cur: CursorModel, kind: DiagnosticKind)
    ensures
        ordered(tokens, missing(tokens, cur, kind).0),
        is_plain(missing(tokens, cur, kind).0),
{
}

pub proof fn lemma_append_ordered(tokens: Seq<Token>, l: ListModel, r: (NodeModel, CursorModel))
    requires
        all_ordered(tokens, l.items),
        ordered(tokens, r.0),
    ensures
        all_ordered(tokens, append(l, r).items),
{
    lemma_all_ordered_push(tokens, l.items, r.0);
}

pub proof fn lemma_take_ordered(tokens: Seq<Token>, l: ListModel)
    requires
        all_ordered(tokens, l.items),
    ensures
        all_ordered(tokens, take(tokens, l).items),
{
    lemma_token_leaf_ordered(tokens, l.cur);
    lemma_append_ordered(tokens, l, token_leaf(tokens, l.cur));
}

pub proof fn lemma_expect_ordered(tokens: Seq<Token>, l: ListModel, p: Punct)
    requires
        all_ordered(tokens, l.items),
    ensures
        all_ordered(tokens, expect(tokens, l, p).items),
{
    lemma_take_ordered(tokens, l);
    lemma_missing_ordered(tokens, l.cur, DiagnosticKind::Expected(p));
    lemma_append_ordered(tokens, l, missing(tokens, l.cur, DiagnosticKind::Expected(p)));
}

pub proof fn lemma_close_ordered(tokens: Seq<Token>, l: ListModel, kind: NodeKind, lo: int)
    requires
        all_ordered(tokens, l.items),
        kind != NodeKind::Binary && kind != NodeKind::Assignment && kind != NodeKind::Unary,
    ensures
        ordered(tokens, close(l, kind, lo).0),
        is_plain(close(l, kind, lo).0),
{
}

pub proof fn lemma_single_ordered(tokens: Seq<Token>, n: NodeModel)
    requires
        ordered(tokens, n),
    ensures
        all_ordered(tokens, seq![n]),
{
}

pub proof fn lemma_member_ordered(tokens: Seq<Token>, object: NodeModel, cur: CursorModel, lo: int)
    requires
        ordered(tokens, object),
    ensures
        ordered(tokens, member(tokens, object, cur, lo).0),
        is_plain(member(tokens, object, cur, lo).0),
{
    let first = ListModel { items: seq![object], cur };
    lemma_single_ordered(tokens, object);
    lemma_take_ordered(tokens, first);
    let l = take(tokens, first);
    lemma_take_ordered(tokens, l);
    lemma_missing_ordered(tokens, l.cur, DiagnosticKind::ExpectedName);
    lemma_append_ordered(tokens, l, missing(tokens, l.cur, DiagnosticKind::ExpectedName));
    lemma_close_ordered(tokens, take(tokens, l), NodeKind::Member, lo);
    lemma_close_ordered(
        tokens,
        append(l, missing(tokens, l.cur, DiagnosticKind::ExpectedName)),
        NodeKind::Member,
        lo,
    );
}

pub proof fn lemma_element_ordered(tokens: Seq<Token>, r: (NodeModel, CursorModel), parameters: bool)
    requires
        ordered(tokens, r.0),
    ensures
        ordered(tokens, element(tokens, r, parameters).0),
{
    lemma_single_ordered(tokens, r.0);
}

pub proof fn lemma_bare_argument_ordered(tokens: Seq<Token>, cur: CursorModel)
    ensures
        ordered(tokens, bare_argument(tokens, cur).0),
{
    assert(all_ordered(tokens, list_at(cur).items));
    lemma_take_ordered(tokens, list_at(cur));
    lemma_take_ordered(tokens, take(tokens, list_at(cur)));
    lemma_close_ordered(
        tokens,
        take(tokens, take(tokens, list_at(cur))),
        NodeKind::Argument,
        cur.next,
    );
}

pub proof fn lemma_push_operator_labelled(tokens: Seq<Token>, run: RunModel, line: int, prefix: bool)
    requires
        labelled(tokens, run.items),
        operator_line(kind_at(tokens, run.cur.next), prefix) == Some(line),
    ensures
        labelled(tokens, push_operator(run, line).items),
{
    lemma_line_found(tokens, run.cur.next, prefix);
    let next = push_operator(run, line).items;
    assert forall|k: int| 0 <= k < next.len() implies match #[trigger] next[k] {
        ItemModel::Operand(n) => ordered(tokens, n) && is_plain(n),
        ItemModel::Operator { token, line } => 0 <= line < RESOLVED_LEN && line_at(
            tokens,
            token,
            table_entry(line).arity == Arity::Prefix,
        ) == line,
    } by {
        if k < run.items.len() {
            assert(next[k] == run.items[k]);
        }
    }
}

/// The line that is found for an operator holds an operator of the kind that
/// was looked for.
proof fn lemma_line_found(tokens: Seq<Token>, i: int, prefix: bool)
    requires
        operator_line(kind_at(tokens, i), prefix).is_some(),
    ensures
        (table_entry(operator_line(kind_at(tokens, i), prefix).unwrap()).arity == Arity::Prefix)
            == prefix,
        line_at(tokens, i, prefix) == operator_line(kind_at(tokens, i), prefix).unwrap(),
        0 <= line_at(tokens, i, prefix) < RESOLVED_LEN,
{
    match kind_at(tokens, i) {
        TokenKind::Operator(o) => {
            lemma_line_of_operator(o, prefix, 0);
        },
        _ => {},
    }
}

proof fn lemma_line_of_operator(o: Operator, prefix: bool, from: int)
    requires
        0 <= from <= RESOLVED_LEN,
    ensures
        from <= line_of_operator(o, prefix, from) <= RESOLVED_LEN,
        line_of_operator(o, prefix, from) < RESOLVED_LEN ==> table_entry(
            line_of_operator(o, prefix, from),
        ).symbol == o && (table_entry(line_of_operator(o, prefix, from)).arity == Arity::Prefix)
            == prefix,
    decreases RESOLVED_LEN - from,
{
    if from < RESOLVED_LEN && !(table_entry(from).symbol == o && (table_entry(from).arity
        == Arity::Prefix) == prefix) {
        lemma_line_of_operator(o, prefix, from + 1);
    }
}

pub proof fn lemma_push_operand_labelled(tokens: Seq<Token>, run: RunModel, r: (NodeModel, CursorModel))
    requires
        labelled(tokens, run.items),
        ordered(tokens, r.0),
        is_plain(r.0),
    ensures
        labelled(tokens, push_operand(run, r).items),
        push_operand(run, r).items.last() is Operand,
{
    let next = push_operand(run, r).items;
    assert forall|k: int| 0 <= k < next.len() implies match #[trigger] next[k] {
        ItemModel::Operand(n) => ordered(tokens, n) && is_plain(n),
        ItemModel::Operator { token, line } => 0 <= line < RESOLVED_LEN && line_at(
            tokens,
            token,
            table_entry(line).arity == Arity::Prefix,
        ) == line,
    } by {
        if k < run.items.len() {
            assert(next[k] == run.items[k]);
        }
    }
}

pub proof fn lemma_skip_ordered(tokens: Seq<Token>, l: ListModel, in_block: bool)
    requires
        all_ordered(tokens, l.items),
    ensures
        all_ordered(tokens, skip(tokens, l, in_block).items),
    decreases tokens.len() - l.cur.next,
{
    if !ends_statement(kind_at(tokens, l.cur.next), in_block) {
        lemma_take_ordered(tokens, l);
        lemma_skip_ordered(tokens, take(tokens, l), in_block);
    }
}

pub proof fn lemma_statements_ordered(tokens: Seq<Token>, l: ListModel, depth: nat, in_block: bool)
    requires
        all_ordered(tokens, l.items),
    ensures
        all_ordered(tokens, statements(tokens, l, depth, in_block).items),
    decreases depth, tokens.len() - l.cur.next, 12int,
{
    let kind = kind_at(tokens, l.cur.next);
    if kind == TokenKind::Eof || (in_block && kind == TokenKind::Punct(Punct::RBrace)) {
    } else if kind == TokenKind::Newline || kind == TokenKind::Punct(Punct::Semicolon) {
        lemma_take_ordered(tokens, l);
        lemma_statements_ordered(tokens, take(tokens, l), depth, in_block);
    } else {
        lemma_statement_ordered(tokens, l.cur, depth, in_block);
        let r = statement(tokens, l.cur, depth, in_block);
        lemma_append_ordered(tokens, l, r);
        if l.cur.next < r.1.next <= tokens.len() {
            lemma_statements_ordered(tokens, append(l, r), depth, in_block);
        }
    }
}

pub proof fn lemma_statement_ordered(tokens: Seq<Token>, cur: CursorModel, depth: nat, in_block: bool)
    ensures
        ordered(tokens, statement(tokens, cur, depth, in_block).0),
    decreases depth, tokens.len() - cur.next, 11int,
{
    let start = CursorModel { ok: true, ..cur };
    lemma_expr_ordered(tokens, start, depth);
    let r = expr(tokens, start, depth);
    if r.1.ok && cur.next < r.1.next && ends_statement(kind_at(tokens, r.1.next), in_block) {
    } else {
        let first = ListModel {
            items: seq![r.0],
            cur: report(tokens, r.1, DiagnosticKind::MalformedStatement),
        };
        lemma_single_ordered(tokens, r.0);
        lemma_skip_ordered(tokens, first, in_block);
        lemma_plain_ordered(tokens, statement(tokens, cur, depth, in_block).0);
    }
}

pub proof fn lemma_expr_ordered(tokens: Seq<Token>, cur: CursorModel, depth: nat)
    ensures
        ordered(tokens, expr(tokens, cur, depth).0),
    decreases depth, tokens.len() - cur.next, 10int,
{
    let start = RunModel { items: Seq::empty(), cur };
    lemma_collect_labelled(tokens, start, depth);
    lemma_resolve_run_ordered(tokens, collect(tokens, start, depth), cur.next);
}

pub proof fn lemma_collect_labelled(tokens: Seq<Token>, run: RunModel, depth: nat)
    requires
        labelled(tokens, run.items),
    ensures
        labelled(tokens, collect(tokens, run, depth).items),
        collect(tokens, run, depth).items.len() > 0,
        collect(tokens, run, depth).items.last() is Operand,
    decreases depth, tokens.len() - run.cur.next, 9int,
{
    let kind = kind_at(tokens, run.cur.next);
    if kind != TokenKind::Eof && operator_line(kind, true).is_some() {
        let line = operator_line(kind, true).unwrap();
        lemma_push_operator_labelled(tokens, run, line, true);
        lemma_collect_labelled(tokens, push_operator(run, line), depth);
    } else {
        lemma_operand_ordered(tokens, run.cur, depth);
        let r = operand(tokens, run.cur, depth);
        lemma_push_operand_labelled(tokens, run, r);
        let with = push_operand(run, r);
        let after = kind_at(tokens, r.1.next);
        if after != TokenKind::Eof && operator_line(after, false).is_some() && run.cur.next
            <= r.1.next {
            let line = operator_line(after, false).unwrap();
            lemma_push_operator_labelled(tokens, with, line, false);
            lemma_collect_labelled(tokens, push_operator(with, line), depth);
        }
    }
}

pub proof fn lemma_operand_ordered(tokens: Seq<Token>, cur: CursorModel, depth: nat)
    ensures
        ordered(tokens, operand(tokens, cur, depth).0),
        is_plain(operand(tokens, cur, depth).0),
    decreases depth, tokens.len() - cur.next, 7int,
{
    lemma_primary_ordered(tokens, cur, depth);
    let r = primary(tokens, cur, depth);
    if cur.next <= r.1.next <= tokens.len() {
        lemma_postfix_ordered(tokens, r.0, r.1, depth, cur.next);
    }
}

pub proof fn lemma_primary_ordered(tokens: Seq<Token>, cur: CursorModel, depth: nat)
    ensures
        ordered(tokens, primary(tokens, cur, depth).0),
        is_plain(primary(tokens, cur, depth).0),
    decreases depth, tokens.len() - cur.next, 6int,
{
    let kind = kind_at(tokens, cur.next);
    if is_atom(kind) {
        lemma_token_leaf_ordered(tokens, cur);
    } else if opens_construct(kind) {
        lemma_construct_ordered(tokens, cur, depth);
    } else {
        lemma_missing_ordered(tokens, cur, DiagnosticKind::MissingOperand);
    }
}

pub proof fn lemma_postfix_ordered(
    tokens: Seq<Token>,
    object: NodeModel,
    cur: CursorModel,
    depth: nat,
    lo: int,
)
    requires
        ordered(tokens, object),
        is_plain(object),
    ensures
        ordered(tokens, postfix(tokens, object, cur, depth, lo).0),
        is_plain(postfix(tokens, object, cur, depth, lo).0),
    decreases depth, tokens.len() - cur.next, 5int,
{
    let kind = kind_at(tokens, cur.next);
    if opens_arguments(kind) {
        lemma_arguments_ordered(tokens, object, cur, depth, lo);
        let r = arguments(tokens, object, cur, depth, lo);
        if cur.next < r.1.next <= tokens.len() {
            lemma_postfix_ordered(tokens, r.0, r.1, depth, lo);
        }
    } else if is_access(kind) {
        lemma_member_ordered(tokens, object, cur, lo);
        let r = member(tokens, object, cur, lo);
        lemma_postfix_ordered(tokens, r.0, r.1, depth, lo);
    }
}

pub proof fn lemma_arguments_ordered(
    tokens: Seq<Token>,
    object: NodeModel,
    cur: CursorModel,
    depth: nat,
    lo: int,
)
    requires
        ordered(tokens, object),
    ensures
        ordered(tokens, arguments(tokens, object, cur, depth, lo).0),
        is_plain(arguments(tokens, object, cur, depth, lo).0),
    decreases depth, tokens.len() - cur.next, 4int,
{
    lemma_single_ordered(tokens, object);
    if depth == 0 {
        let whole = ListModel {
            items: seq![object],
            cur: report(tokens, cur, DiagnosticKind::TooDeep),
        };
        lemma_close_ordered(tokens, whole, NodeKind::Error, lo);
    } else {
        let d = (depth - 1) as nat;
        let first = ListModel { items: seq![object], cur };
        lemma_take_ordered(tokens, first);
        lemma_elements_ordered(tokens, take(tokens, first), d, false, false);
        let inner = elements(tokens, take(tokens, first), d, false, false);
        lemma_expect_ordered(tokens, inner, Punct::RParen);
        lemma_expect_ordered(tokens, inner, Punct::RBracket);
        let once = expect(tokens, inner, Punct::RBracket);
        lemma_expect_ordered(tokens, once, Punct::RBracket);
        lemma_close_ordered(tokens, expect(tokens, inner, Punct::RParen), NodeKind::Call, lo);
        lemma_close_ordered(tokens, once, NodeKind::Index, lo);
        lemma_close_ordered(tokens, expect(tokens, once, Punct::RBracket), NodeKind::Index, lo);
    }
}

pub proof fn lemma_elements_ordered(
    tokens: Seq<Token>,
    l: ListModel,
    depth: nat,
    parameters: bool,
    after: bool,
)
    requires
        all_ordered(tokens, l.items),
    ensures
        all_ordered(tokens, elements(tokens, l, depth, parameters, after).items),
    decreases depth, tokens.len() - l.cur.next, 13int,
{
    let kind = kind_at(tokens, l.cur.next);
    if ends_list(kind) {
    } else if kind == TokenKind::Punct(Punct::Comma) {
        lemma_take_ordered(tokens, l);
        lemma_elements_ordered(tokens, take(tokens, l), depth, parameters, false);
    } else {
        let gap = missing(tokens, l.cur, DiagnosticKind::Expected(Punct::Comma));
        lemma_missing_ordered(tokens, l.cur, DiagnosticKind::Expected(Punct::Comma));
        lemma_append_ordered(tokens, l, gap);
        let due = if after {
            append(l, gap)
        } else {
            l
        };
        if !parameters && names_nothing(tokens, due.cur.next) {
            lemma_bare_argument_ordered(tokens, due.cur);
            lemma_append_ordered(tokens, due, bare_argument(tokens, due.cur));
            lemma_elements_ordered(
                tokens,
                append(due, bare_argument(tokens, due.cur)),
                depth,
                parameters,
                true,
            );
        } else {
            lemma_expr_ordered(tokens, due.cur, depth);
            let r = expr(tokens, due.cur, depth);
            lemma_element_ordered(tokens, r, parameters);
            lemma_append_ordered(tokens, due, element(tokens, r, parameters));
            let with = append(due, element(tokens, r, parameters));
            if l.cur.next < r.1.next <= tokens.len() {
                lemma_elements_ordered(tokens, with, depth, parameters, true);
            }
        }
    }
}

pub proof fn lemma_condition_ordered(tokens: Seq<Token>, l: ListModel, depth: nat)
    requires
        all_ordered(tokens, l.items),
    ensures
        all_ordered(tokens, condition(tokens, l, depth).items),
    decreases depth, tokens.len() - l.cur.next, 14int,
{
    lemma_expect_ordered(tokens, l, Punct::LParen);
    let open = expect(tokens, l, Punct::LParen);
    lemma_expr_ordered(tokens, open.cur, depth);
    lemma_append_ordered(tokens, open, expr(tokens, open.cur, depth));
    lemma_expect_ordered(tokens, append(open, expr(tokens, open.cur, depth)), Punct::RParen);
}

/// The list with one more expression.
pub proof fn lemma_append_expr_ordered(tokens: Seq<Token>, l: ListModel, depth: nat)
    requires
        all_ordered(tokens, l.items),
    ensures
        all_ordered(tokens, append(l, expr(tokens, l.cur, depth)).items),
    decreases depth, tokens.len() - l.cur.next, 11int,
{
    lemma_expr_ordered(tokens, l.cur, depth);
    lemma_append_ordered(tokens, l, expr(tokens, l.cur, depth));
}

pub proof fn lemma_construct_ordered(tokens: Seq<Token>, cur: CursorModel, depth: nat)
    ensures
        ordered(tokens, construct(tokens, cur, depth).0),
        is_plain(construct(tokens, cur, depth).0),
    decreases depth, tokens.len() - cur.next, 4int,
{
    let kind = kind_at(tokens, cur.next);
    let lo = cur.next;
    if depth == 0 {
        lemma_missing_ordered(tokens, cur, DiagnosticKind::TooDeep);
    } else {
        let d = (depth - 1) as nat;
        assert(all_ordered(tokens, list_at(cur).items));
        if kind == TokenKind::Punct(Punct::LParen) {
            lemma_condition_ordered(tokens, list_at(cur), d);
            lemma_close_ordered(tokens, condition(tokens, list_at(cur), d), NodeKind::Paren, lo);
        } else if kind == TokenKind::Punct(Punct::LBrace) {
            lemma_take_ordered(tokens, list_at(cur));
            lemma_statements_ordered(tokens, take(tokens, list_at(cur)), d, true);
            let inner = statements(tokens, take(tokens, list_at(cur)), d, true);
            lemma_expect_ordered(tokens, inner, Punct::RBrace);
            lemma_close_ordered(tokens, expect(tokens, inner, Punct::RBrace), NodeKind::Block, lo);
        } else if kind == TokenKind::Keyword(Keyword::Repeat) {
            lemma_take_ordered(tokens, list_at(cur));
            let word = take(tokens, list_at(cur));
            lemma_append_expr_ordered(tokens, word, d);
            lemma_close_ordered(tokens, append(word, expr(tokens, word.cur, d)), NodeKind::Repeat, lo);
        } else if kind == TokenKind::Keyword(Keyword::Function) {
            lemma_take_ordered(tokens, list_at(cur));
            let word = take(tokens, list_at(cur));
            lemma_take_ordered(tokens, word);
            lemma_elements_ordered(tokens, take(tokens, word), d, true, false);
            lemma_expect_ordered(
                tokens,
                elements(tokens, take(tokens, word), d, true, false),
                Punct::RParen,
            );
            lemma_expect_ordered(tokens, word, Punct::LParen);
            let head = if kind_at(tokens, word.cur.next) == TokenKind::Punct(Punct::LParen) {
                expect(
                    tokens,
                    elements(tokens, take(tokens, word), d, true, false),
                    Punct::RParen,
                )
            } else {
                expect(tokens, word, Punct::LParen)
            };
            lemma_append_expr_ordered(tokens, head, d);
            lemma_close_ordered(
                tokens,
                append(head, expr(tokens, head.cur, d)),
                NodeKind::FunctionDef,
                lo,
            );
        } else {
            lemma_take_ordered(tokens, list_at(cur));
            lemma_condition_ordered(tokens, take(tokens, list_at(cur)), d);
            let head = condition(tokens, take(tokens, list_at(cur)), d);
            lemma_append_expr_ordered(tokens, head, d);
            let body = append(head, expr(tokens, head.cur, d));
            lemma_take_ordered(tokens, body);
            let word = take(tokens, body);
            lemma_append_expr_ordered(tokens, word, d);
            lemma_close_ordered(tokens, append(word, expr(tokens, word.cur, d)), NodeKind::If, lo);
            lemma_close_ordered(tokens, body, NodeKind::If, lo);
            lemma_close_ordered(tokens, body, NodeKind::For, lo);
            lemma_close_ordered(tokens, body, NodeKind::While, lo);
        }
    }
}

/// In the tree of a whole text every operator has operands that the operator
/// table lets it have.
pub proof fn lemma_program_ordered(tokens: Seq<Token>)
    ensures
        ordered(tokens, program(tokens).0),
{
    let start = list_at(CursorModel { next: 0, ok: true, diags: Seq::empty() });
    assert(all_ordered(tokens, start.items));
    lemma_statements_ordered(tokens, start, MAX_DEPTH as nat, false);
    let body = statements(tokens, start, MAX_DEPTH as nat, false);
    lemma_take_ordered(tokens, body);
    lemma_close_ordered(tokens, take(tokens, body), NodeKind::Program, 0);
}

} // verus!
