//! The structural parser: the grammar, run on a vector of tokens.
use crate::parser::diagnostic::{Diagnostic, DiagnosticKind, Severity};
use crate::parser::grammar::{
    append, arguments, assemble, close, codes_of, collect, condition, construct, diag_at, element,
    elements, ends_list, ends_statement, expect, expr, is_access, is_atom, is_parameter,
    item_node, item_nodes, kind_at, leaf_kind, list_at, member, missing, names_nothing,
    opens_arguments,
    opens_construct, operand, operator_line, postfix, primary, program, report, resolve_run,
    skip, statement, statements, take, token_leaf, CursorModel, ItemModel, ListModel, RunModel,
    MAX_DEPTH, MAX_RUN,
};
use crate::parser::operators::{find_operator, operator_at, RESOLVED_LEN};
use crate::parser::pratt::{
    fits, obeys, pratt_ops, resolver_ops, shape_codes, shape_of, PrattTable, Shape, OPERAND,
};
use crate::parser::token::{Keyword, Operator, Punct, Token, TokenKind};
use crate::parser::tree::{
    joined, lemma_tiles_parent, lemma_tiles_push, model_of, tiles, views, Node, NodeKind,
    NodeModel,
};
use vstd::prelude::*;

verus! {

/// Where the parser stands.
pub struct Cursor {
    pub next: usize,
    pub ok: bool,
    pub diags: Vec<Diagnostic>,
}

impl View for Cursor {
    type V = CursorModel;

    open spec fn view(&self) -> CursorModel {
        CursorModel { next: self.next as int, ok: self.ok, diags: self.diags@ }
    }
}

/// Nodes gathered for a parent, and the cursor behind them.
pub struct List {
    pub items: Vec<Node>,
    pub cur: Cursor,
}

impl View for List {
    type V = ListModel;

    open spec fn view(&self) -> ListModel {
        ListModel { items: views(self.items@), cur: self.cur@ }
    }
}

/// One item of a flat run.
pub enum RunItem {
    Operand(Node),
    Operator { token: usize, line: usize },
}

impl View for RunItem {
    type V = ItemModel;

    open spec fn view(&self) -> ItemModel {
        match self {
            RunItem::Operand(n) => ItemModel::Operand(n@),
            RunItem::Operator { token, line } => ItemModel::Operator {
                token: *token as int,
                line: *line as int,
            },
        }
    }
}

pub open spec fn item_views(items: Seq<RunItem>) -> Seq<ItemModel> {
    Seq::new(items.len(), |i: int| items[i]@)
}

/// The tokens end with the one `Eof` token.
pub open spec fn valid_tokens(tokens: Seq<Token>) -> bool {
    &&& tokens.len() > 0
    &&& tokens.last().kind == TokenKind::Eof
    &&& forall|i: int| 0 <= i < tokens.len() - 1 ==> (#[trigger] tokens[i]).kind != TokenKind::Eof
}

/// A rule's result is a well-formed node over the tokens from `from` to the
/// new cursor, which still stands on a token.
pub open spec fn lands(tokens: Seq<Token>, from: int, r: (NodeModel, CursorModel)) -> bool {
    &&& r.0.wf()
    &&& r.0.lo == from
    &&& r.0.hi == r.1.next
    &&& r.1.next < tokens.len()
}

/// The nodes of a list cover the tokens from `lo` to its cursor, which still
/// stands on a token.
pub open spec fn gathers(tokens: Seq<Token>, lo: int, l: ListModel) -> bool {
    &&& tiles(l.items, lo, l.cur.next)
    &&& l.cur.next < tokens.len()
}

pub fn kind_of(tokens: &Vec<Token>, i: usize) -> (k: TokenKind)
    ensures
        k == kind_at(tokens@, i as int),
{
    if i < tokens.len() {
        tokens[i].kind
    } else {
        TokenKind::Eof
    }
}

pub fn leaf_kind_of(kind: TokenKind) -> (k: NodeKind)
    ensures
        k == leaf_kind(kind),
{
    match kind {
        TokenKind::Number => NodeKind::Literal,
        TokenKind::String => NodeKind::Literal,
        TokenKind::Identifier => NodeKind::Symbol,
        TokenKind::Keyword(Keyword::True) => NodeKind::Literal,
        TokenKind::Keyword(Keyword::False) => NodeKind::Literal,
        TokenKind::Keyword(Keyword::Null) => NodeKind::Literal,
        TokenKind::Keyword(Keyword::Na) => NodeKind::Literal,
        TokenKind::Keyword(Keyword::NaInteger) => NodeKind::Literal,
        TokenKind::Keyword(Keyword::NaReal) => NodeKind::Literal,
        TokenKind::Keyword(Keyword::NaCharacter) => NodeKind::Literal,
        TokenKind::Keyword(Keyword::Inf) => NodeKind::Literal,
        TokenKind::Keyword(Keyword::NaN) => NodeKind::Literal,
        TokenKind::Keyword(Keyword::Break) => NodeKind::Break,
        TokenKind::Keyword(Keyword::Next) => NodeKind::Next,
        TokenKind::Error(_) => NodeKind::Error,
        _ => NodeKind::Token,
    }
}

fn atom(kind: TokenKind) -> (r: bool)
    ensures
        r == is_atom(kind),
{
    match leaf_kind_of(kind) {
        NodeKind::Token => false,
        _ => true,
    }
}

fn construct_opens(kind: TokenKind) -> (r: bool)
    ensures
        r == opens_construct(kind),
{
    match kind {
        TokenKind::Punct(Punct::LParen) => true,
        TokenKind::Punct(Punct::LBrace) => true,
        TokenKind::Keyword(Keyword::If) => true,
        TokenKind::Keyword(Keyword::For) => true,
        TokenKind::Keyword(Keyword::While) => true,
        TokenKind::Keyword(Keyword::Repeat) => true,
        TokenKind::Keyword(Keyword::Function) => true,
        _ => false,
    }
}

fn statement_ends(kind: TokenKind, in_block: bool) -> (r: bool)
    ensures
        r == ends_statement(kind, in_block),
{
    match kind {
        TokenKind::Eof => true,
        TokenKind::Newline => true,
        TokenKind::Punct(Punct::Semicolon) => true,
        TokenKind::Punct(Punct::RBrace) => in_block,
        _ => false,
    }
}

fn list_ends(kind: TokenKind) -> (r: bool)
    ensures
        r == ends_list(kind),
{
    match kind {
        TokenKind::Eof => true,
        TokenKind::Newline => true,
        TokenKind::Punct(Punct::Semicolon) => true,
        TokenKind::Punct(Punct::RParen) => true,
        TokenKind::Punct(Punct::RBracket) => true,
        TokenKind::Punct(Punct::RBrace) => true,
        _ => false,
    }
}

fn access(kind: TokenKind) -> (r: bool)
    ensures
        r == is_access(kind),
{
    match kind {
        TokenKind::Operator(Operator::Dollar) => true,
        TokenKind::Operator(Operator::At) => true,
        TokenKind::Operator(Operator::DoubleColon) => true,
        TokenKind::Operator(Operator::TripleColon) => true,
        _ => false,
    }
}

fn arguments_open(kind: TokenKind) -> (r: bool)
    ensures
        r == opens_arguments(kind),
{
    match kind {
        TokenKind::Punct(Punct::LParen) => true,
        TokenKind::Punct(Punct::LBracket) => true,
        TokenKind::Punct(Punct::LDoubleBracket) => true,
        _ => false,
    }
}

fn line_for(kind: TokenKind, prefix: bool) -> (r: Option<usize>)
    ensures
        r.is_some() == operator_line(kind, prefix).is_some(),
        r.is_some() ==> r.unwrap() == operator_line(kind, prefix).unwrap() && r.unwrap()
            < RESOLVED_LEN,
{
    match kind {
        TokenKind::Operator(o) => find_operator(o, prefix),
        _ => None,
    }
}

fn diag_for(tokens: &Vec<Token>, i: usize, kind: DiagnosticKind) -> (d: Diagnostic)
    ensures
        d == diag_at(tokens@, i as int, kind),
{
    if i < tokens.len() {
        Diagnostic { start: tokens[i].start, end: tokens[i].end, severity: Severity::Error, kind }
    } else {
        Diagnostic { start: 0, end: 0, severity: Severity::Error, kind }
    }
}

fn report_at(tokens: &Vec<Token>, cur: Cursor, kind: DiagnosticKind) -> (r: Cursor)
    ensures
        r@ == report(tokens@, cur@, kind),
{
    let mut diags = cur.diags;
    diags.push(diag_for(tokens, cur.next, kind));
    Cursor { next: cur.next, ok: false, diags }
}

/// The cursor with one more diagnostic, on token `i`.
fn flag(tokens: &Vec<Token>, cur: Cursor, i: usize, kind: DiagnosticKind) -> (r: Cursor)
    ensures
        r@ == (CursorModel {
            next: cur@.next,
            ok: false,
            diags: cur@.diags.push(diag_at(tokens@, i as int, kind)),
        }),
{
    let mut diags = cur.diags;
    diags.push(diag_for(tokens, i, kind));
    Cursor { next: cur.next, ok: false, diags }
}

fn token_leaf_at(tokens: &Vec<Token>, cur: Cursor) -> (r: (Node, Cursor))
    requires
        cur.next < tokens.len(),
    ensures
        r.0@ == token_leaf(tokens@, cur@).0,
        r.1@ == token_leaf(tokens@, cur@).1,
        r.0@.wf(),
        r.0@.lo == cur.next,
        r.0@.hi == r.1.next,
        r.1.next == cur.next + 1,
{
    let at = cur.next;
    let kind = tokens[at].kind;
    let seen = match kind {
        TokenKind::Error(e) => report_at(tokens, cur, DiagnosticKind::Lexical(e)),
        _ => cur,
    };
    (Node::leaf(leaf_kind_of(kind), at, at + 1), Cursor { next: at + 1, ok: seen.ok, diags: seen.diags })
}

fn missing_at(tokens: &Vec<Token>, cur: Cursor, kind: DiagnosticKind) -> (r: (Node, Cursor))
    ensures
        r.0@ == missing(tokens@, cur@, kind).0,
        r.1@ == missing(tokens@, cur@, kind).1,
        r.0@.wf(),
        r.0@.lo == cur.next,
        r.0@.hi == r.1.next,
        r.1.next == cur.next,
{
    let at = cur.next;
    (Node::leaf(NodeKind::Missing, at, at), report_at(tokens, cur, kind))
}

fn list_new(cur: Cursor) -> (l: List)
    ensures
        l@ == list_at(cur@),
        tiles(l@.items, cur.next as int, cur.next as int),
{
    let l = List { items: Vec::new(), cur };
    assert(l@.items =~= Seq::empty());
    l
}

/// A list that starts with a node that is there already.
fn list_from(first: Node, lo: usize, cur: Cursor) -> (l: List)
    requires
        first@.wf(),
        first@.lo == lo,
        first@.hi == cur.next,
    ensures
        l@ == (ListModel { items: seq![first@], cur: cur@ }),
        tiles(l@.items, lo as int, cur.next as int),
{
    let mut items: Vec<Node> = Vec::new();
    items.push(first);
    let l = List { items, cur };
    assert(l@.items =~= seq![first@]);
    l
}

/// The list of `items` and one more node, with the cursor behind it.
fn list_push(items: Vec<Node>, node: Node, cur: Cursor, Ghost(lo): Ghost<int>) -> (r: List)
    requires
        tiles(views(items@), lo, node@.lo),
        node@.wf(),
        node@.hi == cur.next,
    ensures
        r@.items == views(items@).push(node@),
        r@.cur == cur@,
        tiles(r@.items, lo, cur.next as int),
{
    let ghost before = views(items@);
    let mut items = items;
    items.push(node);
    let r = List { items, cur };
    proof {
        assert(r@.items =~= before.push(node@));
        lemma_tiles_push(before, lo, node@.lo, node@);
    }
    r
}

/// The list with a `Missing` node and its diagnostic.
fn list_missing(tokens: &Vec<Token>, l: List, kind: DiagnosticKind, Ghost(lo): Ghost<int>) -> (r:
    List)
    requires
        tiles(l@.items, lo, l@.cur.next),
    ensures
        r@ == append(l@, missing(tokens@, l@.cur, kind)),
        tiles(r@.items, lo, r@.cur.next),
        r.cur.next == l.cur.next,
{
    let List { items, cur } = l;
    let (node, next) = missing_at(tokens, cur, kind);
    list_push(items, node, next, Ghost(lo))
}

fn list_take(tokens: &Vec<Token>, l: List, Ghost(lo): Ghost<int>) -> (r: List)
    requires
        valid_tokens(tokens@),
        tiles(l@.items, lo, l@.cur.next),
        l.cur.next < tokens.len(),
    ensures
        r@ == take(tokens@, l@),
        tiles(r@.items, lo, r@.cur.next),
        r.cur.next == l.cur.next + 1,
        kind_at(tokens@, l.cur.next as int) != TokenKind::Eof ==> gathers(tokens@, lo, r@),
{
    let List { items, cur } = l;
    let (node, next) = token_leaf_at(tokens, cur);
    list_push(items, node, next, Ghost(lo))
}

fn list_expect(tokens: &Vec<Token>, l: List, p: Punct, Ghost(lo): Ghost<int>) -> (r: List)
    requires
        valid_tokens(tokens@),
        gathers(tokens@, lo, l@),
    ensures
        r@ == expect(tokens@, l@, p),
        gathers(tokens@, lo, r@),
        l.cur.next <= r.cur.next,
{
    if kind_of(tokens, l.cur.next) == TokenKind::Punct(p) {
        list_take(tokens, l, Ghost(lo))
    } else {
        list_missing(tokens, l, DiagnosticKind::Expected(p), Ghost(lo))
    }
}

fn list_close(l: List, kind: NodeKind, lo: usize) -> (r: (Node, Cursor))
    requires
        tiles(l@.items, lo as int, l@.cur.next),
        l@.items.len() > 0,
    ensures
        r.0@ == close(l@, kind, lo as int).0,
        r.1@ == close(l@, kind, lo as int).1,
        r.0@.wf(),
        r.0@.lo == lo,
        r.0@.hi == r.1.next,
        r.1.next == l.cur.next,
{
    let List { items, cur } = l;
    proof {
        lemma_tiles_parent(kind, views(items@), lo as int, cur.next as int);
    }
    (Node::inner(kind, lo, cur.next, items), cur)
}

/// `object`, the access operator that is next, and the name behind it.
fn parse_member(tokens: &Vec<Token>, object: Node, cur: Cursor, lo: usize) -> (r: (Node, Cursor))
    requires
        valid_tokens(tokens@),
        object@.wf(),
        object@.lo == lo,
        object@.hi == cur.next,
        is_access(kind_at(tokens@, cur.next as int)),
    ensures
        r.0@ == member(tokens@, object@, cur@, lo as int).0,
        r.1@ == member(tokens@, object@, cur@, lo as int).1,
        lands(tokens@, lo as int, member(tokens@, object@, cur@, lo as int)),
        cur.next < r.1.next,
{
    let l = list_from(object, lo, cur);
    let l = list_take(tokens, l, Ghost(lo as int));
    let kind = kind_of(tokens, l.cur.next);
    let is_name = match kind {
        TokenKind::Identifier => true,
        TokenKind::String => true,
        _ => false,
    };
    let named = if is_name {
        list_take(tokens, l, Ghost(lo as int))
    } else {
        list_missing(tokens, l, DiagnosticKind::ExpectedName, Ghost(lo as int))
    };
    list_close(named, NodeKind::Member, lo)
}

fn parameter(tokens: &Vec<Token>, node: &Node) -> (r: bool)
    ensures
        r == is_parameter(tokens@, node@),
{
    proof {
        reveal_with_fuel(model_of, 2);
    }
    match node.kind {
        NodeKind::Symbol => true,
        NodeKind::Assignment => {
            if node.children.len() == 3 {
                let first = match node.children[0].kind {
                    NodeKind::Symbol => true,
                    _ => false,
                };
                let op = match kind_of(tokens, node.children[1].lo) {
                    TokenKind::Operator(Operator::EqAssign) => true,
                    _ => false,
                };
                first && op
            } else {
                false
            }
        },
        _ => false,
    }
}

/// An element of a list as it enters the list.
fn wrap_element(tokens: &Vec<Token>, node: Node, cur: Cursor, parameters: bool) -> (r: (
    Node,
    Cursor,
))
    requires
        node@.wf(),
        node@.hi == cur.next,
    ensures
        r.0@ == element(tokens@, (node@, cur@), parameters).0,
        r.1@ == element(tokens@, (node@, cur@), parameters).1,
        r.0@.wf(),
        r.0@.lo == node@.lo,
        r.0@.hi == node@.hi,
        r.1.next == cur.next,
{
    if !parameters {
        (node, cur)
    } else {
        let good = parameter(tokens, &node);
        let lo = node.lo;
        let hi = node.hi;
        let ghost inner = node@;
        let mut children: Vec<Node> = Vec::new();
        children.push(node);
        proof {
            assert(views(children@) =~= seq![inner]);
            assert(tiles(seq![inner], inner.lo, inner.hi));
        }
        if good {
            proof {
                lemma_tiles_parent(NodeKind::Parameter, seq![inner], inner.lo, inner.hi);
            }
            (Node::inner(NodeKind::Parameter, lo, hi, children), cur)
        } else {
            proof {
                lemma_tiles_parent(NodeKind::Error, seq![inner], inner.lo, inner.hi);
            }
            (
                Node::inner(NodeKind::Error, lo, hi, children),
                flag(tokens, cur, lo, DiagnosticKind::InvalidParameter),
            )
        }
    }
}

fn item_to_node(item: RunItem) -> (n: Node)
    requires
        item_node(item@).hi <= usize::MAX,
    ensures
        n@ == item_node(item@),
{
    match item {
        RunItem::Operand(n) => n,
        RunItem::Operator { token, line } => Node::leaf(NodeKind::Token, token, token + 1),
    }
}

/// No node of the run reaches past what a `usize` holds.
pub open spec fn bounded(all: Seq<ItemModel>) -> bool {
    forall|k: int| 0 <= k < all.len() ==> (#[trigger] item_node(all[k])).hi <= usize::MAX
}

proof fn lemma_shape_nonempty(shape: Shape)
    ensures
        shape_codes(shape).len() >= 1,
{
}

/// Puts the last items of a run together as `shape` says and takes them off
/// the run.
fn assemble_run(
    tokens: &Vec<Token>,
    shape: &Shape,
    items: &mut Vec<RunItem>,
    cur: Cursor,
    Ghost(all): Ghost<Seq<ItemModel>>,
    Ghost(lo): Ghost<int>,
    Ghost(hi): Ghost<int>,
) -> (r: (Node, u8, Cursor))
    requires
        tiles(item_nodes(all), lo, hi),
        bounded(all),
        old(items)@.len() <= all.len(),
        item_views(old(items)@) == all.subrange(0, old(items)@.len() as int),
        shape_codes(*shape).len() <= old(items)@.len(),
    ensures
        ({
            let a = assemble(tokens@, *shape, all, old(items)@.len() as int, cur@);
            &&& r.0@ == a.node
            &&& r.1 == a.tier
            &&& r.2@ == a.cur
            &&& a.start == old(items)@.len() - shape_codes(*shape).len()
            &&& final(items)@ == old(items)@.subrange(0, a.start)
            &&& a.node.wf()
            &&& a.node.lo == item_nodes(all)[a.start].lo
            &&& a.node.hi == item_nodes(all)[old(items)@.len() - 1].hi
            &&& a.cur.next == cur@.next
        }),
    decreases *shape,
{
    let ghost end = old(items)@.len() as int;
    match shape {
        Shape::Operand => {
            let last = items.pop();
            assert(item_views(old(items)@)[end - 1] == all[end - 1]);
            assert(item_nodes(all)[end - 1].wf());
            match last {
                Some(item) => (item_to_node(item), 0, cur),
                None => (Node::leaf(NodeKind::Missing, 0, 0), 0, cur),
            }
        },
        Shape::Prefix(_, operand) => {
            let (inner, _tier, cur) = assemble_run(
                tokens,
                operand,
                items,
                cur,
                Ghost(all),
                Ghost(lo),
                Ghost(hi),
            );
            let ghost start = items@.len() as int;
            let last = items.pop();
            assert(item_views(old(items)@)[start - 1] == all[start - 1]);
            assert(item_nodes(all)[start - 1].wf());
            assert(joined(item_nodes(all), start - 1));
            assert(items@ =~= old(items)@.subrange(0, start - 1));
            match last {
                Some(item) => (Node::unary(item_to_node(item), inner), 0, cur),
                None => (Node::leaf(NodeKind::Missing, 0, 0), 0, cur),
            }
        },
        Shape::Infix(left, _, right) => {
            let (b, b_tier, cur) = assemble_run(
                tokens,
                right,
                items,
                cur,
                Ghost(all),
                Ghost(lo),
                Ghost(hi),
            );
            let ghost start = items@.len() as int;
            let last = items.pop();
            proof {
                lemma_shape_nonempty(**left);
            }
            assert(item_views(old(items)@)[start - 1] == all[start - 1]);
            assert(item_nodes(all)[start - 1].wf());
            assert(joined(item_nodes(all), start - 1));
            assert(joined(item_nodes(all), start - 2));
            assert(items@ =~= old(items)@.subrange(0, start - 1));
            assert(item_views(items@) =~= all.subrange(0, start - 1));
            match last {
                Some(item) => {
                    let line: usize = match item {
                        RunItem::Operator { token, line } => line,
                        RunItem::Operand(_) => RESOLVED_LEN,
                    };
                    let op = item_to_node(item);
                    let (a, a_tier, cur) = assemble_run(
                        tokens,
                        left,
                        items,
                        cur,
                        Ghost(all),
                        Ghost(lo),
                        Ghost(hi),
                    );
                    assert(items@ =~= old(items)@.subrange(0, items@.len() as int));
                    let tier: u8 = if line < RESOLVED_LEN {
                        operator_at(line).tier
                    } else {
                        0
                    };
                    let at = op.lo;
                    match Node::binary(a, a_tier, op, line, b, b_tier) {
                        Ok(node) => (node, tier, cur),
                        Err(node) => (
                            node,
                            tier,
                            flag(tokens, cur, at, DiagnosticKind::NonAssociative),
                        ),
                    }
                },
                None => (Node::leaf(NodeKind::Missing, 0, 0), 0, cur),
            }
        },
    }
}

/// The expression that the items of a run make when they are put together as
/// `shape` says. The shape has to read, from left to right, as the run does.
pub fn assemble_items(
    tokens: &Vec<Token>,
    shape: &Shape,
    items: Vec<RunItem>,
    cur: Cursor,
    lo: usize,
) -> (r: (Node, Cursor))
    requires
        shape_codes(*shape) == codes_of(item_views(items@)),
        tiles(item_nodes(item_views(items@)), lo as int, cur.next as int),
        bounded(item_views(items@)),
    ensures
        ({
            let a = assemble(
                tokens@,
                *shape,
                item_views(items@),
                items@.len() as int,
                cur@,
            );
            &&& r.0@ == a.node
            &&& r.1@ == a.cur
        }),
        r.0@.wf(),
        r.0@.lo == lo,
        r.0@.hi == cur.next,
        r.1.next == cur.next,
{
    let ghost all = item_views(items@);
    let mut items = items;
    proof {
        assert(all.subrange(0, all.len() as int) =~= all);
        assert(shape_codes(*shape).len() == all.len());
        lemma_shape_nonempty(*shape);
        assert(item_nodes(all)[0].wf());
    }
    let (node, _tier, cur) = assemble_run(
        tokens,
        shape,
        &mut items,
        cur,
        Ghost(all),
        Ghost(lo as int),
        Ghost(cur.next as int),
    );
    (node, cur)
}

/// The nodes of a run, in order.
fn flat_nodes(items: Vec<RunItem>) -> (out: Vec<Node>)
    requires
        bounded(item_views(items@)),
    ensures
        views(out@) == item_nodes(item_views(items@)),
{
    let ghost all = item_views(items@);
    let ghost n = all.len() as int;
    let mut items = items;
    let mut back: Vec<Node> = Vec::new();
    while items.len() > 0
        invariant
            bounded(all),
            n == all.len(),
            items@.len() + back@.len() == n,
            item_views(items@) == all.subrange(0, items@.len() as int),
            forall|i: int| 0 <= i < back@.len() ==> (#[trigger] back@[i])@ == item_node(all[n - 1 - i]),
        decreases items.len(),
    {
        let ghost k = items@.len() as int;
        let ghost before = items@;
        let last = items.pop();
        assert(item_views(before)[k - 1] == all[k - 1]);
        assert(item_views(items@) =~= all.subrange(0, k - 1));
        match last {
            Some(item) => {
                back.push(item_to_node(item));
            },
            None => {},
        }
    }
    let mut out: Vec<Node> = Vec::new();
    while back.len() > 0
        invariant
            n == all.len(),
            out@.len() + back@.len() == n,
            forall|i: int| 0 <= i < back@.len() ==> (#[trigger] back@[i])@ == item_node(all[n - 1 - i]),
            forall|i: int| 0 <= i < out@.len() ==> (#[trigger] out@[i])@ == item_node(all[i]),
        decreases back.len(),
    {
        match back.pop() {
            Some(node) => {
                out.push(node);
            },
            None => {},
        }
    }
    assert(views(out@) =~= item_nodes(all));
    out
}

/// The expression that a run stands for.
fn resolve_items(
    tokens: &Vec<Token>,
    table: &PrattTable,
    items: Vec<RunItem>,
    codes: Vec<u8>,
    cur: Cursor,
    lo: usize,
) -> (r: (Node, Cursor))
    requires
        pratt_ops(*table) == resolver_ops(),
        items@.len() > 0,
        codes@ == codes_of(item_views(items@)),
        tiles(item_nodes(item_views(items@)), lo as int, cur.next as int),
        bounded(item_views(items@)),
    ensures
        r.0@ == resolve_run(tokens@, RunModel { items: item_views(items@), cur: cur@ }, lo as int).0,
        r.1@ == resolve_run(tokens@, RunModel { items: item_views(items@), cur: cur@ }, lo as int).1,
        r.0@.wf(),
        r.0@.lo == lo,
        r.0@.hi == cur.next,
        r.1.next == cur.next,
{
    let ghost all = item_views(items@);
    let mut items = items;
    assert(item_nodes(all)[0].wf());
    if items.len() == 1 {
        match items.pop() {
            Some(item) => {
                return (item_to_node(item), cur);
            },
            None => {
                return (Node::leaf(NodeKind::Missing, lo, lo), cur);
            },
        }
    }
    if items.len() <= MAX_RUN {
        match shape_of(table, &codes) {
            Some(shape) => {
                if fits(&shape, &codes) && obeys(&shape) {
                    return assemble_items(tokens, &shape, items, cur, lo);
                }
            },
            None => {},
        }
    }
    let hi = cur.next;
    let children = flat_nodes(items);
    proof {
        lemma_tiles_parent(NodeKind::Error, item_nodes(all), lo as int, hi as int);
    }
    (Node::inner(NodeKind::Error, lo, hi, children), flag(tokens, cur, lo, DiagnosticKind::Unresolved))
}

/// One more item behind a run.
fn run_push(
    items: &mut Vec<RunItem>,
    codes: &mut Vec<u8>,
    item: RunItem,
    Ghost(lo): Ghost<int>,
)
    requires
        old(codes)@ == codes_of(item_views(old(items)@)),
        tiles(item_nodes(item_views(old(items)@)), lo, item_node(item@).lo),
        bounded(item_views(old(items)@)),
        item_node(item@).wf(),
        item_node(item@).hi <= usize::MAX,
        item matches RunItem::Operator { token, line } ==> line < RESOLVED_LEN,
    ensures
        item_views(final(items)@) == item_views(old(items)@).push(item@),
        final(codes)@ == codes_of(item_views(final(items)@)),
        tiles(item_nodes(item_views(final(items)@)), lo, item_node(item@).hi),
        bounded(item_views(final(items)@)),
{
    let ghost before = item_views(items@);
    let ghost entry = item@;
    let code: u8 = match &item {
        RunItem::Operand(_) => OPERAND,
        RunItem::Operator { token, line } => (*line + 1) as u8,
    };
    items.push(item);
    codes.push(code);
    proof {
        assert(item_views(items@) =~= before.push(entry));
        assert(codes@ =~= codes_of(item_views(items@)));
        assert(item_nodes(item_views(items@)) =~= item_nodes(before).push(item_node(entry)));
        lemma_tiles_push(item_nodes(before), lo, item_node(entry).lo, item_node(entry));
        assert forall|k: int| 0 <= k < item_views(items@).len() implies (#[trigger] item_node(
            item_views(items@)[k],
        )).hi <= usize::MAX by {
            if k < before.len() {
                assert(item_node(before[k]).hi <= usize::MAX);
            }
        }
    }
}

/// The list with one more expression.
fn list_expr(tokens: &Vec<Token>, table: &PrattTable, l: List, depth: usize, Ghost(lo): Ghost<int>) -> (r:
    List)
    requires
        valid_tokens(tokens@),
        pratt_ops(*table) == resolver_ops(),
        gathers(tokens@, lo, l@),
    ensures
        r@ == append(l@, expr(tokens@, l@.cur, depth as nat)),
        gathers(tokens@, lo, r@),
        l.cur.next <= r.cur.next,
    decreases depth, 11int,
{
    let List { items, cur } = l;
    let (node, next) = parse_expr(tokens, table, cur, depth);
    list_push(items, node, next, Ghost(lo))
}

/// `(`, one expression, `)`.
fn parse_condition(
    tokens: &Vec<Token>,
    table: &PrattTable,
    l: List,
    depth: usize,
    Ghost(lo): Ghost<int>,
) -> (r: List)
    requires
        valid_tokens(tokens@),
        pratt_ops(*table) == resolver_ops(),
        gathers(tokens@, lo, l@),
    ensures
        r@ == condition(tokens@, l@, depth as nat),
        gathers(tokens@, lo, r@),
        r@.items.len() > 0,
    decreases depth, 14int,
{
    let open = list_expect(tokens, l, Punct::LParen, Ghost(lo));
    let inner = list_expr(tokens, table, open, depth, Ghost(lo));
    list_expect(tokens, inner, Punct::RParen, Ghost(lo))
}

fn nothing_named(tokens: &Vec<Token>, i: usize) -> (r: bool)
    requires
        i < tokens.len(),
    ensures
        r == names_nothing(tokens@, i as int),
{
    let name = match kind_of(tokens, i) {
        TokenKind::Identifier => true,
        TokenKind::String => true,
        _ => false,
    };
    let gets = match kind_of(tokens, i + 1) {
        TokenKind::Operator(Operator::EqAssign) => true,
        _ => false,
    };
    if name && gets {
        match kind_of(tokens, i + 2) {
            TokenKind::Punct(Punct::Comma) => true,
            other => list_ends(other),
        }
    } else {
        false
    }
}

/// The elements of a list and the commas between them.
fn parse_elements(
    tokens: &Vec<Token>,
    table: &PrattTable,
    l: List,
    depth: usize,
    parameters: bool,
    Ghost(lo): Ghost<int>,
) -> (r: List)
    requires
        valid_tokens(tokens@),
        pratt_ops(*table) == resolver_ops(),
        gathers(tokens@, lo, l@),
    ensures
        r@ == elements(tokens@, l@, depth as nat, parameters, false),
        gathers(tokens@, lo, r@),
    decreases depth, 13int,
{
    let ghost start = l@;
    let mut l = l;
    let mut after = false;
    loop
        invariant_except_break
            elements(tokens@, start, depth as nat, parameters, false) == elements(
                tokens@,
                l@,
                depth as nat,
                parameters,
                after,
            ),
        invariant
            valid_tokens(tokens@),
            pratt_ops(*table) == resolver_ops(),
            gathers(tokens@, lo, l@),
        ensures
            elements(tokens@, start, depth as nat, parameters, false) == l@,
        decreases tokens.len() - l.cur.next,
    {
        let kind = kind_of(tokens, l.cur.next);
        if list_ends(kind) {
            break ;
        }
        let comma = match kind {
            TokenKind::Punct(Punct::Comma) => true,
            _ => false,
        };
        if comma {
            l = list_take(tokens, l, Ghost(lo));
            after = false;
        } else {
            let before = l.cur.next;
            let due = if after {
                list_missing(tokens, l, DiagnosticKind::Expected(Punct::Comma), Ghost(lo))
            } else {
                l
            };
            let List { items, cur } = due;
            if !parameters && nothing_named(tokens, cur.next) {
                let at = cur.next;
                let name = list_take(tokens, list_new(cur), Ghost(at as int));
                let both = list_take(tokens, name, Ghost(at as int));
                let (node, next) = list_close(both, NodeKind::Argument, at);
                l = list_push(items, node, next, Ghost(lo));
            } else {
                let (node, next) = parse_expr(tokens, table, cur, depth);
                let (node, next) = wrap_element(tokens, node, next, parameters);
                l = list_push(items, node, next, Ghost(lo));
                if !(before < l.cur.next) {
                    break ;
                }
            }
            after = true;
        }
    }
    l
}

/// `object` with the argument list that follows it.
fn parse_arguments(
    tokens: &Vec<Token>,
    table: &PrattTable,
    object: Node,
    cur: Cursor,
    depth: usize,
    lo: usize,
) -> (r: (Node, Cursor))
    requires
        valid_tokens(tokens@),
        pratt_ops(*table) == resolver_ops(),
        object@.wf(),
        object@.lo == lo,
        object@.hi == cur.next,
        opens_arguments(kind_at(tokens@, cur.next as int)),
    ensures
        r.0@ == arguments(tokens@, object@, cur@, depth as nat, lo as int).0,
        r.1@ == arguments(tokens@, object@, cur@, depth as nat, lo as int).1,
        lands(tokens@, lo as int, arguments(tokens@, object@, cur@, depth as nat, lo as int)),
    decreases depth, 4int,
{
    if depth == 0 {
        let l = list_from(object, lo, report_at(tokens, cur, DiagnosticKind::TooDeep));
        return list_close(l, NodeKind::Error, lo);
    }
    let kind = kind_of(tokens, cur.next);
    let l = list_take(tokens, list_from(object, lo, cur), Ghost(lo as int));
    let inner = parse_elements(tokens, table, l, depth - 1, false, Ghost(lo as int));
    match kind {
        TokenKind::Punct(Punct::LParen) => {
            let l = list_expect(tokens, inner, Punct::RParen, Ghost(lo as int));
            list_close(l, NodeKind::Call, lo)
        },
        TokenKind::Punct(Punct::LBracket) => {
            let l = list_expect(tokens, inner, Punct::RBracket, Ghost(lo as int));
            list_close(l, NodeKind::Index, lo)
        },
        _ => {
            let l = list_expect(tokens, inner, Punct::RBracket, Ghost(lo as int));
            let l = list_expect(tokens, l, Punct::RBracket, Ghost(lo as int));
            list_close(l, NodeKind::Index, lo)
        },
    }
}

/// The construct that the next token opens.
fn parse_construct(tokens: &Vec<Token>, table: &PrattTable, cur: Cursor, depth: usize) -> (r: (
    Node,
    Cursor,
))
    requires
        valid_tokens(tokens@),
        pratt_ops(*table) == resolver_ops(),
        opens_construct(kind_at(tokens@, cur.next as int)),
    ensures
        r.0@ == construct(tokens@, cur@, depth as nat).0,
        r.1@ == construct(tokens@, cur@, depth as nat).1,
        lands(tokens@, cur.next as int, construct(tokens@, cur@, depth as nat)),
    decreases depth, 4int,
{
    let kind = kind_of(tokens, cur.next);
    if depth == 0 {
        return missing_at(tokens, cur, DiagnosticKind::TooDeep);
    }
    let d = depth - 1;
    let lo = cur.next;
    let ghost at = lo as int;
    match kind {
        TokenKind::Punct(Punct::LParen) => {
            let l = parse_condition(tokens, table, list_new(cur), d, Ghost(at));
            list_close(l, NodeKind::Paren, lo)
        },
        TokenKind::Punct(Punct::LBrace) => {
            let l = list_take(tokens, list_new(cur), Ghost(at));
            let l = parse_statements(tokens, table, l, d, true, Ghost(at));
            let l = list_expect(tokens, l, Punct::RBrace, Ghost(at));
            list_close(l, NodeKind::Block, lo)
        },
        TokenKind::Keyword(Keyword::Repeat) => {
            let word = list_take(tokens, list_new(cur), Ghost(at));
            let l = list_expr(tokens, table, word, d, Ghost(at));
            list_close(l, NodeKind::Repeat, lo)
        },
        TokenKind::Keyword(Keyword::Function) => {
            let word = list_take(tokens, list_new(cur), Ghost(at));
            let opened = match kind_of(tokens, word.cur.next) {
                TokenKind::Punct(Punct::LParen) => true,
                _ => false,
            };
            let head = if opened {
                let l = list_take(tokens, word, Ghost(at));
                let l = parse_elements(tokens, table, l, d, true, Ghost(at));
                list_expect(tokens, l, Punct::RParen, Ghost(at))
            } else {
                list_expect(tokens, word, Punct::LParen, Ghost(at))
            };
            let l = list_expr(tokens, table, head, d, Ghost(at));
            list_close(l, NodeKind::FunctionDef, lo)
        },
        _ => {
            let word = list_take(tokens, list_new(cur), Ghost(at));
            let head = parse_condition(tokens, table, word, d, Ghost(at));
            let body = list_expr(tokens, table, head, d, Ghost(at));
            match kind {
                TokenKind::Keyword(Keyword::If) => {
                    let other = match kind_of(tokens, body.cur.next) {
                        TokenKind::Keyword(Keyword::Else) => true,
                        _ => false,
                    };
                    if other {
                        let word = list_take(tokens, body, Ghost(at));
                        let l = list_expr(tokens, table, word, d, Ghost(at));
                        list_close(l, NodeKind::If, lo)
                    } else {
                        list_close(body, NodeKind::If, lo)
                    }
                },
                TokenKind::Keyword(Keyword::For) => list_close(body, NodeKind::For, lo),
                _ => list_close(body, NodeKind::While, lo),
            }
        },
    }
}

/// One primary.
fn parse_primary(tokens: &Vec<Token>, table: &PrattTable, cur: Cursor, depth: usize) -> (r: (
    Node,
    Cursor,
))
    requires
        valid_tokens(tokens@),
        pratt_ops(*table) == resolver_ops(),
        cur.next < tokens.len(),
    ensures
        r.0@ == primary(tokens@, cur@, depth as nat).0,
        r.1@ == primary(tokens@, cur@, depth as nat).1,
        lands(tokens@, cur.next as int, primary(tokens@, cur@, depth as nat)),
    decreases depth, 6int,
{
    let kind = kind_of(tokens, cur.next);
    if atom(kind) {
        token_leaf_at(tokens, cur)
    } else if construct_opens(kind) {
        parse_construct(tokens, table, cur, depth)
    } else {
        missing_at(tokens, cur, DiagnosticKind::MissingOperand)
    }
}

/// One operand: a primary, and every call, subscript and access behind it.
pub fn parse_operand(tokens: &Vec<Token>, table: &PrattTable, cur: Cursor, depth: usize) -> (r: (
    Node,
    Cursor,
))
    requires
        valid_tokens(tokens@),
        pratt_ops(*table) == resolver_ops(),
        cur.next < tokens.len(),
    ensures
        r.0@ == operand(tokens@, cur@, depth as nat).0,
        r.1@ == operand(tokens@, cur@, depth as nat).1,
        lands(tokens@, cur.next as int, operand(tokens@, cur@, depth as nat)),
    decreases depth, 7int,
{
    let lo = cur.next;
    let ghost start = cur@;
    let (first, behind) = parse_primary(tokens, table, cur, depth);
    let mut node = first;
    let mut cur = behind;
    loop
        invariant_except_break
            operand(tokens@, start, depth as nat) == postfix(
                tokens@,
                node@,
                cur@,
                depth as nat,
                lo as int,
            ),
        invariant
            valid_tokens(tokens@),
            pratt_ops(*table) == resolver_ops(),
            node@.wf(),
            node@.lo == lo,
            node@.hi == cur.next,
            cur.next < tokens.len(),
        ensures
            operand(tokens@, start, depth as nat) == (node@, cur@),
        decreases tokens.len() - cur.next,
    {
        let kind = kind_of(tokens, cur.next);
        if arguments_open(kind) {
            let before = cur.next;
            let (n, c) = parse_arguments(tokens, table, node, cur, depth, lo);
            node = n;
            cur = c;
            if !(before < cur.next) {
                break ;
            }
        } else if access(kind) {
            let (n, c) = parse_member(tokens, node, cur, lo);
            node = n;
            cur = c;
        } else {
            break ;
        }
    }
    (node, cur)
}

/// One expression: the longest run of operands and operators from the cursor
/// on, nested by precedence.
pub fn parse_expr(tokens: &Vec<Token>, table: &PrattTable, cur: Cursor, depth: usize) -> (r: (
    Node,
    Cursor,
))
    requires
        valid_tokens(tokens@),
        pratt_ops(*table) == resolver_ops(),
        cur.next < tokens.len(),
    ensures
        r.0@ == expr(tokens@, cur@, depth as nat).0,
        r.1@ == expr(tokens@, cur@, depth as nat).1,
        lands(tokens@, cur.next as int, expr(tokens@, cur@, depth as nat)),
    decreases depth, 10int,
{
    let lo = cur.next;
    let ghost start = RunModel { items: Seq::empty(), cur: cur@ };
    let mut items: Vec<RunItem> = Vec::new();
    let mut codes: Vec<u8> = Vec::new();
    let mut cur = cur;
    proof {
        assert(item_views(items@) =~= Seq::empty());
        assert(codes@ =~= codes_of(item_views(items@)));
        assert(item_nodes(item_views(items@)) =~= Seq::empty());
    }
    loop
        invariant_except_break
            collect(tokens@, start, depth as nat) == collect(
                tokens@,
                RunModel { items: item_views(items@), cur: cur@ },
                depth as nat,
            ),
        invariant
            valid_tokens(tokens@),
            pratt_ops(*table) == resolver_ops(),
            lo <= cur.next < tokens.len(),
            codes@ == codes_of(item_views(items@)),
            tiles(item_nodes(item_views(items@)), lo as int, cur.next as int),
            bounded(item_views(items@)),
        ensures
            collect(tokens@, start, depth as nat) == (RunModel {
                items: item_views(items@),
                cur: cur@,
            }),
            items@.len() > 0,
        decreases tokens.len() - cur.next,
    {
        let kind = kind_of(tokens, cur.next);
        match line_for(kind, true) {
            Some(line) => {
                run_push(
                    &mut items,
                    &mut codes,
                    RunItem::Operator { token: cur.next, line },
                    Ghost(lo as int),
                );
                cur = Cursor { next: cur.next + 1, ok: cur.ok, diags: cur.diags };
            },
            None => {
                let (node, behind) = parse_operand(tokens, table, cur, depth);
                run_push(&mut items, &mut codes, RunItem::Operand(node), Ghost(lo as int));
                cur = behind;
                let after = kind_of(tokens, cur.next);
                match line_for(after, false) {
                    Some(line) => {
                        run_push(
                            &mut items,
                            &mut codes,
                            RunItem::Operator { token: cur.next, line },
                            Ghost(lo as int),
                        );
                        cur = Cursor { next: cur.next + 1, ok: cur.ok, diags: cur.diags };
                    },
                    None => {
                        break ;
                    },
                }
            },
        }
    }
    resolve_items(tokens, table, items, codes, cur, lo)
}

/// One statement.
pub fn parse_statement(
    tokens: &Vec<Token>,
    table: &PrattTable,
    cur: Cursor,
    depth: usize,
    in_block: bool,
) -> (r: (Node, Cursor))
    requires
        valid_tokens(tokens@),
        pratt_ops(*table) == resolver_ops(),
        cur.next < tokens.len(),
        !ends_statement(kind_at(tokens@, cur.next as int), in_block),
    ensures
        r.0@ == statement(tokens@, cur@, depth as nat, in_block).0,
        r.1@ == statement(tokens@, cur@, depth as nat, in_block).1,
        lands(tokens@, cur.next as int, statement(tokens@, cur@, depth as nat, in_block)),
        cur.next < r.1.next,
    decreases depth, 11int,
{
    let lo = cur.next;
    let was_ok = cur.ok;
    let (node, behind) = parse_expr(
        tokens,
        table,
        Cursor { next: cur.next, ok: true, diags: cur.diags },
        depth,
    );
    if behind.ok && lo < behind.next && statement_ends(kind_of(tokens, behind.next), in_block) {
        (node, Cursor { next: behind.next, ok: was_ok, diags: behind.diags })
    } else {
        let ghost reached = behind.next;
        let reported = report_at(tokens, behind, DiagnosticKind::MalformedStatement);
        let mut l = list_from(node, lo, reported);
        let ghost start = l@;
        while !statement_ends(kind_of(tokens, l.cur.next), in_block)
            invariant
                valid_tokens(tokens@),
                gathers(tokens@, lo as int, l@),
                l@.items.len() > 0,
                reached <= l.cur.next,
                skip(tokens@, start, in_block) == skip(tokens@, l@, in_block),
            decreases tokens.len() - l.cur.next,
        {
            l = list_take(tokens, l, Ghost(lo as int));
        }
        let List { items, cur } = l;
        proof {
            lemma_tiles_parent(NodeKind::Error, views(items@), lo as int, cur.next as int);
        }
        (
            Node::inner(NodeKind::Error, lo, cur.next, items),
            Cursor { next: cur.next, ok: was_ok, diags: cur.diags },
        )
    }
}

/// Statements and their terminators up to the end of the text, or of the
/// block if `in_block`.
fn parse_statements(
    tokens: &Vec<Token>,
    table: &PrattTable,
    l: List,
    depth: usize,
    in_block: bool,
    Ghost(lo): Ghost<int>,
) -> (r: List)
    requires
        valid_tokens(tokens@),
        pratt_ops(*table) == resolver_ops(),
        gathers(tokens@, lo, l@),
    ensures
        r@ == statements(tokens@, l@, depth as nat, in_block),
        gathers(tokens@, lo, r@),
        kind_at(tokens@, r.cur.next as int) == TokenKind::Eof || (in_block && kind_at(
            tokens@,
            r.cur.next as int,
        ) == TokenKind::Punct(Punct::RBrace)),
    decreases depth, 12int,
{
    let ghost start = l@;
    let mut l = l;
    loop
        invariant_except_break
            statements(tokens@, start, depth as nat, in_block) == statements(
                tokens@,
                l@,
                depth as nat,
                in_block,
            ),
        invariant
            valid_tokens(tokens@),
            pratt_ops(*table) == resolver_ops(),
            gathers(tokens@, lo, l@),
        ensures
            statements(tokens@, start, depth as nat, in_block) == l@,
            kind_at(tokens@, l.cur.next as int) == TokenKind::Eof || (in_block && kind_at(
                tokens@,
                l.cur.next as int,
            ) == TokenKind::Punct(Punct::RBrace)),
        decreases tokens.len() - l.cur.next,
    {
        let kind = kind_of(tokens, l.cur.next);
        let stop = match kind {
            TokenKind::Eof => true,
            TokenKind::Punct(Punct::RBrace) => in_block,
            _ => false,
        };
        if stop {
            break ;
        }
        let separator = match kind {
            TokenKind::Newline => true,
            TokenKind::Punct(Punct::Semicolon) => true,
            _ => false,
        };
        if separator {
            l = list_take(tokens, l, Ghost(lo));
        } else {
            let List { items, cur } = l;
            let (node, behind) = parse_statement(tokens, table, cur, depth, in_block);
            l = list_push(items, node, behind, Ghost(lo));
        }
    }
    l
}

/// The whole text: statements and their terminators, then the `Eof` token.
pub fn parse_program(tokens: &Vec<Token>, table: &PrattTable) -> (r: (Node, Cursor))
    requires
        valid_tokens(tokens@),
        pratt_ops(*table) == resolver_ops(),
    ensures
        r.0@ == program(tokens@).0,
        r.1@ == program(tokens@).1,
        r.0@.wf(),
        r.0@.lo == 0,
        r.0@.hi == tokens@.len(),
{
    let start = Cursor { next: 0, ok: true, diags: Vec::new() };
    let body = parse_statements(tokens, table, list_new(start), MAX_DEPTH, false, Ghost(0int));
    let l = list_take(tokens, body, Ghost(0int));
    list_close(l, NodeKind::Program, 0)
}

/// The expression that a flat run of operands and operators stands for,
/// nested by precedence. The items lie end to end from token `lo` to the
/// cursor.
pub fn resolve_expression(
    tokens: &Vec<Token>,
    table: &PrattTable,
    items: Vec<RunItem>,
    cur: Cursor,
    lo: usize,
) -> (r: (Node, Cursor))
    requires
        pratt_ops(*table) == resolver_ops(),
        items@.len() > 0,
        tiles(item_nodes(item_views(items@)), lo as int, cur.next as int),
        bounded(item_views(items@)),
        forall|k: int|
            0 <= k < items@.len() ==> (#[trigger] items@[k] matches RunItem::Operator {
                token,
                line,
            } ==> line < RESOLVED_LEN),
    ensures
        r.0@ == resolve_run(tokens@, RunModel { items: item_views(items@), cur: cur@ }, lo as int).0,
        r.1@ == resolve_run(tokens@, RunModel { items: item_views(items@), cur: cur@ }, lo as int).1,
        r.0@.wf(),
        r.0@.lo == lo,
        r.0@.hi == cur.next,
        r.1.next == cur.next,
{
    let mut codes: Vec<u8> = Vec::new();
    let mut k: usize = 0;
    assert(codes@ =~= codes_of(item_views(items@)).subrange(0, 0));
    while k < items.len()
        invariant
            k <= items.len(),
            codes@ == codes_of(item_views(items@)).subrange(0, k as int),
            forall|k: int|
                0 <= k < items@.len() ==> (#[trigger] items@[k] matches RunItem::Operator {
                    token,
                    line,
                } ==> line < RESOLVED_LEN),
        decreases items.len() - k,
    {
        let code: u8 = match &items[k] {
            RunItem::Operand(_) => OPERAND,
            RunItem::Operator { token, line } => (*line + 1) as u8,
        };
        codes.push(code);
        k += 1;
        assert(codes@ =~= codes_of(item_views(items@)).subrange(0, k as int));
    }
    assert(codes@ =~= codes_of(item_views(items@)));
    resolve_items(tokens, table, items, codes, cur, lo)
}

} // verus!
