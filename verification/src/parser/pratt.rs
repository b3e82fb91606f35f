//! Precedence resolution of flat operator runs.
//!
//! The nesting of a run of operands and operators is decided by the Pratt
//! parser of the `pest` crate. This module hands it the operator table and a
//! run, both as numbers, and takes back the shape of the expression. What the
//! outside parser is told and what is done with its answer is verified. The
//! answer itself is not: before it is used it is checked against the run and
//! against the operator table, and an answer that fails either check is not
//! used.
use crate::parser::operators::{
    operator_at, table_entry, Arity, Assoc, OperatorDescriptor, RESOLVED_LEN,
};
use crate::parser::tree::line_tier;
use pest::iterators::PairsBuilder;
use pest::pratt_parser::{Op, PrattParser};
use vstd::prelude::*;

verus! {

/// How the outside parser treats an operator.
#[derive(Clone, Copy, Debug, PartialEq, Eq, Structural)]
pub enum Affix {
    Prefix,
    InfixLeft,
    InfixRight,
}

/// What the outside parser knows of one operator: its affix and its
/// precedence, where a higher precedence binds tighter.
pub struct OpInfo {
    pub affix: Affix,
    pub prec: int,
}

/// The nesting of an expression: which operator applies to which part.
/// Operators carry the number under which the run named them.
#[derive(Debug)]
pub enum Shape {
    Operand,
    Prefix(u8, Box<Shape>),
    Infix(Box<Shape>, u8, Box<Shape>),
}

impl Shape {
    pub fn operand() -> (s: Shape)
        ensures
            s == Shape::Operand,
    {
        Shape::Operand
    }

    pub fn prefix(rule: u8, operand: Shape) -> (s: Shape)
        ensures
            s == Shape::Prefix(rule, Box::new(operand)),
    {
        Shape::Prefix(rule, Box::new(operand))
    }

    pub fn infix(left: Shape, rule: u8, right: Shape) -> (s: Shape)
        ensures
            s == Shape::Infix(Box::new(left), rule, Box::new(right)),
    {
        Shape::Infix(Box::new(left), rule, Box::new(right))
    }
}

/// The number under which a run names an operand.
pub const OPERAND: u8 = 0;

/// An operator table of the outside parser: a `pest::pratt_parser::PrattParser`
/// over operator numbers. The verifier does not look inside; what the table
/// holds is known only through `pratt_ops` and `pratt_level`.
#[verifier::external_body]
pub struct PrattTable {
    inner: PrattParser<u8>,
}

/// Operators that are about to enter a table together, at one precedence: a
/// chain of `pest::pratt_parser::Op`. The verifier does not look inside; what
/// the chain holds is known only through `tier_rules`.
#[verifier::external_body]
pub struct TierOps {
    inner: Op<u8>,
}

/// `pest::iterators::PairsBuilder`, which gathers the items of a run. The
/// verifier does not look inside; what it holds is known only through
/// `run_rules`.
#[verifier::external_type_specification]
#[verifier::external_body]
#[verifier::reject_recursive_types(R)]
pub struct ExPairsBuilder<'i, R>(PairsBuilder<'i, R>);

/// The operators that a table holds, by number: the entries of the
/// `PrattParser`'s map, each with its affix and its precedence.
pub uninterp spec fn pratt_ops(t: PrattTable) -> Map<u8, OpInfo>;

/// The precedence that a table gave to the operators it took last: the
/// `PrattParser`'s counter.
pub uninterp spec fn pratt_level(t: PrattTable) -> int;

/// The operators that wait to enter a table together, by number.
pub uninterp spec fn tier_rules(ops: TierOps) -> Map<u8, Affix>;

/// The numbers that a run holds, in order.
pub uninterp spec fn run_rules(run: PairsBuilder<'static, u8>) -> Seq<u8>;

/// The shape that the outside parser gives to a run under a table: what
/// `PrattParserMap::parse` builds when every operand is recorded as
/// `Shape::Operand` and every operator with `Shape::prefix` or `Shape::infix`.
pub uninterp spec fn pratt_shape(ops: Map<u8, OpInfo>, rules: Seq<u8>) -> Shape;

pub open spec fn no_ops() -> Map<u8, OpInfo> {
    Map::empty()
}

pub open spec fn one_rule(rule: u8, affix: Affix) -> Map<u8, Affix> {
    Map::empty().insert(rule, affix)
}

/// `ops` after the operators `rules` entered it at precedence `prec`.
pub open spec fn with_tier(ops: Map<u8, OpInfo>, rules: Map<u8, Affix>, prec: int) -> Map<
    u8,
    OpInfo,
> {
    Map::new(
        |c: u8| ops.dom().contains(c) || rules.dom().contains(c),
        |c: u8|
            if rules.dom().contains(c) {
                OpInfo { affix: rules[c], prec }
            } else {
                ops[c]
            },
    )
}

/// Whether the numbers from `i` on read as the rest of an expression, where
/// an operand or a prefix operator is due next.
pub open spec fn operand_due(ops: Map<u8, OpInfo>, rules: Seq<u8>, i: int) -> bool
    decreases rules.len() - i, 1int,
{
    if !(0 <= i < rules.len()) {
        false
    } else if !ops.dom().contains(rules[i]) {
        operator_due(ops, rules, i + 1)
    } else if ops[rules[i]].affix == Affix::Prefix {
        operand_due(ops, rules, i + 1)
    } else {
        false
    }
}

/// Whether the numbers from `i` on read as the rest of an expression, where
/// an operand has just ended: nothing more, or a binary operator.
pub open spec fn operator_due(ops: Map<u8, OpInfo>, rules: Seq<u8>, i: int) -> bool
    decreases rules.len() - i, 0int,
{
    if !(0 <= i < rules.len()) {
        i == rules.len()
    } else if ops.dom().contains(rules[i]) && ops[rules[i]].affix != Affix::Prefix {
        operand_due(ops, rules, i + 1)
    } else {
        false
    }
}

/// Whether a run reads as prefix operators and an operand, any number of
/// times, with one binary operator between each two.
pub open spec fn alternates(ops: Map<u8, OpInfo>, rules: Seq<u8>) -> bool {
    operand_due(ops, rules, 0)
}

/// `PrattParser::new`: a table without operators. Its precedence counter
/// starts at 10.
#[verifier::external_body]
fn table_new() -> (t: PrattTable)
    ensures
        pratt_ops(t) == no_ops(),
        pratt_level(t) == 10,
{
    PrattTable { inner: PrattParser::new() }
}

/// `PrattParser::op`: raises the precedence counter by 10 and enters every
/// operator of `ops` at the new precedence, over any earlier entry under the
/// same number. The counter is a `u32`.
#[verifier::external_body]
fn table_add(t: PrattTable, ops: TierOps) -> (r: PrattTable)
    requires
        pratt_level(t) + 10 <= u32::MAX,
    ensures
        pratt_level(r) == pratt_level(t) + 10,
        pratt_ops(r) == with_tier(pratt_ops(t), tier_rules(ops), pratt_level(t) + 10),
{
    PrattTable { inner: t.inner.op(ops.inner) }
}

/// `Op::prefix`: one prefix operator.
#[verifier::external_body]
fn op_prefix(rule: u8) -> (ops: TierOps)
    ensures
        tier_rules(ops) == one_rule(rule, Affix::Prefix),
{
    TierOps { inner: Op::prefix(rule) }
}

/// `Op::infix` with `Assoc::Left`: one binary operator that groups to the left.
#[verifier::external_body]
fn op_infix_left(rule: u8) -> (ops: TierOps)
    ensures
        tier_rules(ops) == one_rule(rule, Affix::InfixLeft),
{
    TierOps { inner: Op::infix(rule, pest::pratt_parser::Assoc::Left) }
}

/// `Op::infix` with `Assoc::Right`: one binary operator that groups to the
/// right.
#[verifier::external_body]
fn op_infix_right(rule: u8) -> (ops: TierOps)
    ensures
        tier_rules(ops) == one_rule(rule, Affix::InfixRight),
{
    TierOps { inner: Op::infix(rule, pest::pratt_parser::Assoc::Right) }
}

/// `|` on `Op`: the operators of `b` behind those of `a`. They enter a table
/// in that order, so under a number that both hold `b` decides.
#[verifier::external_body]
fn op_join(a: TierOps, b: TierOps) -> (ops: TierOps)
    ensures
        tier_rules(ops) == tier_rules(a).union_prefer_right(tier_rules(b)),
{
    TierOps { inner: a.inner | b.inner }
}

/// `PairsBuilder::new` over the empty text: a run without items.
#[verifier::external_body]
fn run_new() -> (run: PairsBuilder<'static, u8>)
    ensures
        run_rules(run).len() == 0,
{
    PairsBuilder::new("")
}

/// `PairsBuilder::rule`: one more item behind the others. Every item gets the
/// empty span at offset 0, which lies in any text.
#[verifier::external_body]
fn run_push(run: PairsBuilder<'static, u8>, rule: u8) -> (r: PairsBuilder<'static, u8>)
    ensures
        run_rules(r) == run_rules(run).push(rule),
{
    run.rule(rule, 0, 0)
}

/// `PairsBuilder::build` and `PrattParserMap::parse`: the outside parser's
/// reading of a run. It depends on nothing but the table's operators and the
/// run's numbers. The outside parser panics on a run that does not alternate.
#[verifier::external_body]
fn resolve(table: &PrattTable, run: PairsBuilder<'static, u8>) -> (shape: Shape)
    requires
        alternates(pratt_ops(*table), run_rules(run)),
    ensures
        shape == pratt_shape(pratt_ops(*table), run_rules(run)),
{
    table.inner.map_primary(|_operand| Shape::operand())
        .map_prefix(|op, operand| Shape::prefix(op.as_rule(), operand))
        .map_infix(|left, op, right| Shape::infix(left, op.as_rule(), right))
        .parse(run.build())
}

pub open spec fn affix_of(d: OperatorDescriptor) -> Affix {
    match d.arity {
        Arity::Prefix => Affix::Prefix,
        _ => match d.assoc {
            Assoc::Right => Affix::InfixRight,
            _ => Affix::InfixLeft,
        },
    }
}

/// The outside parser's view of the first `n` lines of the operator table:
/// line `i` under the number `i + 1`, at precedence `10 + 10 * tier`.
pub open spec fn ops_upto(n: int) -> Map<u8, OpInfo> {
    Map::new(
        |c: u8| 1 <= c <= n,
        |c: u8|
            OpInfo { affix: affix_of(table_entry(c - 1)), prec: 10 + 10 * table_entry(c - 1).tier },
    )
}

/// The outside parser's view of the operator table: every prefix and binary
/// operator. A non-associative operator is entered as grouping to the left.
pub open spec fn resolver_ops() -> Map<u8, OpInfo> {
    ops_upto(RESOLVED_LEN as int)
}

/// The operators of lines `from..to`, as they wait to enter a table.
pub open spec fn group_rules(from: int, to: int) -> Map<u8, Affix> {
    Map::new(|c: u8| from + 1 <= c <= to, |c: u8| affix_of(table_entry(c - 1)))
}

fn op_for(i: usize) -> (ops: TierOps)
    requires
        i < RESOLVED_LEN,
    ensures
        tier_rules(ops) =~= group_rules(i as int, i + 1),
{
    let d = operator_at(i);
    let rule: u8 = (i + 1) as u8;
    match d.arity {
        Arity::Prefix => op_prefix(rule),
        _ => match d.assoc {
            Assoc::Right => op_infix_right(rule),
            _ => op_infix_left(rule),
        },
    }
}

/// Builds the outside parser's table from the operator table, one tier after
/// the other, loosest first.
pub fn build_table() -> (t: PrattTable)
    ensures
        pratt_ops(t) == resolver_ops(),
{
    let mut t = table_new();
    let mut chain = op_for(0);
    let mut g: usize = 0;
    let mut i: usize = 1;
    assert(pratt_ops(t) =~= ops_upto(0));
    while i < RESOLVED_LEN
        invariant
            1 <= i <= RESOLVED_LEN,
            g < i,
            pratt_ops(t) =~= ops_upto(g as int),
            pratt_level(t) == 10 * table_entry(g as int).tier,
            tier_rules(chain) =~= group_rules(g as int, i as int),
            forall|j: int| g <= j < i ==> table_entry(j).tier == table_entry(g as int).tier,
        decreases RESOLVED_LEN - i,
    {
        let d = operator_at(i);
        let prev = operator_at(i - 1);
        let op = op_for(i);
        if d.tier == prev.tier {
            chain = op_join(chain, op);
        } else {
            t = table_add(t, chain);
            assert(pratt_ops(t) =~= ops_upto(i as int));
            chain = op;
            g = i;
        }
        i += 1;
    }
    t = table_add(t, chain);
    assert(pratt_ops(t) =~= resolver_ops());
    t
}

/// How the outside parser's table treats the number `code`, if it holds it.
fn affix_at(code: u8) -> (r: Option<Affix>)
    ensures
        r.is_some() == resolver_ops().dom().contains(code),
        r.is_some() ==> r.unwrap() == resolver_ops()[code].affix,
{
    if 1 <= code && code as usize <= RESOLVED_LEN {
        let d = operator_at((code - 1) as usize);
        Some(
            match d.arity {
                Arity::Prefix => Affix::Prefix,
                _ => match d.assoc {
                    Assoc::Right => Affix::InfixRight,
                    _ => Affix::InfixLeft,
                },
            },
        )
    } else {
        None
    }
}

/// Whether a run alternates under the operator table.
pub fn run_alternates(codes: &Vec<u8>) -> (r: bool)
    ensures
        r == alternates(resolver_ops(), codes@),
{
    let mut i: usize = 0;
    let mut operand_next = true;
    while i < codes.len()
        invariant
            i <= codes.len(),
            alternates(resolver_ops(), codes@) == if operand_next {
                operand_due(resolver_ops(), codes@, i as int)
            } else {
                operator_due(resolver_ops(), codes@, i as int)
            },
        decreases codes.len() - i,
    {
        match affix_at(codes[i]) {
            None => {
                if operand_next {
                    operand_next = false;
                } else {
                    return false;
                }
            },
            Some(Affix::Prefix) => {
                if !operand_next {
                    return false;
                }
            },
            Some(_) => {
                if operand_next {
                    return false;
                } else {
                    operand_next = true;
                }
            },
        }
        i += 1;
    }
    !operand_next
}

/// The shape of a run under the operator table: the outside parser's reading
/// if the run alternates, nothing otherwise.
pub fn shape_of(table: &PrattTable, codes: &Vec<u8>) -> (r: Option<Shape>)
    requires
        pratt_ops(*table) == resolver_ops(),
    ensures
        r == if alternates(resolver_ops(), codes@) {
            Some(pratt_shape(resolver_ops(), codes@))
        } else {
            None::<Shape>
        },
{
    if !run_alternates(codes) {
        return None;
    }
    let mut run = run_new();
    let mut i: usize = 0;
    assert(run_rules(run) =~= codes@.subrange(0, 0));
    while i < codes.len()
        invariant
            i <= codes.len(),
            run_rules(run) == codes@.subrange(0, i as int),
        decreases codes.len() - i,
    {
        let ghost before = run_rules(run);
        run = run_push(run, codes[i]);
        assert(before.push(codes@[i as int]) =~= codes@.subrange(0, i + 1));
        i += 1;
    }
    assert(codes@.subrange(0, codes.len() as int) =~= codes@);
    Some(resolve(table, run))
}

/// The numbers of a shape, read from left to right.
pub open spec fn shape_codes(shape: Shape) -> Seq<u8>
    decreases shape,
{
    match shape {
        Shape::Operand => seq![OPERAND],
        Shape::Prefix(rule, operand) => seq![rule] + shape_codes(*operand),
        Shape::Infix(left, rule, right) => shape_codes(*left) + seq![rule] + shape_codes(*right),
    }
}

/// Appends the numbers of `shape`, read from left to right.
fn flatten(shape: &Shape, out: &mut Vec<u8>)
    ensures
        final(out)@ == old(out)@ + shape_codes(*shape),
    decreases *shape,
{
    match shape {
        Shape::Operand => {
            out.push(OPERAND);
            assert(out@ =~= old(out)@ + shape_codes(*shape));
        },
        Shape::Prefix(rule, operand) => {
            out.push(*rule);
            flatten(operand, out);
            assert(out@ =~= old(out)@ + shape_codes(*shape));
        },
        Shape::Infix(left, rule, right) => {
            flatten(left, out);
            out.push(*rule);
            flatten(right, out);
            assert(out@ =~= old(out)@ + shape_codes(*shape));
        },
    }
}

/// Whether `shape`, read from left to right, is exactly the run `codes`.
pub fn fits(shape: &Shape, codes: &Vec<u8>) -> (r: bool)
    ensures
        r == (shape_codes(*shape) == codes@),
{
    let mut flat: Vec<u8> = Vec::new();
    flatten(shape, &mut flat);
    assert(flat@ =~= shape_codes(*shape));
    if flat.len() != codes.len() {
        return false;
    }
    let mut i: usize = 0;
    while i < flat.len()
        invariant
            i <= flat.len(),
            flat.len() == codes.len(),
            flat@ == shape_codes(*shape),
            forall|j: int| 0 <= j < i ==> flat@[j] == codes@[j],
        decreases flat.len() - i,
    {
        if flat[i] != codes[i] {
            return false;
        }
        i += 1;
    }
    assert(flat@ =~= codes@);
    true
}

/// Whether `rule` names a line of the operator table that holds a prefix
/// operator (`prefix`) or a binary one.
pub open spec fn names_line(rule: u8, prefix: bool) -> bool {
    1 <= rule <= RESOLVED_LEN && (table_entry(rule - 1).arity == Arity::Prefix) == prefix
}

/// Whether the binary operator under `rule` may have `shape` as its left
/// operand: an operand, or an operator of a tighter tier, or a binary
/// operator of its own tier unless the tier groups to the right.
pub open spec fn fits_left(rule: u8, shape: Shape) -> bool {
    match shape {
        Shape::Operand => true,
        Shape::Prefix(inner, _) => line_tier(inner - 1) > line_tier(rule - 1),
        Shape::Infix(_, inner, _) => line_tier(inner - 1) > line_tier(rule - 1) || (line_tier(
            inner - 1,
        ) == line_tier(rule - 1) && table_entry(rule - 1).assoc != Assoc::Right),
    }
}

/// Whether the binary operator under `rule` may have `shape` as its right
/// operand: an operand or a prefix operator, or a binary operator of a
/// tighter tier, or one of its own tier if the tier groups to the right.
pub open spec fn fits_right(rule: u8, shape: Shape) -> bool {
    match shape {
        Shape::Infix(_, inner, _) => line_tier(inner - 1) > line_tier(rule - 1) || (line_tier(
            inner - 1,
        ) == line_tier(rule - 1) && table_entry(rule - 1).assoc == Assoc::Right),
        _ => true,
    }
}

/// Whether the prefix operator under `rule` may have `shape` as its operand:
/// anything but a binary operator of a looser tier.
pub open spec fn fits_under(rule: u8, shape: Shape) -> bool {
    match shape {
        Shape::Infix(_, inner, _) => line_tier(inner - 1) >= line_tier(rule - 1),
        _ => true,
    }
}

/// Whether a shape obeys the operator table: every operator in it is named by
/// a line of the table of its own kind, and none stands over an operand that
/// the table does not let it have.
pub open spec fn obeys_table(shape: Shape) -> bool
    decreases shape,
{
    match shape {
        Shape::Operand => true,
        Shape::Prefix(rule, operand) => names_line(rule, true) && obeys_table(*operand)
            && fits_under(rule, *operand),
        Shape::Infix(left, rule, right) => names_line(rule, false) && obeys_table(*left)
            && obeys_table(*right) && fits_left(rule, *left) && fits_right(rule, *right),
    }
}

/// The tier of the line that `rule` names; zero if it names none.
fn tier_under(rule: u8) -> (t: u8)
    ensures
        t == line_tier(rule - 1),
{
    if 1 <= rule && rule as usize <= RESOLVED_LEN {
        operator_at((rule - 1) as usize).tier
    } else {
        0
    }
}

fn line_named(rule: u8, prefix: bool) -> (r: bool)
    ensures
        r == names_line(rule, prefix),
{
    if 1 <= rule && rule as usize <= RESOLVED_LEN {
        let is_prefix = match operator_at((rule - 1) as usize).arity {
            Arity::Prefix => true,
            _ => false,
        };
        is_prefix == prefix
    } else {
        false
    }
}

/// Whether a shape obeys the operator table.
pub fn obeys(shape: &Shape) -> (r: bool)
    ensures
        r == obeys_table(*shape),
    decreases *shape,
{
    match shape {
        Shape::Operand => true,
        Shape::Prefix(rule, operand) => {
            let under = match &**operand {
                Shape::Infix(_, inner, _) => tier_under(*inner) >= tier_under(*rule),
                _ => true,
            };
            line_named(*rule, true) && under && obeys(operand)
        },
        Shape::Infix(left, rule, right) => {
            let groups_right = line_named(*rule, false) && match operator_at(
                (*rule - 1) as usize,
            ).assoc {
                Assoc::Right => true,
                _ => false,
            };
            let on_left = match &**left {
                Shape::Operand => true,
                Shape::Prefix(inner, _) => tier_under(*inner) > tier_under(*rule),
                Shape::Infix(_, inner, _) => tier_under(*inner) > tier_under(*rule) || (tier_under(
                    *inner,
                ) == tier_under(*rule) && !groups_right),
            };
            let on_right = match &**right {
                Shape::Infix(_, inner, _) => tier_under(*inner) > tier_under(*rule) || (tier_under(
                    *inner,
                ) == tier_under(*rule) && groups_right),
                _ => true,
            };
            line_named(*rule, false) && on_left && on_right && obeys(left) && obeys(right)
        },
    }
}

} // verus!
