//! The operator table: which symbols are operators, how tightly each binds,
//! and to which side it groups.
use crate::parser::token::Operator;
use vstd::prelude::*;

verus! {

/// To which side operators of one tier group.
#[derive(Clone, Copy, Debug, PartialEq, Eq, Structural)]
pub enum Assoc {
    Left,
    Right,
    /// Two operators of the tier may not stand side by side.
    NonAssoc,
}

/// Where an operator stands relative to its operands.
#[derive(Clone, Copy, Debug, PartialEq, Eq, Structural)]
pub enum Arity {
    Prefix,
    Postfix,
    Binary,
}

/// One line of the operator table. A lower tier binds looser.
#[derive(Clone, Copy, Debug, PartialEq, Eq, Structural)]
pub struct OperatorDescriptor {
    pub symbol: Operator,
    pub tier: u8,
    pub assoc: Assoc,
    pub arity: Arity,
}

/// The number of lines in the table.
pub const TABLE_LEN: usize = 36;

/// The number of lines that take part in precedence resolution: the prefix
/// and binary operators, which come first. The access operators that follow
/// bind tighter than all of them and are applied to their operand before
/// precedence is resolved.
pub const RESOLVED_LEN: usize = 32;

/// The tightest tier among the prefix and binary operators.
pub const TOP_TIER: u8 = 15;

/// Line `i` of the table, for `0 <= i < TABLE_LEN`. The lines are sorted by
/// tier:
///
/// | tier | operators | |
/// |---|---|---|
/// | 1 | `in` | left |
/// | 2 | `?` | left, also prefix |
/// | 3 | `=` | right |
/// | 4 | `<-` `<<-` `:=` | right |
/// | 5 | `->` `->>` | left |
/// | 6 | `~` | left, also prefix |
/// | 7 | `\|\|` `\|` | left |
/// | 8 | `&&` `&` | left |
/// | 9 | `==` `!=` `<` `>` `<=` `>=` | none |
/// | 10 | `+` `-` | left |
/// | 11 | `*` `/` | left |
/// | 12 | `%any%` `\|>` | left |
/// | 13 | `:` | left |
/// | 14 | `-` `+` `!` | prefix |
/// | 15 | `^` | right |
/// | 16 | `$` `@` | postfix |
/// | 17 | `::` `:::` | postfix |
///
/// Prefix `-` sits one tier below `^`, so `-2^2` is `-(2^2)`.
pub open spec fn table_entry(i: int) -> OperatorDescriptor {
    if i == 0 {
        OperatorDescriptor {
            symbol: Operator::In,
            tier: 1,
            assoc: Assoc::Left,
            arity: Arity::Binary,
        }
    } else if i == 1 {
        OperatorDescriptor {
            symbol: Operator::Question,
            tier: 2,
            assoc: Assoc::Left,
            arity: Arity::Binary,
        }
    } else if i == 2 {
        OperatorDescriptor {
            symbol: Operator::Question,
            tier: 2,
            assoc: Assoc::Right,
            arity: Arity::Prefix,
        }
    } else if i == 3 {
        OperatorDescriptor {
            symbol: Operator::EqAssign,
            tier: 3,
            assoc: Assoc::Right,
            arity: Arity::Binary,
        }
    } else if i == 4 {
        OperatorDescriptor {
            symbol: Operator::LeftAssign,
            tier: 4,
            assoc: Assoc::Right,
            arity: Arity::Binary,
        }
    } else if i == 5 {
        OperatorDescriptor {
            symbol: Operator::LeftSuperAssign,
            tier: 4,
            assoc: Assoc::Right,
            arity: Arity::Binary,
        }
    } else if i == 6 {
        OperatorDescriptor {
            symbol: Operator::ColonAssign,
            tier: 4,
            assoc: Assoc::Right,
            arity: Arity::Binary,
        }
    } else if i == 7 {
        OperatorDescriptor {
            symbol: Operator::RightAssign,
            tier: 5,
            assoc: Assoc::Left,
            arity: Arity::Binary,
        }
    } else if i == 8 {
        OperatorDescriptor {
            symbol: Operator::RightSuperAssign,
            tier: 5,
            assoc: Assoc::Left,
            arity: Arity::Binary,
        }
    } else if i == 9 {
        OperatorDescriptor {
            symbol: Operator::Tilde,
            tier: 6,
            assoc: Assoc::Left,
            arity: Arity::Binary,
        }
    } else if i == 10 {
        OperatorDescriptor {
            symbol: Operator::Tilde,
            tier: 6,
            assoc: Assoc::Right,
            arity: Arity::Prefix,
        }
    } else if i == 11 {
        OperatorDescriptor {
            symbol: Operator::OrOr,
            tier: 7,
            assoc: Assoc::Left,
            arity: Arity::Binary,
        }
    } else if i == 12 {
        OperatorDescriptor {
            symbol: Operator::Or,
            tier: 7,
            assoc: Assoc::Left,
            arity: Arity::Binary,
        }
    } else if i == 13 {
        OperatorDescriptor {
            symbol: Operator::AndAnd,
            tier: 8,
            assoc: Assoc::Left,
            arity: Arity::Binary,
        }
    } else if i == 14 {
        OperatorDescriptor {
            symbol: Operator::And,
            tier: 8,
            assoc: Assoc::Left,
            arity: Arity::Binary,
        }
    } else if i == 15 {
        OperatorDescriptor {
            symbol: Operator::EqEq,
            tier: 9,
            assoc: Assoc::NonAssoc,
            arity: Arity::Binary,
        }
    } else if i == 16 {
        OperatorDescriptor {
            symbol: Operator::Ne,
            tier: 9,
            assoc: Assoc::NonAssoc,
            arity: Arity::Binary,
        }
    } else if i == 17 {
        OperatorDescriptor {
            symbol: Operator::Lt,
            tier: 9,
            assoc: Assoc::NonAssoc,
            arity: Arity::Binary,
        }
    } else if i == 18 {
        OperatorDescriptor {
            symbol: Operator::Gt,
            tier: 9,
            assoc: Assoc::NonAssoc,
            arity: Arity::Binary,
        }
    } else if i == 19 {
        OperatorDescriptor {
            symbol: Operator::Le,
            tier: 9,
            assoc: Assoc::NonAssoc,
            arity: Arity::Binary,
        }
    } else if i == 20 {
        OperatorDescriptor {
            symbol: Operator::Ge,
            tier: 9,
            assoc: Assoc::NonAssoc,
            arity: Arity::Binary,
        }
    } else if i == 21 {
        OperatorDescriptor {
            symbol: Operator::Plus,
            tier: 10,
            assoc: Assoc::Left,
            arity: Arity::Binary,
        }
    } else if i == 22 {
        OperatorDescriptor {
            symbol: Operator::Minus,
            tier: 10,
            assoc: Assoc::Left,
            arity: Arity::Binary,
        }
    } else if i == 23 {
        OperatorDescriptor {
            symbol: Operator::Star,
            tier: 11,
            assoc: Assoc::Left,
            arity: Arity::Binary,
        }
    } else if i == 24 {
        OperatorDescriptor {
            symbol: Operator::Slash,
            tier: 11,
            assoc: Assoc::Left,
            arity: Arity::Binary,
        }
    } else if i == 25 {
        OperatorDescriptor {
            symbol: Operator::Special,
            tier: 12,
            assoc: Assoc::Left,
            arity: Arity::Binary,
        }
    } else if i == 26 {
        OperatorDescriptor {
            symbol: Operator::Pipe,
            tier: 12,
            assoc: Assoc::Left,
            arity: Arity::Binary,
        }
    } else if i == 27 {
        OperatorDescriptor {
            symbol: Operator::Colon,
            tier: 13,
            assoc: Assoc::Left,
            arity: Arity::Binary,
        }
    } else if i == 28 {
        OperatorDescriptor {
            symbol: Operator::Minus,
            tier: 14,
            assoc: Assoc::Right,
            arity: Arity::Prefix,
        }
    } else if i == 29 {
        OperatorDescriptor {
            symbol: Operator::Plus,
            tier: 14,
            assoc: Assoc::Right,
            arity: Arity::Prefix,
        }
    } else if i == 30 {
        OperatorDescriptor {
            symbol: Operator::Not,
            tier: 14,
            assoc: Assoc::Right,
            arity: Arity::Prefix,
        }
    } else if i == 31 {
        OperatorDescriptor {
            symbol: Operator::Caret,
            tier: 15,
            assoc: Assoc::Right,
            arity: Arity::Binary,
        }
    } else if i == 32 {
        OperatorDescriptor {
            symbol: Operator::Dollar,
            tier: 16,
            assoc: Assoc::Left,
            arity: Arity::Postfix,
        }
    } else if i == 33 {
        OperatorDescriptor {
            symbol: Operator::At,
            tier: 16,
            assoc: Assoc::Left,
            arity: Arity::Postfix,
        }
    } else if i == 34 {
        OperatorDescriptor {
            symbol: Operator::DoubleColon,
            tier: 17,
            assoc: Assoc::Left,
            arity: Arity::Postfix,
        }
    } else {
        OperatorDescriptor {
            symbol: Operator::TripleColon,
            tier: 17,
            assoc: Assoc::Left,
            arity: Arity::Postfix,
        }
    }
}

/// Line `i` of the table.
pub fn operator_at(i: usize) -> (d: OperatorDescriptor)
    ensures
        d == table_entry(i as int),
{
    if i == 0 {
        OperatorDescriptor {
            symbol: Operator::In,
            tier: 1,
            assoc: Assoc::Left,
            arity: Arity::Binary,
        }
    } else if i == 1 {
        OperatorDescriptor {
            symbol: Operator::Question,
            tier: 2,
            assoc: Assoc::Left,
            arity: Arity::Binary,
        }
    } else if i == 2 {
        OperatorDescriptor {
            symbol: Operator::Question,
            tier: 2,
            assoc: Assoc::Right,
            arity: Arity::Prefix,
        }
    } else if i == 3 {
        OperatorDescriptor {
            symbol: Operator::EqAssign,
            tier: 3,
            assoc: Assoc::Right,
            arity: Arity::Binary,
        }
    } else if i == 4 {
        OperatorDescriptor {
            symbol: Operator::LeftAssign,
            tier: 4,
            assoc: Assoc::Right,
            arity: Arity::Binary,
        }
    } else if i == 5 {
        OperatorDescriptor {
            symbol: Operator::LeftSuperAssign,
            tier: 4,
            assoc: Assoc::Right,
            arity: Arity::Binary,
        }
    } else if i == 6 {
        OperatorDescriptor {
            symbol: Operator::ColonAssign,
            tier: 4,
            assoc: Assoc::Right,
            arity: Arity::Binary,
        }
    } else if i == 7 {
        OperatorDescriptor {
            symbol: Operator::RightAssign,
            tier: 5,
            assoc: Assoc::Left,
            arity: Arity::Binary,
        }
    } else if i == 8 {
        OperatorDescriptor {
            symbol: Operator::RightSuperAssign,
            tier: 5,
            assoc: Assoc::Left,
            arity: Arity::Binary,
        }
    } else if i == 9 {
        OperatorDescriptor {
            symbol: Operator::Tilde,
            tier: 6,
            assoc: Assoc::Left,
            arity: Arity::Binary,
        }
    } else if i == 10 {
        OperatorDescriptor {
            symbol: Operator::Tilde,
            tier: 6,
            assoc: Assoc::Right,
            arity: Arity::Prefix,
        }
    } else if i == 11 {
        OperatorDescriptor {
            symbol: Operator::OrOr,
            tier: 7,
            assoc: Assoc::Left,
            arity: Arity::Binary,
        }
    } else if i == 12 {
        OperatorDescriptor {
            symbol: Operator::Or,
            tier: 7,
            assoc: Assoc::Left,
            arity: Arity::Binary,
        }
    } else if i == 13 {
        OperatorDescriptor {
            symbol: Operator::AndAnd,
            tier: 8,
            assoc: Assoc::Left,
            arity: Arity::Binary,
        }
    } else if i == 14 {
        OperatorDescriptor {
            symbol: Operator::And,
            tier: 8,
            assoc: Assoc::Left,
            arity: Arity::Binary,
        }
    } else if i == 15 {
        OperatorDescriptor {
            symbol: Operator::EqEq,
            tier: 9,
            assoc: Assoc::NonAssoc,
            arity: Arity::Binary,
        }
    } else if i == 16 {
        OperatorDescriptor {
            symbol: Operator::Ne,
            tier: 9,
            assoc: Assoc::NonAssoc,
            arity: Arity::Binary,
        }
    } else if i == 17 {
        OperatorDescriptor {
            symbol: Operator::Lt,
            tier: 9,
            assoc: Assoc::NonAssoc,
            arity: Arity::Binary,
        }
    } else if i == 18 {
        OperatorDescriptor {
            symbol: Operator::Gt,
            tier: 9,
            assoc: Assoc::NonAssoc,
            arity: Arity::Binary,
        }
    } else if i == 19 {
        OperatorDescriptor {
            symbol: Operator::Le,
            tier: 9,
            assoc: Assoc::NonAssoc,
            arity: Arity::Binary,
        }
    } else if i == 20 {
        OperatorDescriptor {
            symbol: Operator::Ge,
            tier: 9,
            assoc: Assoc::NonAssoc,
            arity: Arity::Binary,
        }
    } else if i == 21 {
        OperatorDescriptor {
            symbol: Operator::Plus,
            tier: 10,
            assoc: Assoc::Left,
            arity: Arity::Binary,
        }
    } else if i == 22 {
        OperatorDescriptor {
            symbol: Operator::Minus,
            tier: 10,
            assoc: Assoc::Left,
            arity: Arity::Binary,
        }
    } else if i == 23 {
        OperatorDescriptor {
            symbol: Operator::Star,
            tier: 11,
            assoc: Assoc::Left,
            arity: Arity::Binary,
        }
    } else if i == 24 {
        OperatorDescriptor {
            symbol: Operator::Slash,
            tier: 11,
            assoc: Assoc::Left,
            arity: Arity::Binary,
        }
    } else if i == 25 {
        OperatorDescriptor {
            symbol: Operator::Special,
            tier: 12,
            assoc: Assoc::Left,
            arity: Arity::Binary,
        }
    } else if i == 26 {
        OperatorDescriptor {
            symbol: Operator::Pipe,
            tier: 12,
            assoc: Assoc::Left,
            arity: Arity::Binary,
        }
    } else if i == 27 {
        OperatorDescriptor {
            symbol: Operator::Colon,
            tier: 13,
            assoc: Assoc::Left,
            arity: Arity::Binary,
        }
    } else if i == 28 {
        OperatorDescriptor {
            symbol: Operator::Minus,
            tier: 14,
            assoc: Assoc::Right,
            arity: Arity::Prefix,
        }
    } else if i == 29 {
        OperatorDescriptor {
            symbol: Operator::Plus,
            tier: 14,
            assoc: Assoc::Right,
            arity: Arity::Prefix,
        }
    } else if i == 30 {
        OperatorDescriptor {
            symbol: Operator::Not,
            tier: 14,
            assoc: Assoc::Right,
            arity: Arity::Prefix,
        }
    } else if i == 31 {
        OperatorDescriptor {
            symbol: Operator::Caret,
            tier: 15,
            assoc: Assoc::Right,
            arity: Arity::Binary,
        }
    } else if i == 32 {
        OperatorDescriptor {
            symbol: Operator::Dollar,
            tier: 16,
            assoc: Assoc::Left,
            arity: Arity::Postfix,
        }
    } else if i == 33 {
        OperatorDescriptor {
            symbol: Operator::At,
            tier: 16,
            assoc: Assoc::Left,
            arity: Arity::Postfix,
        }
    } else if i == 34 {
        OperatorDescriptor {
            symbol: Operator::DoubleColon,
            tier: 17,
            assoc: Assoc::Left,
            arity: Arity::Postfix,
        }
    } else {
        OperatorDescriptor {
            symbol: Operator::TripleColon,
            tier: 17,
            assoc: Assoc::Left,
            arity: Arity::Postfix,
        }
    }
}

/// The whole table.
pub open spec fn table() -> Seq<OperatorDescriptor> {
    Seq::new(TABLE_LEN as nat, |i: int| table_entry(i))
}

/// The whole table, sorted by tier.
pub fn operator_table() -> (t: Vec<OperatorDescriptor>)
    ensures
        t@ == table(),
{
    let mut t: Vec<OperatorDescriptor> = Vec::new();
    let mut i: usize = 0;
    while i < TABLE_LEN
        invariant
            i <= TABLE_LEN,
            t@.len() == i,
            forall|j: int| 0 <= j < i ==> t@[j] == table_entry(j),
        decreases TABLE_LEN - i,
    {
        t.push(operator_at(i));
        i += 1;
    }
    assert(t@ =~= table());
    t
}

/// The first line from `from` on that holds `symbol` in prefix position
/// (`prefix`) or in binary position (otherwise); `RESOLVED_LEN` if there is
/// none among the prefix and binary operators.
pub open spec fn line_of_operator(symbol: Operator, prefix: bool, from: int) -> int
    decreases RESOLVED_LEN - from,
{
    if !(0 <= from < RESOLVED_LEN) {
        RESOLVED_LEN as int
    } else if table_entry(from).symbol == symbol && (table_entry(from).arity == Arity::Prefix)
        == prefix {
        from
    } else {
        line_of_operator(symbol, prefix, from + 1)
    }
}

/// Looks `symbol` up among the prefix operators (`prefix`) or the binary ones.
pub fn find_operator(symbol: Operator, prefix: bool) -> (r: Option<usize>)
    ensures
        r.is_some() == (line_of_operator(symbol, prefix, 0) < RESOLVED_LEN),
        r.is_some() ==> r.unwrap() == line_of_operator(symbol, prefix, 0),
        r.is_some() ==> r.unwrap() < RESOLVED_LEN && table_entry(r.unwrap() as int).symbol
            == symbol && (table_entry(r.unwrap() as int).arity == Arity::Prefix) == prefix,
{
    let mut i: usize = 0;
    while i < RESOLVED_LEN
        invariant
            i <= RESOLVED_LEN,
            line_of_operator(symbol, prefix, 0) == line_of_operator(symbol, prefix, i as int),
        decreases RESOLVED_LEN - i,
    {
        let d = operator_at(i);
        let is_prefix = match d.arity {
            Arity::Prefix => true,
            _ => false,
        };
        if d.symbol == symbol && is_prefix == prefix {
            return Some(i);
        }
        i += 1;
    }
    None
}

/// Whether `symbol` is one of the assignment operators.
pub open spec fn is_assignment(symbol: Operator) -> bool {
    symbol == Operator::EqAssign || symbol == Operator::LeftAssign || symbol
        == Operator::LeftSuperAssign || symbol == Operator::ColonAssign || symbol
        == Operator::RightAssign || symbol == Operator::RightSuperAssign
}

pub fn assigns(symbol: Operator) -> (r: bool)
    ensures
        r == is_assignment(symbol),
{
    match symbol {
        Operator::EqAssign => true,
        Operator::LeftAssign => true,
        Operator::LeftSuperAssign => true,
        Operator::ColonAssign => true,
        Operator::RightAssign => true,
        Operator::RightSuperAssign => true,
        _ => false,
    }
}

/// The table is sorted by tier, and the tiers run from 1 on without a gap.
pub proof fn lemma_tiers_ascend(i: int)
    requires
        0 <= i < TABLE_LEN,
    ensures
        i == 0 ==> table_entry(i).tier == 1,
        i > 0 ==> table_entry(i - 1).tier <= table_entry(i).tier <= table_entry(i - 1).tier + 1,
        (table_entry(i).arity == Arity::Postfix) == (i >= RESOLVED_LEN),
        i < RESOLVED_LEN ==> table_entry(i).tier <= TOP_TIER,
{
}

/// The signs `-`, `+` and `!` in prefix position bind tighter than every
/// binary operator but `^`, and looser than `^`: line `i` holds one of them,
/// line `j` a binary operator.
pub proof fn lemma_signs_bind_tight(i: int, j: int)
    requires
        0 <= i < RESOLVED_LEN,
        0 <= j < RESOLVED_LEN,
        table_entry(i).arity == Arity::Prefix,
        table_entry(i).symbol == Operator::Minus || table_entry(i).symbol == Operator::Plus
            || table_entry(i).symbol == Operator::Not,
        table_entry(j).arity == Arity::Binary,
    ensures
        table_entry(j).symbol == Operator::Caret ==> table_entry(i).tier < table_entry(j).tier,
        table_entry(j).symbol != Operator::Caret ==> table_entry(j).tier < table_entry(i).tier,
{
}

/// What groups to the right: `^`, the leftward assignments, and nothing else
/// among the binary operators. The comparisons do not associate; every other
/// binary operator groups to the left.
pub proof fn lemma_associativity(j: int)
    requires
        0 <= j < RESOLVED_LEN,
        table_entry(j).arity == Arity::Binary,
    ensures
        table_entry(j).assoc == Assoc::Right <==> (table_entry(j).symbol == Operator::Caret
            || table_entry(j).symbol == Operator::EqAssign || table_entry(j).symbol
            == Operator::LeftAssign || table_entry(j).symbol == Operator::LeftSuperAssign
            || table_entry(j).symbol == Operator::ColonAssign),
        table_entry(j).assoc == Assoc::NonAssoc <==> (table_entry(j).symbol == Operator::EqEq
            || table_entry(j).symbol == Operator::Ne || table_entry(j).symbol == Operator::Lt
            || table_entry(j).symbol == Operator::Gt || table_entry(j).symbol == Operator::Le
            || table_entry(j).symbol == Operator::Ge),
{
}

} // verus!
