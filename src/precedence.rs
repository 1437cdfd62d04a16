use vstd::prelude::*;
use crate::lexer::Token;

verus! {

/// The kind of one row of the precedence table.
#[derive(Clone, Copy, Debug, PartialEq, Eq, Structural)]
pub enum OpType {
    LeftAssoc,
    RightAssoc,
    Unary,
}

/// The level given to a token that no row of the table holds.
pub const INFINITY: usize = 1000000;

/// The precedence table, lowest level first. A token may stand in a binary
/// row and in a unary row at once.
pub open spec fn prec_rows() -> Seq<(OpType, Seq<Token>)> {
    seq![
        (OpType::LeftAssoc, seq![Token::Plus, Token::Minus]),
        (OpType::LeftAssoc, seq![Token::Mult, Token::Div, Token::Mod]),
        (OpType::Unary, seq![Token::Minus]),
        (OpType::RightAssoc, seq![Token::Pow]),
    ]
}

/// Row `i` holds `tok` as a binary operator.
pub open spec fn infix_row(i: int, tok: Token) -> bool {
    0 <= i < prec_rows().len() && prec_rows()[i].0 != OpType::Unary && prec_rows()[i].1.contains(tok)
}

/// Row `i` holds `tok` as a unary operator.
pub open spec fn unary_row(i: int, tok: Token) -> bool {
    0 <= i < prec_rows().len() && prec_rows()[i].0 == OpType::Unary && prec_rows()[i].1.contains(tok)
}

/// Row `i` is a binary row.
pub open spec fn binary_level(i: int) -> bool {
    0 <= i < prec_rows().len() && prec_rows()[i].0 != OpType::Unary
}

/// The level at which a binary `tok` binds, or `INFINITY`.
#[verifier::opaque]
pub open spec fn spec_infix_prec(tok: Token) -> int {
    if exists|i: int| infix_row(i, tok) {
        choose|i: int| infix_row(i, tok)
    } else {
        INFINITY as int
    }
}

/// The level at which a unary `tok` binds, or `INFINITY`.
#[verifier::opaque]
pub open spec fn spec_unary_prec(tok: Token) -> int {
    if exists|i: int| unary_row(i, tok) {
        choose|i: int| unary_row(i, tok)
    } else {
        INFINITY as int
    }
}

/// The first binary level above `prec`, skipping unary rows, or `INFINITY`.
#[verifier::opaque]
pub open spec fn spec_next_prec(prec: int) -> int {
    if exists|j: int| prec < j && binary_level(j) {
        choose|j: int| prec < j && binary_level(j) && forall|k: int| prec < k < j ==> !binary_level(k)
    } else {
        INFINITY as int
    }
}

proof fn lemma_rows()
    ensures
        prec_rows().len() == 4,
        prec_rows()[0] == (OpType::LeftAssoc, seq![Token::Plus, Token::Minus]),
        prec_rows()[1] == (OpType::LeftAssoc, seq![Token::Mult, Token::Div, Token::Mod]),
        prec_rows()[2] == (OpType::Unary, seq![Token::Minus]),
        prec_rows()[3] == (OpType::RightAssoc, seq![Token::Pow]),
{
}

proof fn lemma_contains(s: Seq<Token>, t: Token)
    ensures
        s.len() == 1 ==> (s.contains(t) <==> s[0] == t),
        s.len() == 2 ==> (s.contains(t) <==> s[0] == t || s[1] == t),
        s.len() == 3 ==> (s.contains(t) <==> s[0] == t || s[1] == t || s[2] == t),
{
    if s.len() == 1 && s[0] == t { assert(s[0] == t); }
    if s.len() == 2 && s[1] == t { assert(s[1] == t); }
    if s.len() == 2 && s[0] == t { assert(s[0] == t); }
    if s.len() == 3 && s[0] == t { assert(s[0] == t); }
    if s.len() == 3 && s[1] == t { assert(s[1] == t); }
    if s.len() == 3 && s[2] == t { assert(s[2] == t); }
}

/// Membership of each token in each row, spelled out.
pub proof fn lemma_table(tok: Token)
    ensures
        infix_row(0, tok) <==> (tok == Token::Plus || tok == Token::Minus),
        infix_row(1, tok) <==> (tok == Token::Mult || tok == Token::Div || tok == Token::Mod),
        !infix_row(2, tok),
        infix_row(3, tok) <==> tok == Token::Pow,
        unary_row(2, tok) <==> tok == Token::Minus,
        !unary_row(0, tok) && !unary_row(1, tok) && !unary_row(3, tok),
        forall|i: int| infix_row(i, tok) ==> 0 <= i < 4 && i != 2,
        forall|i: int| unary_row(i, tok) ==> i == 2,
        binary_level(0) && binary_level(1) && !binary_level(2) && binary_level(3),
        forall|i: int| binary_level(i) ==> 0 <= i < 4,
{
    lemma_rows();
    lemma_contains(prec_rows()[0].1, tok);
    lemma_contains(prec_rows()[1].1, tok);
    lemma_contains(prec_rows()[2].1, tok);
    lemma_contains(prec_rows()[3].1, tok);
}

/// The level at which `tok` binds as a binary operator, `INFINITY` if none.
pub fn infix_prec(tok: &Token) -> (r: usize)
    ensures
        r as int == spec_infix_prec(*tok),
        r != INFINITY ==> infix_row(r as int, *tok),
        r == INFINITY <==> forall|i: int| !infix_row(i, *tok),
{
    proof {
        lemma_table(*tok);
        reveal(spec_infix_prec);
    }
    match tok {
        Token::Plus | Token::Minus => {
            assert(infix_row(0, *tok));
            0
        },
        Token::Mult | Token::Div | Token::Mod => {
            assert(infix_row(1, *tok));
            1
        },
        Token::Pow => {
            assert(infix_row(3, *tok));
            3
        },
        _ => INFINITY,
    }
}

/// The level at which `tok` binds as a unary operator, `INFINITY` if none.
pub fn unary_prec(tok: &Token) -> (r: usize)
    ensures
        r as int == spec_unary_prec(*tok),
        r != INFINITY ==> unary_row(r as int, *tok),
        r == INFINITY <==> forall|i: int| !unary_row(i, *tok),
{
    proof {
        lemma_table(*tok);
        reveal(spec_unary_prec);
    }
    match tok {
        Token::Minus => {
            assert(unary_row(2, *tok));
            2
        },
        _ => INFINITY,
    }
}

/// Whether some unary row holds `tok`.
pub fn is_unary(tok: &Token) -> (r: bool)
    ensures
        r <==> exists|i: int| unary_row(i, *tok),
        r <==> spec_unary_prec(*tok) != INFINITY,
{
    proof {
        lemma_table(*tok);
        reveal(spec_unary_prec);
    }
    match tok {
        Token::Minus => {
            assert(unary_row(2, *tok));
            true
        },
        _ => false,
    }
}

/// The number of rows of the table.
pub fn prec_amount() -> (r: usize)
    ensures
        r == prec_rows().len(),
{
    proof {
        lemma_rows();
    }
    4
}

/// The associativity of row `prec`.
pub fn prec_type(prec: usize) -> (r: OpType)
    requires
        prec < prec_rows().len(),
    ensures
        r == prec_rows()[prec as int].0,
{
    proof {
        lemma_rows();
    }
    if prec == 0 {
        OpType::LeftAssoc
    } else if prec == 1 {
        OpType::LeftAssoc
    } else if prec == 2 {
        OpType::Unary
    } else {
        OpType::RightAssoc
    }
}

/// The first binary level above `prec`, skipping unary rows, or `INFINITY`.
pub fn next_prec(prec: usize) -> (r: usize)
    requires
        prec < INFINITY,
    ensures
        r as int == spec_next_prec(prec as int),
        r != INFINITY ==> prec < r < prec_rows().len() && binary_level(r as int),
        r != INFINITY ==> forall|k: int| prec < k < r ==> !binary_level(k),
        r == INFINITY ==> forall|k: int| prec < k ==> !binary_level(k),
{
    proof {
        lemma_table(Token::Eof);
        reveal(spec_next_prec);
    }
    let amount = prec_amount();
    let mut next: usize = if prec + 1 < amount { prec + 1 } else { INFINITY };
    while next != INFINITY
        invariant
            next == INFINITY || prec < next < amount,
            amount == prec_rows().len(),
            forall|k: int| prec < k < next && k < amount ==> !binary_level(k),
        ensures
            next == INFINITY || (prec < next < amount && binary_level(next as int)),
            forall|k: int| prec < k < next && k < amount ==> !binary_level(k),
        decreases INFINITY - next,
    {
        if prec_type(next) == OpType::Unary {
            next = next + 1;
        } else {
            break;
        }
        if next == amount {
            next = INFINITY;
        }
    }
    proof {
        if next != INFINITY {
            assert(binary_level(next as int));
            assert(prec < next && binary_level(next as int) && forall|k: int| prec < k < next ==> !binary_level(k));
        }
    }
    next
}

/// The levels of the table, spelled out.
pub proof fn lemma_prec_values()
    ensures
        spec_next_prec(0) == 1,
        spec_next_prec(1) == 3,
        spec_next_prec(2) == 3,
        spec_next_prec(3) == INFINITY as int,
        forall|t: Token| #[trigger] spec_infix_prec(t) == if t == Token::Plus || t == Token::Minus {
            0int
        } else if t == Token::Mult || t == Token::Div || t == Token::Mod {
            1int
        } else if t == Token::Pow {
            3int
        } else {
            INFINITY as int
        },
        prec_rows()[0].0 == OpType::LeftAssoc,
        prec_rows()[1].0 == OpType::LeftAssoc,
        prec_rows()[3].0 == OpType::RightAssoc,
        prec_rows().len() == 4,
        spec_unary_prec(Token::Minus) == 2,
{
    reveal(spec_unary_prec);
    lemma_table(Token::Minus);
    assert(unary_row(2, Token::Minus));
    lemma_rows();
    lemma_table(Token::Eof);
    reveal(spec_next_prec);
    reveal(spec_infix_prec);
    assert(0 < 1 && binary_level(1));
    assert(1 < 3 && binary_level(3));
    assert(2 < 3 && binary_level(3));
    assert forall|t: Token| #[trigger] spec_infix_prec(t) == if t == Token::Plus || t == Token::Minus {
        0int
    } else if t == Token::Mult || t == Token::Div || t == Token::Mod {
        1int
    } else if t == Token::Pow {
        3int
    } else {
        INFINITY as int
    } by {
        lemma_table(t);
        if t == Token::Plus || t == Token::Minus {
            assert(infix_row(0, t));
        } else if t == Token::Mult || t == Token::Div || t == Token::Mod {
            assert(infix_row(1, t));
        } else if t == Token::Pow {
            assert(infix_row(3, t));
        }
    }
}

} // verus!
