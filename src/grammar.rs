use vstd::prelude::*;
use crate::ast::{ExprEntry, Expression, Literal, Statement, StmtEntry, StmtKey};
use crate::lexer::Token;
use crate::sources::CodeArea;
use crate::parser::ParseData;
use crate::precedence::{INFINITY, OpType, lemma_prec_values, prec_rows, spec_infix_prec, spec_next_prec, spec_unary_prec};

verus! {

/// An expression as a tree, the shape a parse gives, each node with its
/// area.
pub enum ExprTree {
    Literal(Literal, CodeArea),
    Op(Box<ExprTree>, Token, Box<ExprTree>, CodeArea),
    Unary(Token, Box<ExprTree>, CodeArea),
    Var(String, CodeArea),
    Array(Seq<ExprTree>, CodeArea),
    Index(Box<ExprTree>, Box<ExprTree>, CodeArea),
    Empty(CodeArea),
}

/// The area of the root of `t`.
pub open spec fn tree_area(t: ExprTree) -> CodeArea {
    match t {
        ExprTree::Literal(_, a) => a,
        ExprTree::Op(_, _, _, a) => a,
        ExprTree::Unary(_, _, a) => a,
        ExprTree::Var(_, a) => a,
        ExprTree::Array(_, a) => a,
        ExprTree::Index(_, _, a) => a,
        ExprTree::Empty(a) => a,
    }
}

/// The area of `pd`'s source from the start of `first` to the end of `last`.
pub open spec fn span_area(pd: &ParseData, first: (usize, usize), last: (usize, usize)) -> CodeArea {
    CodeArea { source: pd.source, span: (first.0, last.1) }
}

/// The binary node `left op right`: it spans from the start of its left
/// operand to the end of its right one.
pub open spec fn op_node(pd: &ParseData, left: ExprTree, op: Token, right: ExprTree) -> ExprTree {
    ExprTree::Op(Box::new(left), op, Box::new(right), span_area(pd, tree_area(left).span, tree_area(right).span))
}

/// Key `k` of `m` roots a copy of `t`.
pub open spec fn denotes(m: Map<u64, ExprEntry>, k: u64, t: ExprTree) -> bool
    decreases t,
{
    m.contains_key(k) && m[k].1 == tree_area(t) && match (m[k].0, t) {
        (Expression::Literal(a), ExprTree::Literal(b, _)) => a == b,
        (Expression::Op(a, op, b), ExprTree::Op(ta, top, tb, _)) => op == top && denotes(m, a.0, *ta) && denotes(
            m,
            b.0,
            *tb,
        ),
        (Expression::Unary(op, a), ExprTree::Unary(top, ta, _)) => op == top && denotes(m, a.0, *ta),
        (Expression::Var(a), ExprTree::Var(b, _)) => a@ == b@,
        (Expression::Array(ks), ExprTree::Array(ts, _)) => ks@.len() == ts.len() && forall|i: int|
            0 <= i < ts.len() ==> denotes(m, ks@[i].0, #[trigger] ts[i]),
        (Expression::Index { base, index }, ExprTree::Index(tb, ti, _)) => denotes(m, base.0, *tb) && denotes(
            m,
            index.0,
            *ti,
        ),
        (Expression::Empty, ExprTree::Empty(_)) => true,
        _ => false,
    }
}

/// What a larger arena holds, it still roots.
pub proof fn lemma_denotes_grows(a: Map<u64, ExprEntry>, b: Map<u64, ExprEntry>, k: u64, t: ExprTree)
    requires
        a.submap_of(b),
        denotes(a, k, t),
    ensures
        denotes(b, k, t),
    decreases t,
{
    assert(b.dom().contains(k));
    match (a[k].0, t) {
        (Expression::Op(x, _, y), ExprTree::Op(tx, _, ty, _)) => {
            lemma_denotes_grows(a, b, x.0, *tx);
            lemma_denotes_grows(a, b, y.0, *ty);
        },
        (Expression::Unary(_, x), ExprTree::Unary(_, tx, _)) => {
            lemma_denotes_grows(a, b, x.0, *tx);
        },
        (Expression::Array(ks), ExprTree::Array(ts, _)) => {
            assert forall|i: int| 0 <= i < ts.len() implies denotes(b, ks@[i].0, #[trigger] ts[i]) by {
                lemma_denotes_grows(a, b, ks@[i].0, ts[i]);
            }
        },
        (Expression::Index { base, index }, ExprTree::Index(tb, ti, _)) => {
            lemma_denotes_grows(a, b, base.0, *tb);
            lemma_denotes_grows(a, b, index.0, *ti);
        },
        _ => {},
    }
}

/// A single value at `pos`: literal, variable, `()`, `( expr )`, array, or
/// unary operator with its operand.
#[verifier::opaque]
pub open spec fn s_unit(pd: &ParseData, pos: int) -> Result<(ExprTree, int), (Seq<char>, int)>
    decreases pd.tokens@.len() - pos, 0int,
{
    if !(0 <= pos < pd.tokens@.len()) {
        Err(("expression"@, pos))
    } else {
        match pd.tok_at(pos) {
            Token::Int(n) => Ok((ExprTree::Literal(Literal::Int(n), span_area(pd, pd.tokens@[pos].1, pd.tokens@[pos].1)), pos + 1)),
            Token::Float(n) => Ok((ExprTree::Literal(Literal::Float(n), span_area(pd, pd.tokens@[pos].1, pd.tokens@[pos].1)), pos + 1)),
            Token::True => Ok((ExprTree::Literal(Literal::Bool(true), span_area(pd, pd.tokens@[pos].1, pd.tokens@[pos].1)), pos + 1)),
            Token::False => Ok((ExprTree::Literal(Literal::Bool(false), span_area(pd, pd.tokens@[pos].1, pd.tokens@[pos].1)), pos + 1)),
            Token::String(s) => Ok((ExprTree::Literal(Literal::String(s), span_area(pd, pd.tokens@[pos].1, pd.tokens@[pos].1)), pos + 1)),
            Token::Ident(s) => Ok((ExprTree::Var(s, span_area(pd, pd.tokens@[pos].1, pd.tokens@[pos].1)), pos + 1)),
            Token::LParen => {
                if pos + 1 < pd.tokens@.len() && pd.tok_at(pos + 1) is RParen {
                    Ok((ExprTree::Empty(span_area(pd, pd.tokens@[pos].1, pd.tokens@[pos + 1].1)), pos + 2))
                } else {
                    match s_expr(pd, pos + 1) {
                        Ok((t, p)) => if 0 <= p < pd.tokens@.len() && pd.tok_at(p) is RParen {
                            Ok((t, p + 1))
                        } else {
                            Err((")"@, p))
                        },
                        Err(e) => Err(e),
                    }
                }
            },
            Token::LSqBracket => match s_array(pd, pos + 1, Seq::empty()) {
                Ok((ts, p)) => Ok((ExprTree::Array(ts, span_area(pd, pd.tokens@[pos].1, pd.tokens@[p].1)), p + 1)),
                Err(e) => Err(e),
            },
            t => {
                if spec_unary_prec(t) != INFINITY {
                    let next = spec_next_prec(spec_unary_prec(t));
                    let operand = if next != INFINITY {
                        s_op(pd, pos + 1, next)
                    } else {
                        s_value(pd, pos + 1)
                    };
                    match operand {
                        Ok((v, p)) => Ok((ExprTree::Unary(t, Box::new(v), span_area(pd, pd.tokens@[pos].1, pd.tokens@[p - 1].1)), p)),
                        Err(e) => Err(e),
                    }
                } else {
                    Err(("expression"@, pos))
                }
            },
        }
    }
}

/// The elements of an array from `pos` up to its `]`, after those in `acc`;
/// the position given back is that of the `]`.
pub open spec fn s_array(pd: &ParseData, pos: int, acc: Seq<ExprTree>) -> Result<(Seq<ExprTree>, int), (Seq<char>, int)>
    decreases pd.tokens@.len() - pos, 21int,
{
    if !(0 <= pos < pd.tokens@.len()) {
        Err(("] or ,"@, pos))
    } else if pd.tok_at(pos) is RSqBracket {
        Ok((acc, pos))
    } else {
        match s_expr(pd, pos) {
            Ok((e, p)) => {
                if !(pos < p < pd.tokens@.len()) {
                    Err(("] or ,"@, p))
                } else if pd.tok_at(p) is RSqBracket {
                    s_array(pd, p, acc.push(e))
                } else if pd.tok_at(p) is Comma {
                    s_array(pd, p + 1, acc.push(e))
                } else {
                    Err(("] or ,"@, p))
                }
            },
            Err(e) => Err(e),
        }
    }
}

/// A unit followed by its `[index]` postfixes.
pub open spec fn s_value(pd: &ParseData, pos: int) -> Result<(ExprTree, int), (Seq<char>, int)>
    decreases pd.tokens@.len() - pos, 1int,
{
    match s_unit(pd, pos) {
        Ok((u, p)) => if pos < p < pd.tokens@.len() {
            s_postfix(pd, u, p)
        } else {
            Err(("expression"@, pos))
        },
        Err(e) => Err(e),
    }
}

/// The `[index]` postfixes from `pos` on, applied to `base`.
pub open spec fn s_postfix(pd: &ParseData, base: ExprTree, pos: int) -> Result<(ExprTree, int), (Seq<char>, int)>
    decreases pd.tokens@.len() - pos, 2int,
{
    if !(0 <= pos < pd.tokens@.len()) {
        Err(("]"@, pos))
    } else if pd.tok_at(pos) is LSqBracket {
        match s_expr(pd, pos + 1) {
            Ok((ix, p)) => if pos + 1 < p < pd.tokens@.len() && pd.tok_at(p) is RSqBracket {
                s_postfix(
                    pd,
                    ExprTree::Index(Box::new(base), Box::new(ix), span_area(pd, tree_area(base).span, pd.tokens@[p].1)),
                    p + 1,
                )
            } else {
                Err(("]"@, p))
            },
            Err(e) => Err(e),
        }
    } else {
        Ok((base, pos))
    }
}

/// Operators of level `prec` and above: operands from the next binary
/// level (or values, past the last one), chained by the operators of
/// this level.
pub open spec fn s_op(pd: &ParseData, pos: int, prec: int) -> Result<(ExprTree, int), (Seq<char>, int)>
    decreases pd.tokens@.len() - pos, 10 - prec,
{
    if !(0 <= prec < prec_rows().len()) || !(0 <= pos < pd.tokens@.len()) {
        Err(("expression"@, pos))
    } else {
        let next = spec_next_prec(prec);
        let left = if prec < next < prec_rows().len() {
            s_op(pd, pos, next)
        } else {
            s_value(pd, pos)
        };
        match left {
            Ok((l, p)) => if pos < p < pd.tokens@.len() {
                s_op_loop(pd, prec, l, p)
            } else {
                Err(("expression"@, pos))
            },
            Err(e) => Err(e),
        }
    }
}

/// The operand that follows an operator of level `prec` at `pos`.
pub open spec fn s_right(pd: &ParseData, prec: int, pos: int) -> Result<(ExprTree, int), (Seq<char>, int)>
    decreases pd.tokens@.len() - pos, 15int,
{
    if !(0 <= prec < prec_rows().len()) || !(0 <= pos < pd.tokens@.len()) {
        Err(("expression"@, pos))
    } else {
        let next = spec_next_prec(prec);
        if prec_rows()[prec].0 == OpType::LeftAssoc {
            if prec < next < prec_rows().len() {
                s_op(pd, pos, next)
            } else {
                s_value(pd, pos)
            }
        } else {
            s_op(pd, pos, prec)
        }
    }
}

/// The operators of level `prec` from `pos` on, folded onto `left`.
pub open spec fn s_op_loop(pd: &ParseData, prec: int, left: ExprTree, pos: int) -> Result<(ExprTree, int), (Seq<char>, int)>
    decreases pd.tokens@.len() - pos, 11int,
{
    if !(0 <= pos < pd.tokens@.len()) {
        Err(("expression"@, pos))
    } else if spec_infix_prec(pd.tok_at(pos)) == prec {
        match s_right(pd, prec, pos + 1) {
            Ok((r, p)) => if pos + 1 < p < pd.tokens@.len() {
                s_op_loop(pd, prec, op_node(pd, left, pd.tok_at(pos), r), p)
            } else {
                Err(("expression"@, pos))
            },
            Err(e) => Err(e),
        }
    } else {
        Ok((left, pos))
    }
}

/// A whole expression at `pos`.
pub open spec fn s_expr(pd: &ParseData, pos: int) -> Result<(ExprTree, int), (Seq<char>, int)>
    decreases pd.tokens@.len() - pos, 20int,
{
    s_op(pd, pos, 0)
}

/// An integer literal or a variable.
pub open spec fn is_atom(t: Token) -> bool {
    t is Int || t is Ident
}

/// The tree of the atom at `q`.
pub open spec fn atom_tree(pd: &ParseData, q: int) -> ExprTree {
    let area = span_area(pd, pd.tokens@[q].1, pd.tokens@[q].1);
    match pd.tok_at(q) {
        Token::Int(n) => ExprTree::Literal(Literal::Int(n), area),
        Token::Ident(s) => ExprTree::Var(s, area),
        _ => ExprTree::Empty(area),
    }
}

/// One of the binary levels of the table.
pub open spec fn binary(l: int) -> bool {
    l == 0 || l == 1 || l == 3
}

proof fn lemma_atom_value(pd: &ParseData, q: int)
    requires
        0 <= q,
        q + 1 < pd.tokens@.len(),
        is_atom(pd.tok_at(q)),
        !(pd.tok_at(q + 1) is LSqBracket),
    ensures
        s_value(pd, q) == Ok::<(ExprTree, int), (Seq<char>, int)>((atom_tree(pd, q), q + 1)),
{
    reveal(s_unit);
    assert(s_unit(pd, q) == Ok::<(ExprTree, int), (Seq<char>, int)>((atom_tree(pd, q), q + 1)));
    assert(s_postfix(pd, atom_tree(pd, q), q + 1) == Ok::<(ExprTree, int), (Seq<char>, int)>((atom_tree(pd, q), q + 1)));
}

/// An atom followed by an operator that binds looser than level `l` (or by
/// no operator) is, at level `l`, the atom alone.
proof fn lemma_atom_op(pd: &ParseData, q: int, l: int)
    requires
        binary(l),
        0 <= q,
        q + 1 < pd.tokens@.len(),
        is_atom(pd.tok_at(q)),
        !(pd.tok_at(q + 1) is LSqBracket),
        spec_infix_prec(pd.tok_at(q + 1)) < l || spec_infix_prec(pd.tok_at(q + 1)) == INFINITY as int,
    ensures
        s_op(pd, q, l) == Ok::<(ExprTree, int), (Seq<char>, int)>((atom_tree(pd, q), q + 1)),
    decreases 3 - l,
{
    lemma_prec_values();
    let a = atom_tree(pd, q);
    if l == 3 {
        lemma_atom_value(pd, q);
    } else {
        let next = spec_next_prec(l);
        lemma_atom_op(pd, q, next);
    }
    assert(s_op_loop(pd, l, a, q + 1) == Ok::<(ExprTree, int), (Seq<char>, int)>((a, q + 1)));
}

/// `b high c`, followed by a token that is no operator, at any binary level
/// up to that of `high`.
proof fn lemma_high(pd: &ParseData, q: int, l: int, hi: int)
    requires
        binary(l),
        binary(hi),
        l <= hi,
        0 <= q,
        q + 3 < pd.tokens@.len(),
        is_atom(pd.tok_at(q)),
        spec_infix_prec(pd.tok_at(q + 1)) == hi,
        is_atom(pd.tok_at(q + 2)),
        spec_infix_prec(pd.tok_at(q + 3)) == INFINITY as int,
        !(pd.tok_at(q + 3) is LSqBracket),
    ensures
        s_op(pd, q, l) == Ok::<(ExprTree, int), (Seq<char>, int)>((
            op_node(pd, atom_tree(pd, q), pd.tok_at(q + 1), atom_tree(pd, q + 2)),
            q + 3,
        )),
    decreases hi - l,
{
    lemma_prec_values();
    let b = atom_tree(pd, q);
    let c = atom_tree(pd, q + 2);
    let t = op_node(pd, b, pd.tok_at(q + 1), c);
    let next = spec_next_prec(l);
    assert(!(pd.tok_at(q + 1) is LSqBracket));
    if l == hi {
        if l == 3 {
            lemma_atom_value(pd, q);
            lemma_atom_op(pd, q + 2, 3);
        } else {
            lemma_atom_op(pd, q, next);
            lemma_atom_op(pd, q + 2, next);
        }
        assert(s_right(pd, l, q + 2) == Ok::<(ExprTree, int), (Seq<char>, int)>((c, q + 3)));
        assert(s_op_loop(pd, l, t, q + 3) == Ok::<(ExprTree, int), (Seq<char>, int)>((t, q + 3)));
        assert(s_op_loop(pd, l, b, q + 1) == Ok::<(ExprTree, int), (Seq<char>, int)>((t, q + 3)));
    } else {
        lemma_high(pd, q, next, hi);
        assert(s_op_loop(pd, l, t, q + 3) == Ok::<(ExprTree, int), (Seq<char>, int)>((t, q + 3)));
    }
}

proof fn lemma_low(pd: &ParseData, pos: int, l: int, lo: int, hi: int)
    requires
        binary(l),
        binary(lo),
        binary(hi),
        l <= lo < hi,
        0 <= pos,
        pos + 5 < pd.tokens@.len(),
        is_atom(pd.tok_at(pos)),
        spec_infix_prec(pd.tok_at(pos + 1)) == lo,
        is_atom(pd.tok_at(pos + 2)),
        spec_infix_prec(pd.tok_at(pos + 3)) == hi,
        is_atom(pd.tok_at(pos + 4)),
        spec_infix_prec(pd.tok_at(pos + 5)) == INFINITY as int,
        !(pd.tok_at(pos + 5) is LSqBracket),
    ensures
        s_op(pd, pos, l) == Ok::<(ExprTree, int), (Seq<char>, int)>((
            op_node(
                pd,
                atom_tree(pd, pos),
                pd.tok_at(pos + 1),
                op_node(pd, atom_tree(pd, pos + 2), pd.tok_at(pos + 3), atom_tree(pd, pos + 4)),
            ),
            pos + 5,
        )),
    decreases lo - l,
{
    lemma_prec_values();
    let a = atom_tree(pd, pos);
    let bc = op_node(pd, atom_tree(pd, pos + 2), pd.tok_at(pos + 3), atom_tree(pd, pos + 4));
    let t = op_node(pd, a, pd.tok_at(pos + 1), bc);
    let next = spec_next_prec(l);
    assert(!(pd.tok_at(pos + 1) is LSqBracket));
    assert(!(pd.tok_at(pos + 3) is LSqBracket));
    if l == lo {
        lemma_atom_op(pd, pos, next);
        lemma_high(pd, pos + 2, next, hi);
        assert(s_right(pd, l, pos + 2) == Ok::<(ExprTree, int), (Seq<char>, int)>((bc, pos + 5)));
        assert(s_op_loop(pd, l, t, pos + 5) == Ok::<(ExprTree, int), (Seq<char>, int)>((t, pos + 5)));
        assert(s_op_loop(pd, l, a, pos + 1) == Ok::<(ExprTree, int), (Seq<char>, int)>((t, pos + 5)));
    } else {
        lemma_low(pd, pos, next, lo, hi);
        assert(s_op_loop(pd, l, t, pos + 5) == Ok::<(ExprTree, int), (Seq<char>, int)>((t, pos + 5)));
    }
}

/// Precedence: when `high` binds tighter than `low` (both binary), the
/// expression `a low b high c` groups as `a low (b high c)`.
pub proof fn lemma_precedence(pd: &ParseData, pos: int)
    requires
        0 <= pos,
        pos + 5 < pd.tokens@.len(),
        is_atom(pd.tok_at(pos)),
        is_atom(pd.tok_at(pos + 2)),
        is_atom(pd.tok_at(pos + 4)),
        spec_infix_prec(pd.tok_at(pos + 1)) < spec_infix_prec(pd.tok_at(pos + 3)) < INFINITY as int,
        spec_infix_prec(pd.tok_at(pos + 5)) == INFINITY as int,
        !(pd.tok_at(pos + 5) is LSqBracket),
    ensures
        s_expr(pd, pos) == Ok::<(ExprTree, int), (Seq<char>, int)>((
            op_node(
                pd,
                atom_tree(pd, pos),
                pd.tok_at(pos + 1),
                op_node(pd, atom_tree(pd, pos + 2), pd.tok_at(pos + 3), atom_tree(pd, pos + 4)),
            ),
            pos + 5,
        )),
{
    lemma_prec_values();
    let lo = spec_infix_prec(pd.tok_at(pos + 1));
    let hi = spec_infix_prec(pd.tok_at(pos + 3));
    lemma_low(pd, pos, 0, lo, hi);
}


/// A parse at a binary level that ends before a token of no operator is the
/// same at every lower binary level.
proof fn lemma_descend(pd: &ParseData, pos: int, l: int, top: int, t: ExprTree, q: int)
    requires
        binary(l),
        binary(top),
        l <= top,
        0 <= pos < q < pd.tokens@.len(),
        s_op(pd, pos, top) == Ok::<(ExprTree, int), (Seq<char>, int)>((t, q)),
        spec_infix_prec(pd.tok_at(q)) == INFINITY as int,
    ensures
        s_op(pd, pos, l) == Ok::<(ExprTree, int), (Seq<char>, int)>((t, q)),
    decreases top - l,
{
    lemma_prec_values();
    if l < top {
        lemma_descend(pd, pos, spec_next_prec(l), top, t, q);
        assert(s_op_loop(pd, l, t, q) == Ok::<(ExprTree, int), (Seq<char>, int)>((t, q)));
    }
}

/// Left associativity: `a op1 b op2 c` with both operators in one
/// left-associative row groups as `(a op1 b) op2 c`.
pub proof fn lemma_left_assoc(pd: &ParseData, pos: int)
    requires
        0 <= pos,
        pos + 5 < pd.tokens@.len(),
        is_atom(pd.tok_at(pos)),
        is_atom(pd.tok_at(pos + 2)),
        is_atom(pd.tok_at(pos + 4)),
        spec_infix_prec(pd.tok_at(pos + 1)) == spec_infix_prec(pd.tok_at(pos + 3)),
        spec_infix_prec(pd.tok_at(pos + 1)) < INFINITY as int,
        prec_rows()[spec_infix_prec(pd.tok_at(pos + 1))].0 == OpType::LeftAssoc,
        spec_infix_prec(pd.tok_at(pos + 5)) == INFINITY as int,
        !(pd.tok_at(pos + 5) is LSqBracket),
    ensures
        s_expr(pd, pos) == Ok::<(ExprTree, int), (Seq<char>, int)>((
            op_node(
                pd,
                op_node(pd, atom_tree(pd, pos), pd.tok_at(pos + 1), atom_tree(pd, pos + 2)),
                pd.tok_at(pos + 3),
                atom_tree(pd, pos + 4),
            ),
            pos + 5,
        )),
{
    lemma_prec_values();
    let lv = spec_infix_prec(pd.tok_at(pos + 1));
    let next = spec_next_prec(lv);
    assert(lv == 0 || lv == 1);
    let a = atom_tree(pd, pos);
    let ab = op_node(pd, a, pd.tok_at(pos + 1), atom_tree(pd, pos + 2));
    let abc = op_node(pd, ab, pd.tok_at(pos + 3), atom_tree(pd, pos + 4));
    assert(!(pd.tok_at(pos + 1) is LSqBracket));
    assert(!(pd.tok_at(pos + 3) is LSqBracket));
    lemma_atom_op(pd, pos, next);
    lemma_atom_op(pd, pos + 2, next);
    lemma_atom_op(pd, pos + 4, next);
    assert(s_right(pd, lv, pos + 2) == Ok::<(ExprTree, int), (Seq<char>, int)>((atom_tree(pd, pos + 2), pos + 3)));
    assert(s_right(pd, lv, pos + 4) == Ok::<(ExprTree, int), (Seq<char>, int)>((atom_tree(pd, pos + 4), pos + 5)));
    assert(s_op_loop(pd, lv, abc, pos + 5) == Ok::<(ExprTree, int), (Seq<char>, int)>((abc, pos + 5)));
    assert(s_op_loop(pd, lv, ab, pos + 3) == Ok::<(ExprTree, int), (Seq<char>, int)>((abc, pos + 5)));
    assert(s_op_loop(pd, lv, a, pos + 1) == Ok::<(ExprTree, int), (Seq<char>, int)>((abc, pos + 5)));
    assert(s_op(pd, pos, lv) == Ok::<(ExprTree, int), (Seq<char>, int)>((abc, pos + 5)));
    lemma_descend(pd, pos, 0, lv, abc, pos + 5);
}

/// Right associativity: `a ^ b ^ c` groups as `a ^ (b ^ c)`.
pub proof fn lemma_right_assoc(pd: &ParseData, pos: int)
    requires
        0 <= pos,
        pos + 5 < pd.tokens@.len(),
        is_atom(pd.tok_at(pos)),
        is_atom(pd.tok_at(pos + 2)),
        is_atom(pd.tok_at(pos + 4)),
        pd.tok_at(pos + 1) == Token::Pow,
        pd.tok_at(pos + 3) == Token::Pow,
        spec_infix_prec(pd.tok_at(pos + 5)) == INFINITY as int,
        !(pd.tok_at(pos + 5) is LSqBracket),
    ensures
        s_expr(pd, pos) == Ok::<(ExprTree, int), (Seq<char>, int)>((
            op_node(
                pd,
                atom_tree(pd, pos),
                Token::Pow,
                op_node(pd, atom_tree(pd, pos + 2), Token::Pow, atom_tree(pd, pos + 4)),
            ),
            pos + 5,
        )),
{
    lemma_prec_values();
    let a = atom_tree(pd, pos);
    let bc = op_node(pd, atom_tree(pd, pos + 2), Token::Pow, atom_tree(pd, pos + 4));
    let t = op_node(pd, a, Token::Pow, bc);
    lemma_atom_value(pd, pos);
    lemma_high(pd, pos + 2, 3, 3);
    assert(s_right(pd, 3, pos + 2) == Ok::<(ExprTree, int), (Seq<char>, int)>((bc, pos + 5)));
    assert(s_op_loop(pd, 3, t, pos + 5) == Ok::<(ExprTree, int), (Seq<char>, int)>((t, pos + 5)));
    assert(s_op_loop(pd, 3, a, pos + 1) == Ok::<(ExprTree, int), (Seq<char>, int)>((t, pos + 5)));
    assert(s_op(pd, pos, 3) == Ok::<(ExprTree, int), (Seq<char>, int)>((t, pos + 5)));
    lemma_descend(pd, pos, 0, 3, t, pos + 5);
}

/// Unary minus binds tighter than `*`: `- a * b` groups as `(-a) * b`.
pub proof fn lemma_unary_minus(pd: &ParseData, pos: int)
    requires
        0 <= pos,
        pos + 4 < pd.tokens@.len(),
        pd.tok_at(pos) == Token::Minus,
        is_atom(pd.tok_at(pos + 1)),
        pd.tok_at(pos + 2) == Token::Mult,
        is_atom(pd.tok_at(pos + 3)),
        spec_infix_prec(pd.tok_at(pos + 4)) == INFINITY as int,
        !(pd.tok_at(pos + 4) is LSqBracket),
    ensures
        s_expr(pd, pos) == Ok::<(ExprTree, int), (Seq<char>, int)>((
            op_node(
                pd,
                ExprTree::Unary(
                    Token::Minus,
                    Box::new(atom_tree(pd, pos + 1)),
                    span_area(pd, pd.tokens@[pos].1, pd.tokens@[pos + 1].1),
                ),
                Token::Mult,
                atom_tree(pd, pos + 3),
            ),
            pos + 4,
        )),
{
    lemma_prec_values();
    reveal(s_unit);
    let u = ExprTree::Unary(
        Token::Minus,
        Box::new(atom_tree(pd, pos + 1)),
        span_area(pd, pd.tokens@[pos].1, pd.tokens@[pos + 1].1),
    );
    let t = op_node(pd, u, Token::Mult, atom_tree(pd, pos + 3));
    lemma_atom_op(pd, pos + 1, 3);
    assert(s_unit(pd, pos) == Ok::<(ExprTree, int), (Seq<char>, int)>((u, pos + 2)));
    assert(s_postfix(pd, u, pos + 2) == Ok::<(ExprTree, int), (Seq<char>, int)>((u, pos + 2)));
    assert(s_value(pd, pos) == Ok::<(ExprTree, int), (Seq<char>, int)>((u, pos + 2)));
    assert(s_op_loop(pd, 3, u, pos + 2) == Ok::<(ExprTree, int), (Seq<char>, int)>((u, pos + 2)));
    assert(s_op(pd, pos, 3) == Ok::<(ExprTree, int), (Seq<char>, int)>((u, pos + 2)));
    lemma_atom_op(pd, pos + 3, 3);
    assert(s_right(pd, 1, pos + 3) == Ok::<(ExprTree, int), (Seq<char>, int)>((atom_tree(pd, pos + 3), pos + 4)));
    assert(s_op_loop(pd, 1, t, pos + 4) == Ok::<(ExprTree, int), (Seq<char>, int)>((t, pos + 4)));
    assert(s_op_loop(pd, 1, u, pos + 2) == Ok::<(ExprTree, int), (Seq<char>, int)>((t, pos + 4)));
    assert(s_op(pd, pos, 1) == Ok::<(ExprTree, int), (Seq<char>, int)>((t, pos + 4)));
    lemma_descend(pd, pos, 0, 1, t, pos + 4);
}

/// A statement as a tree.
pub enum StmtTree {
    Expr(ExprTree),
    Declaration(Seq<char>, ExprTree),
    If(Seq<(ExprTree, Seq<StmtTree>)>, Option<Seq<StmtTree>>),
    While(ExprTree, Seq<StmtTree>),
    For(Seq<char>, ExprTree, Seq<StmtTree>),
}

/// Key `k` of the statement map roots a copy of `t`.
pub open spec fn stmt_denotes(me: Map<u64, ExprEntry>, ms: Map<u64, StmtEntry>, k: u64, t: StmtTree) -> bool
    decreases t,
{
    ms.contains_key(k) && match (ms[k].0, t) {
        (Statement::Expr(e), StmtTree::Expr(te)) => denotes(me, e.0, te),
        (Statement::Declaration(n, e), StmtTree::Declaration(tn, te)) => n@ == tn && denotes(me, e.0, te),
        (Statement::If { branches, else_branch }, StmtTree::If(tb, te)) => {
            &&& branches@.len() == tb.len()
            &&& forall|i: int| 0 <= i < tb.len() ==> denotes(me, branches@[i].0.0, (#[trigger] tb[i]).0)
                && branches@[i].1@.len() == tb[i].1.len()
                && forall|j: int| 0 <= j < tb[i].1.len() ==> stmt_denotes(me, ms, branches@[i].1@[j].0, #[trigger] tb[i].1[j])
            &&& match (else_branch, te) {
                (Some(c), Some(tc)) => c@.len() == tc.len() && forall|j: int| 0 <= j < tc.len() ==> stmt_denotes(
                    me,
                    ms,
                    c@[j].0,
                    #[trigger] tc[j],
                ),
                (None, None) => true,
                _ => false,
            }
        },
        (Statement::While { cond, code }, StmtTree::While(tc, tb)) => denotes(me, cond.0, tc) && code@.len() == tb.len()
            && forall|j: int| 0 <= j < tb.len() ==> stmt_denotes(me, ms, code@[j].0, #[trigger] tb[j]),
        (Statement::For { var, iterator, code }, StmtTree::For(tv, ti, tb)) => var@ == tv && denotes(me, iterator.0, ti)
            && code@.len() == tb.len() && forall|j: int| 0 <= j < tb.len() ==> stmt_denotes(
            me,
            ms,
            code@[j].0,
            #[trigger] tb[j],
        ),
        _ => false,
    }
}

/// Every key of `ks` roots the matching statement tree of `ts`.
pub open spec fn stmts_denote(me: Map<u64, ExprEntry>, ms: Map<u64, StmtEntry>, ks: Seq<StmtKey>, ts: Seq<StmtTree>) -> bool {
    &&& ks.len() == ts.len()
    &&& forall|j: int| 0 <= j < ts.len() ==> stmt_denotes(me, ms, ks[j].0, #[trigger] ts[j])
}

/// What larger arenas hold, they still root.
pub proof fn lemma_stmt_denotes_grows(
    ea: Map<u64, ExprEntry>,
    eb: Map<u64, ExprEntry>,
    sa: Map<u64, StmtEntry>,
    sb: Map<u64, StmtEntry>,
    k: u64,
    t: StmtTree,
)
    requires
        ea.submap_of(eb),
        sa.submap_of(sb),
        stmt_denotes(ea, sa, k, t),
    ensures
        stmt_denotes(eb, sb, k, t),
    decreases t,
{
    assert(sb.dom().contains(k));
    match (sa[k].0, t) {
        (Statement::Expr(e), StmtTree::Expr(te)) => {
            lemma_denotes_grows(ea, eb, e.0, te);
        },
        (Statement::Declaration(_, e), StmtTree::Declaration(_, te)) => {
            lemma_denotes_grows(ea, eb, e.0, te);
        },
        (Statement::If { branches, else_branch }, StmtTree::If(tb, te)) => {
            assert forall|i: int| 0 <= i < tb.len() implies denotes(eb, branches@[i].0.0, (#[trigger] tb[i]).0)
                && branches@[i].1@.len() == tb[i].1.len()
                && forall|j: int| 0 <= j < tb[i].1.len() ==> stmt_denotes(eb, sb, branches@[i].1@[j].0, #[trigger] tb[i].1[j]) by {
                lemma_denotes_grows(ea, eb, branches@[i].0.0, tb[i].0);
                assert forall|j: int| 0 <= j < tb[i].1.len() implies stmt_denotes(eb, sb, branches@[i].1@[j].0, #[trigger] tb[i].1[j]) by {
                    lemma_stmt_denotes_grows(ea, eb, sa, sb, branches@[i].1@[j].0, tb[i].1[j]);
                }
            }
            match (else_branch, te) {
                (Some(c), Some(tc)) => {
                    assert forall|j: int| 0 <= j < tc.len() implies stmt_denotes(eb, sb, c@[j].0, #[trigger] tc[j]) by {
                        lemma_stmt_denotes_grows(ea, eb, sa, sb, c@[j].0, tc[j]);
                    }
                },
                _ => {},
            }
        },
        (Statement::While { cond, code }, StmtTree::While(tc, tb)) => {
            lemma_denotes_grows(ea, eb, cond.0, tc);
            assert forall|j: int| 0 <= j < tb.len() implies stmt_denotes(eb, sb, code@[j].0, #[trigger] tb[j]) by {
                lemma_stmt_denotes_grows(ea, eb, sa, sb, code@[j].0, tb[j]);
            }
        },
        (Statement::For { iterator, code, .. }, StmtTree::For(_, ti, tb)) => {
            lemma_denotes_grows(ea, eb, iterator.0, ti);
            assert forall|j: int| 0 <= j < tb.len() implies stmt_denotes(eb, sb, code@[j].0, #[trigger] tb[j]) by {
                lemma_stmt_denotes_grows(ea, eb, sa, sb, code@[j].0, tb[j]);
            }
        },
        _ => {},
    }
}

pub proof fn lemma_stmts_denote_grow(
    ea: Map<u64, ExprEntry>,
    eb: Map<u64, ExprEntry>,
    sa: Map<u64, StmtEntry>,
    sb: Map<u64, StmtEntry>,
    ks: Seq<StmtKey>,
    ts: Seq<StmtTree>,
)
    requires
        ea.submap_of(eb),
        sa.submap_of(sb),
        stmts_denote(ea, sa, ks, ts),
    ensures
        stmts_denote(eb, sb, ks, ts),
{
    assert forall|j: int| 0 <= j < ts.len() implies stmt_denotes(eb, sb, ks[j].0, #[trigger] ts[j]) by {
        lemma_stmt_denotes_grows(ea, eb, sa, sb, ks[j].0, ts[j]);
    }
}

/// The position after the run of `;` that starts at `p`.
pub open spec fn skip_eols(pd: &ParseData, p: int) -> int
    decreases pd.tokens@.len() - p,
{
    if 0 <= p < pd.tokens@.len() && pd.tok_at(p) is Eol {
        skip_eols(pd, p + 1)
    } else {
        p
    }
}

/// Where a statement whose body ends before `p` ends: a `;` is required
/// unless the body ended in `}`, and a run of `;` is taken along.
pub open spec fn s_terminate(pd: &ParseData, p: int) -> Result<int, (Seq<char>, int)> {
    if !(1 <= p < pd.tokens@.len()) {
        Err((";"@, p))
    } else if pd.tok_at(p - 1) is RBracket {
        Ok(skip_eols(pd, p))
    } else if pd.tok_at(p) is Eol {
        Ok(skip_eols(pd, p + 1))
    } else {
        Err((";"@, p))
    }
}

/// `{ statements }` at `pos`.
pub open spec fn s_block(pd: &ParseData, pos: int) -> Result<(Seq<StmtTree>, int), (Seq<char>, int)>
    decreases pd.tokens@.len() - pos, 25int,
{
    if !(0 <= pos < pd.tokens@.len()) || !(pd.tok_at(pos) is LBracket) {
        Err(("{"@, pos))
    } else {
        match s_statements(pd, pos + 1, Seq::empty()) {
            Ok((ss, p)) => if 0 <= p < pd.tokens@.len() && pd.tok_at(p) is RBracket {
                Ok((ss, p + 1))
            } else {
                Err(("}"@, p))
            },
            Err(e) => Err(e),
        }
    }
}

/// `condition { statements }` at `pos`.
pub open spec fn s_cond_block(pd: &ParseData, pos: int) -> Result<(ExprTree, Seq<StmtTree>, int), (Seq<char>, int)>
    decreases pd.tokens@.len() - pos, 28int,
{
    match s_expr(pd, pos) {
        Ok((c, p)) => if pos < p < pd.tokens@.len() {
            match s_block(pd, p) {
                Ok((b, q)) => Ok((c, b, q)),
                Err(e) => Err(e),
            }
        } else {
            Err((""@, pos))
        },
        Err(e) => Err(e),
    }
}

/// The `else if` and `else` parts from `pos` on, after the branches in `branches`.
pub open spec fn s_if_tail(pd: &ParseData, pos: int, branches: Seq<(ExprTree, Seq<StmtTree>)>) -> Result<
    (Seq<(ExprTree, Seq<StmtTree>)>, Option<Seq<StmtTree>>, int),
    (Seq<char>, int),
>
    decreases pd.tokens@.len() - pos, 27int,
{
    if !(0 <= pos < pd.tokens@.len()) {
        Err((""@, pos))
    } else if !(pd.tok_at(pos) is Else) {
        Ok((branches, None, pos))
    } else if pos + 1 < pd.tokens@.len() && pd.tok_at(pos + 1) is If {
        match s_cond_block(pd, pos + 2) {
            Ok((c, b, p)) => if pos < p < pd.tokens@.len() {
                s_if_tail(pd, p, branches.push((c, b)))
            } else {
                Err((""@, pos))
            },
            Err(e) => Err(e),
        }
    } else {
        match s_block(pd, pos + 1) {
            Ok((b, p)) => Ok((branches, Some(b), p)),
            Err(e) => Err(e),
        }
    }
}

/// A statement at `pos` without its terminator.
pub open spec fn s_body(pd: &ParseData, pos: int) -> Result<(StmtTree, int), (Seq<char>, int)>
    decreases pd.tokens@.len() - pos, 29int,
{
    if !(0 <= pos < pd.tokens@.len()) {
        Err((""@, pos))
    } else {
        match pd.tok_at(pos) {
            Token::Let => if !(pos + 1 < pd.tokens@.len() && pd.tok_at(pos + 1) is Ident) {
                Err(("variable name"@, pos + 1))
            } else if !(pos + 2 < pd.tokens@.len() && pd.tok_at(pos + 2) is Assign) {
                Err(("="@, pos + 2))
            } else {
                match s_expr(pd, pos + 3) {
                    Ok((e, p)) => Ok((StmtTree::Declaration(pd.tok_at(pos + 1)->Ident_0@, e), p)),
                    Err(e) => Err(e),
                }
            },
            Token::If => match s_cond_block(pd, pos + 1) {
                Ok((c, b, p)) => if pos < p < pd.tokens@.len() {
                    match s_if_tail(pd, p, seq![(c, b)]) {
                        Ok((bs, e, q)) => Ok((StmtTree::If(bs, e), q)),
                        Err(e) => Err(e),
                    }
                } else {
                    Err((""@, pos))
                },
                Err(e) => Err(e),
            },
            Token::While => match s_cond_block(pd, pos + 1) {
                Ok((c, b, p)) => Ok((StmtTree::While(c, b), p)),
                Err(e) => Err(e),
            },
            Token::For => if !(pos + 1 < pd.tokens@.len() && pd.tok_at(pos + 1) is Ident) {
                Err(("variable name"@, pos + 1))
            } else if !(pos + 2 < pd.tokens@.len() && pd.tok_at(pos + 2) is In) {
                Err(("in"@, pos + 2))
            } else {
                match s_expr(pd, pos + 3) {
                    Ok((it, p)) => if pos < p < pd.tokens@.len() {
                        match s_block(pd, p) {
                            Ok((b, q)) => Ok((StmtTree::For(pd.tok_at(pos + 1)->Ident_0@, it, b), q)),
                            Err(e) => Err(e),
                        }
                    } else {
                        Err((""@, pos))
                    },
                    Err(e) => Err(e),
                }
            },
            _ => match s_expr(pd, pos) {
                Ok((e, p)) => Ok((StmtTree::Expr(e), p)),
                Err(e) => Err(e),
            },
        }
    }
}

/// A statement at `pos` with its terminator.
pub open spec fn s_statement(pd: &ParseData, pos: int) -> Result<(StmtTree, int), (Seq<char>, int)>
    decreases pd.tokens@.len() - pos, 30int,
{
    match s_body(pd, pos) {
        Ok((t, p)) => match s_terminate(pd, p) {
            Ok(q) => Ok((t, q)),
            Err(e) => Err(e),
        },
        Err(e) => Err(e),
    }
}

/// Statements from `pos` up to `Eof` or `}`, after those in `acc`; the
/// position given back is that of the `Eof` or `}`.
pub open spec fn s_statements(pd: &ParseData, pos: int, acc: Seq<StmtTree>) -> Result<(Seq<StmtTree>, int), (Seq<char>, int)>
    decreases pd.tokens@.len() - pos, 40int,
{
    if !(0 <= pos < pd.tokens@.len()) {
        Err((""@, pos))
    } else if pd.tok_at(pos) is Eof || pd.tok_at(pos) is RBracket {
        Ok((acc, pos))
    } else {
        match s_statement(pd, pos) {
            Ok((t, p)) => if pos < p < pd.tokens@.len() {
                s_statements(pd, p, acc.push(t))
            } else {
                Err((""@, pos))
            },
            Err(e) => Err(e),
        }
    }
}


/// An atom followed by a token of no operator is a whole expression.
proof fn lemma_atom_expr(pd: &ParseData, q: int)
    requires
        0 <= q,
        q + 1 < pd.tokens@.len(),
        is_atom(pd.tok_at(q)),
        !(pd.tok_at(q + 1) is LSqBracket),
        spec_infix_prec(pd.tok_at(q + 1)) == INFINITY as int,
    ensures
        s_expr(pd, q) == Ok::<(ExprTree, int), (Seq<char>, int)>((atom_tree(pd, q), q + 1)),
{
    lemma_atom_op(pd, q, 0);
}

/// Array commas: `[a, b, c,]` takes its trailing comma.
pub proof fn lemma_array_trailing_comma(pd: &ParseData, pos: int)
    requires
        0 <= pos,
        pos + 8 < pd.tokens@.len(),
        pd.tok_at(pos) is LSqBracket,
        is_atom(pd.tok_at(pos + 1)),
        pd.tok_at(pos + 2) is Comma,
        is_atom(pd.tok_at(pos + 3)),
        pd.tok_at(pos + 4) is Comma,
        is_atom(pd.tok_at(pos + 5)),
        pd.tok_at(pos + 6) is Comma,
        pd.tok_at(pos + 7) is RSqBracket,
    ensures
        s_unit(pd, pos) == Ok::<(ExprTree, int), (Seq<char>, int)>((
            ExprTree::Array(
                seq![atom_tree(pd, pos + 1), atom_tree(pd, pos + 3), atom_tree(pd, pos + 5)],
                span_area(pd, pd.tokens@[pos].1, pd.tokens@[pos + 7].1),
            ),
            pos + 8,
        )),
{
    lemma_prec_values();
    reveal(s_unit);
    lemma_atom_expr(pd, pos + 1);
    lemma_atom_expr(pd, pos + 3);
    lemma_atom_expr(pd, pos + 5);
    let (a, b, c) = (atom_tree(pd, pos + 1), atom_tree(pd, pos + 3), atom_tree(pd, pos + 5));
    let all = seq![a, b, c];
    assert(Seq::<ExprTree>::empty().push(a).push(b).push(c) =~= all);
    assert(s_array(pd, pos + 7, all) == Ok::<(Seq<ExprTree>, int), (Seq<char>, int)>((all, pos + 7)));
    assert(s_array(pd, pos + 5, seq![a, b]) == Ok::<(Seq<ExprTree>, int), (Seq<char>, int)>((all, pos + 7))) by {
        assert(seq![a, b].push(c) =~= all);
    }
    assert(s_array(pd, pos + 3, seq![a]) == Ok::<(Seq<ExprTree>, int), (Seq<char>, int)>((all, pos + 7))) by {
        assert(seq![a].push(b) =~= seq![a, b]);
    }
    assert(s_array(pd, pos + 1, Seq::empty()) == Ok::<(Seq<ExprTree>, int), (Seq<char>, int)>((all, pos + 7))) by {
        assert(Seq::<ExprTree>::empty().push(a) =~= seq![a]);
    }
}

/// Array commas: in `[a b` the second element finds neither `]` nor `,`.
pub proof fn lemma_array_missing_comma(pd: &ParseData, pos: int)
    requires
        0 <= pos,
        pos + 2 < pd.tokens@.len(),
        pd.tok_at(pos) is LSqBracket,
        is_atom(pd.tok_at(pos + 1)),
        is_atom(pd.tok_at(pos + 2)),
    ensures
        s_unit(pd, pos) == Err::<(ExprTree, int), (Seq<char>, int)>(("] or ,"@, pos + 2)),
{
    lemma_prec_values();
    reveal(s_unit);
    lemma_atom_expr(pd, pos + 1);
}

/// The terminator: `let x = a` with no `;` after it is refused at the token
/// after `a`.
pub proof fn lemma_let_needs_semicolon(pd: &ParseData, pos: int)
    requires
        0 <= pos,
        pos + 4 < pd.tokens@.len(),
        pd.tok_at(pos) is Let,
        pd.tok_at(pos + 1) is Ident,
        pd.tok_at(pos + 2) is Assign,
        is_atom(pd.tok_at(pos + 3)),
        pd.tok_at(pos + 4) is Eof,
    ensures
        s_statement(pd, pos) == Err::<(StmtTree, int), (Seq<char>, int)>((";"@, pos + 4)),
{
    lemma_prec_values();
    lemma_atom_expr(pd, pos + 3);
    assert(s_body(pd, pos) == Ok::<(StmtTree, int), (Seq<char>, int)>((StmtTree::Declaration(pd.tok_at(pos + 1)->Ident_0@, atom_tree(pd, pos + 3)), pos + 4)));
}

/// The terminator: a statement that ends in `}` needs no `;`.
pub proof fn lemma_block_needs_no_semicolon(pd: &ParseData, pos: int)
    requires
        0 <= pos,
        pos + 4 < pd.tokens@.len(),
        pd.tok_at(pos) is While,
        is_atom(pd.tok_at(pos + 1)),
        pd.tok_at(pos + 2) is LBracket,
        pd.tok_at(pos + 3) is RBracket,
        !(pd.tok_at(pos + 4) is Eol),
    ensures
        s_statement(pd, pos) == Ok::<(StmtTree, int), (Seq<char>, int)>((StmtTree::While(atom_tree(pd, pos + 1), Seq::empty()), pos + 4)),
{
    lemma_prec_values();
    lemma_atom_expr(pd, pos + 1);
    assert(s_statements(pd, pos + 3, Seq::empty()) == Ok::<(Seq<StmtTree>, int), (Seq<char>, int)>((Seq::empty(), pos + 3)));
    assert(s_block(pd, pos + 2) == Ok::<(Seq<StmtTree>, int), (Seq<char>, int)>((Seq::empty(), pos + 4)));
    assert(s_body(pd, pos) == Ok::<(StmtTree, int), (Seq<char>, int)>((StmtTree::While(atom_tree(pd, pos + 1), Seq::empty()), pos + 4)));
    assert(skip_eols(pd, pos + 4) == pos + 4);
}


/// Parentheses: in `(a + b) * c` the sum is the left operand of `*`.
pub proof fn lemma_parentheses(pd: &ParseData, pos: int)
    requires
        0 <= pos,
        pos + 7 < pd.tokens@.len(),
        pd.tok_at(pos) is LParen,
        is_atom(pd.tok_at(pos + 1)),
        pd.tok_at(pos + 2) == Token::Plus,
        is_atom(pd.tok_at(pos + 3)),
        pd.tok_at(pos + 4) is RParen,
        pd.tok_at(pos + 5) == Token::Mult,
        is_atom(pd.tok_at(pos + 6)),
        spec_infix_prec(pd.tok_at(pos + 7)) == INFINITY as int,
        !(pd.tok_at(pos + 7) is LSqBracket),
    ensures
        s_expr(pd, pos) == Ok::<(ExprTree, int), (Seq<char>, int)>((
            op_node(
                pd,
                op_node(pd, atom_tree(pd, pos + 1), Token::Plus, atom_tree(pd, pos + 3)),
                Token::Mult,
                atom_tree(pd, pos + 6),
            ),
            pos + 7,
        )),
{
    lemma_prec_values();
    reveal(s_unit);
    let ab = op_node(pd, atom_tree(pd, pos + 1), Token::Plus, atom_tree(pd, pos + 3));
    let t = op_node(pd, ab, Token::Mult, atom_tree(pd, pos + 6));
    lemma_high(pd, pos + 1, 0, 0);
    assert(s_unit(pd, pos) == Ok::<(ExprTree, int), (Seq<char>, int)>((ab, pos + 5)));
    assert(s_postfix(pd, ab, pos + 5) == Ok::<(ExprTree, int), (Seq<char>, int)>((ab, pos + 5)));
    assert(s_op_loop(pd, 3, ab, pos + 5) == Ok::<(ExprTree, int), (Seq<char>, int)>((ab, pos + 5)));
    assert(s_op(pd, pos, 3) == Ok::<(ExprTree, int), (Seq<char>, int)>((ab, pos + 5)));
    lemma_atom_op(pd, pos + 6, 3);
    assert(s_right(pd, 1, pos + 6) == Ok::<(ExprTree, int), (Seq<char>, int)>((atom_tree(pd, pos + 6), pos + 7)));
    assert(s_op_loop(pd, 1, t, pos + 7) == Ok::<(ExprTree, int), (Seq<char>, int)>((t, pos + 7)));
    assert(s_op_loop(pd, 1, ab, pos + 5) == Ok::<(ExprTree, int), (Seq<char>, int)>((t, pos + 7)));
    assert(s_op(pd, pos, 1) == Ok::<(ExprTree, int), (Seq<char>, int)>((t, pos + 7)));
    lemma_descend(pd, pos, 0, 1, t, pos + 7);
}

/// Parentheses: `()` is the empty expression, spanning both.
pub proof fn lemma_unit_parentheses(pd: &ParseData, pos: int)
    requires
        0 <= pos,
        pos + 1 < pd.tokens@.len(),
        pd.tok_at(pos) is LParen,
        pd.tok_at(pos + 1) is RParen,
    ensures
        s_unit(pd, pos) == Ok::<(ExprTree, int), (Seq<char>, int)>((ExprTree::Empty(span_area(pd, pd.tokens@[pos].1, pd.tokens@[pos + 1].1)), pos + 2)),
{
    reveal(s_unit);
}

} // verus!
