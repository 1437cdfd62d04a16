use vstd::prelude::*;
use crate::ast::{ASTData, ARENA_LIMIT, ExprEntry, StmtEntry, stmt_closed, Expression, ExprKey, Literal, Statement, Statements, StmtKey, branches_closed, lemma_branches_grow, lemma_stmts_closed_grows, stmts_closed};
use crate::error::SyntaxError;
use crate::grammar::{
    ExprTree, StmtTree, denotes, op_node, span_area, tree_area, lemma_denotes_grows, lemma_stmts_denote_grow, s_array,
    s_block, s_body, s_cond_block, s_expr, s_if_tail, s_op, s_op_loop, s_postfix, s_right, s_statement,
    s_statements, s_terminate, s_unit, s_value, skip_eols, stmt_denotes, stmts_denote,
};
use crate::lexer::{Token, Tokens, spec_tok_name, spec_tok_typ};
use crate::precedence::{INFINITY, OpType, infix_prec, is_unary, next_prec, prec_rows, prec_type, spec_next_prec, spec_unary_prec, unary_prec};
use crate::sources::{CodeArea, SpwnSource};

verus! {

/// What a parse reads: the tokens with their spans, ending in `Eof`, and
/// the source they come from.
pub struct ParseData {
    pub tokens: Tokens,
    pub source: SpwnSource,
}

impl ParseData {
    /// The token stream is not empty and ends in `Eof`.
    pub open spec fn tokens_ok(&self) -> bool {
        &&& 0 < self.tokens@.len() <= usize::MAX
        &&& self.tokens@.last().0 == Token::Eof
    }

    pub open spec fn tok_at(&self, i: int) -> Token {
        self.tokens@[i].0
    }

    /// Arena size plus the tokens left: it bounds the arena through the parse.
    pub open spec fn expr_budget(&self, ast: &ASTData, pos: int) -> int {
        ast.expr_map().len() + (self.tokens@.len() - pos)
    }

    pub open spec fn stmt_budget(&self, ast: &ASTData, pos: int) -> int {
        ast.stmt_map().len() + (self.tokens@.len() - pos)
    }

    /// A parse may start at `pos` with `ast`.
    pub open spec fn ready(&self, ast: &ASTData, pos: int) -> bool {
        &&& self.tokens_ok()
        &&& 0 <= pos < self.tokens@.len()
        &&& ast.wf()
        &&& self.expr_budget(ast, pos) <= ARENA_LIMIT
        &&& self.stmt_budget(ast, pos) <= ARENA_LIMIT
    }

    /// A parse from `pos` with `before` ended at `p` with `after`: the arena
    /// grew, and by no more nodes than tokens were read.
    pub open spec fn advanced(&self, before: &ASTData, pos: int, after: &ASTData, p: int) -> bool {
        &&& pos < p < self.tokens@.len()
        &&& after.wf()
        &&& after.extends(before)
        &&& self.expr_budget(after, p) <= self.expr_budget(before, pos)
        &&& self.stmt_budget(after, p) <= self.stmt_budget(before, pos)
    }
}

/// A token other than `Eof` is never the last one.
proof fn lemma_not_last(pd: &ParseData, pos: int)
    requires
        pd.tokens_ok(),
        0 <= pos < pd.tokens@.len(),
    ensures
        pd.tok_at(pos) != Token::Eof ==> pos + 1 < pd.tokens@.len(),
{
}

/// The error that `expected_err` builds for position `pos`.
pub open spec fn is_expected_at(pd: &ParseData, e: SyntaxError, expected: Seq<char>, pos: int) -> bool {
    &&& e is Expected
    &&& e->Expected_expected@ == expected
    &&& e->Expected_typ@ == spec_tok_typ(pd.tok_at(pos))
    &&& e->Expected_found@ == spec_tok_name(pd.tok_at(pos))
    &&& e->Expected_area == (CodeArea { source: pd.source, span: pd.tokens@[pos].1 })
}

/// "Expected `expected`, found" the token at `pos`.
fn expected_err(pd: &ParseData, expected: &str, pos: usize) -> (r: SyntaxError)
    requires
        pos < pd.tokens@.len(),
    ensures
        is_expected_at(pd, r, expected@, pos as int),
{
    let t = &pd.tokens[pos].0;
    SyntaxError::Expected {
        expected: expected.to_owned(),
        typ: t.tok_typ(),
        found: t.tok_name(),
        area: pd.source.to_area(pd.tokens[pos].1),
    }
}

/// Every key of `ks` roots the matching tree of `ts`.
pub open spec fn all_denote(m: Map<u64, ExprEntry>, ks: Seq<ExprKey>, ts: Seq<ExprTree>) -> bool {
    &&& ks.len() == ts.len()
    &&& forall|i: int| 0 <= i < ts.len() ==> denotes(m, ks[i].0, #[trigger] ts[i])
}

proof fn lemma_all_denote_grow(a: Map<u64, ExprEntry>, b: Map<u64, ExprEntry>, ks: Seq<ExprKey>, ts: Seq<ExprTree>)
    requires
        a.submap_of(b),
        all_denote(a, ks, ts),
    ensures
        all_denote(b, ks, ts),
{
    assert forall|i: int| 0 <= i < ts.len() implies denotes(b, ks[i].0, #[trigger] ts[i]) by {
        lemma_denotes_grows(a, b, ks[i].0, ts[i]);
    }
}

/// `t` stands in a unary row of the precedence table.
pub open spec fn is_unary_tok(t: Token) -> bool {
    spec_unary_prec(t) != INFINITY
}

/// A parse result agrees with the grammar's: it fails exactly when the
/// grammar has no parse, and otherwise ends where the grammar's does, at a
/// key rooting the grammar's tree.
pub open spec fn agrees(
    pd: &ParseData,
    spec: Result<(ExprTree, int), (Seq<char>, int)>,
    r: Result<(ExprKey, usize), SyntaxError>,
    m: Map<u64, ExprEntry>,
) -> bool {
    &&& (r is Ok <==> spec is Ok)
    &&& r is Err ==> is_expected_at(pd, r->Err_0, spec->Err_0.0, spec->Err_0.1)
    &&& r is Ok ==> r->Ok_0.1 as int == spec->Ok_0.1 && denotes(m, r->Ok_0.0.0, spec->Ok_0.0)
}

/// A single value: a literal, a variable, `()`, a parenthesised expression,
/// an array, or a unary operator applied to what binds tighter than it.
fn parse_unit(pd: &ParseData, ast: &mut ASTData, pos: usize) -> (r: Result<(ExprKey, usize), SyntaxError>)
    requires
        pd.ready(old(ast), pos as int),
    ensures
        final(ast).wf(),
        final(ast).extends(old(ast)),
        final(ast).stmt_map() == old(ast).stmt_map(),
        r is Ok ==> pd.advanced(old(ast), pos as int, final(ast), r->Ok_0.1 as int)
            && final(ast).expr_map().contains_key(r->Ok_0.0.0),
        agrees(pd, s_unit(pd, pos as int), r, final(ast).expr_map()),
    decreases pd.tokens@.len() - pos, 1int,
{
    let ghost a0 = *old(ast);
    proof {
        lemma_not_last(pd, pos as int);
        a0.lemma_extends_refl();
    }
    let start = pd.tokens[pos].1;
    let t = &pd.tokens[pos].0;
    proof {
        reveal(s_unit);
    }
    match t {
        Token::Int(n) => {
            let k = ast.insert_expr(Expression::Literal(Literal::Int(*n)), pd.source.to_area(start));
            Ok((k, pos + 1))
        },
        Token::Float(n) => {
            let k = ast.insert_expr(Expression::Literal(Literal::Float(*n)), pd.source.to_area(start));
            Ok((k, pos + 1))
        },
        Token::True => {
            let k = ast.insert_expr(Expression::Literal(Literal::Bool(true)), pd.source.to_area(start));
            Ok((k, pos + 1))
        },
        Token::False => {
            let k = ast.insert_expr(Expression::Literal(Literal::Bool(false)), pd.source.to_area(start));
            Ok((k, pos + 1))
        },
        Token::String(s) => {
            let k = ast.insert_expr(Expression::Literal(Literal::String(s.clone())), pd.source.to_area(start));
            Ok((k, pos + 1))
        },
        Token::Ident(name) => {
            let k = ast.insert_expr(Expression::Var(name.clone()), pd.source.to_area(start));
            Ok((k, pos + 1))
        },
        Token::LParen => parse_paren(pd, ast, pos),
        Token::LSqBracket => {
            let res = parse_array(pd, ast, pos + 1);
            let (elements, p) = match res {
                Ok(v) => v,
                Err(e) => {
                    return Err(e);
                },
            };
            proof {
                lemma_not_last(pd, p as int);
            }
            let end = pd.tokens[p].1;
            let ghost a2 = *ast;
            let ghost trees = s_array(pd, pos + 1, Seq::empty())->Ok_0.0;
            let ghost keys = elements@;
            let k = ast.insert_expr(Expression::Array(elements), pd.source.to_area((start.0, end.1)));
            proof {
                a0.lemma_extends_trans(&a2, ast);
                a2.lemma_extends_submap(ast);
                lemma_all_denote_grow(a2.expr_map(), ast.expr_map(), keys, trees);
            }
            Ok((k, p + 1))
        },
        _ => {
            if is_unary(t) {
                parse_unary(pd, ast, pos)
            } else {
                Err(expected_err(pd, "expression", pos))
            }
        },
    }
}

/// `()` or `( expression )`, from the `(` at `pos`.
fn parse_paren(pd: &ParseData, ast: &mut ASTData, pos: usize) -> (r: Result<(ExprKey, usize), SyntaxError>)
    requires
        pd.ready(old(ast), pos as int),
        pd.tok_at(pos as int) is LParen,
    ensures
        final(ast).wf(),
        final(ast).extends(old(ast)),
        final(ast).stmt_map() == old(ast).stmt_map(),
        r is Ok ==> pd.advanced(old(ast), pos as int, final(ast), r->Ok_0.1 as int)
            && final(ast).expr_map().contains_key(r->Ok_0.0.0),
        agrees(pd, s_unit(pd, pos as int), r, final(ast).expr_map()),
    decreases pd.tokens@.len() - pos, 0int,
{
    let ghost a0 = *old(ast);
    proof {
        lemma_not_last(pd, pos as int);
        a0.lemma_extends_refl();
        reveal(s_unit);
    }
    let start = pd.tokens[pos].1;
    if matches!(pd.tokens[pos + 1].0, Token::RParen) {
        let end = pd.tokens[pos + 1].1;
        let k = ast.insert_expr(Expression::Empty, pd.source.to_area((start.0, end.1)));
        Ok((k, pos + 2))
    } else {
        let res = parse_expr(pd, ast, pos + 1);
        let (value, p) = match res {
            Ok(v) => v,
            Err(e) => {
                return Err(e);
            },
        };
        if !matches!(pd.tokens[p].0, Token::RParen) {
            return Err(expected_err(pd, ")", p));
        }
        proof {
            lemma_not_last(pd, p as int);
        }
        Ok((value, p + 1))
    }
}

/// A unary operator at `pos` with its operand, parsed from the first binary
/// level above the operator's own.
fn parse_unary(pd: &ParseData, ast: &mut ASTData, pos: usize) -> (r: Result<(ExprKey, usize), SyntaxError>)
    requires
        pd.ready(old(ast), pos as int),
        is_unary_tok(pd.tok_at(pos as int)),
    ensures
        final(ast).wf(),
        final(ast).extends(old(ast)),
        final(ast).stmt_map() == old(ast).stmt_map(),
        r is Ok ==> pd.advanced(old(ast), pos as int, final(ast), r->Ok_0.1 as int)
            && final(ast).expr_map().contains_key(r->Ok_0.0.0),
        agrees(pd, s_unit(pd, pos as int), r, final(ast).expr_map()),
    decreases pd.tokens@.len() - pos, 0int,
{
    let ghost a0 = *old(ast);
    proof {
        lemma_not_last(pd, pos as int);
        a0.lemma_extends_refl();
        reveal(s_unit);
    }
    let start = pd.tokens[pos].1;
    let t = &pd.tokens[pos].0;
        let prec = unary_prec(t);
        let next = next_prec(prec);
        let res = if next != INFINITY {
            parse_op(pd, ast, pos + 1, next)
        } else {
            parse_value(pd, ast, pos + 1)
        };
        let (value, p) = match res {
            Ok(v) => v,
            Err(e) => {
                return Err(e);
            },
        };
        let end = pd.tokens[p - 1].1;
        let ghost a2 = *ast;
        let k = ast.insert_expr(Expression::Unary(t.duplicate(), value), pd.source.to_area((start.0, end.1)));
        proof {
            a0.lemma_extends_trans(&a2, ast);
            a2.lemma_extends_submap(ast);
            lemma_denotes_grows(a2.expr_map(), ast.expr_map(), value.0, *s_unit(pd, pos as int)->Ok_0.0->Unary_1);
        }
        Ok((k, p))
}

/// The elements of an array from `pos`, just after its `[`, up to its `]`,
/// whose position is given back.
fn parse_array(pd: &ParseData, ast: &mut ASTData, pos: usize) -> (r: Result<(Vec<ExprKey>, usize), SyntaxError>)
    requires
        pd.ready(old(ast), pos as int),
        pd.expr_budget(old(ast), pos as int) < ARENA_LIMIT,
    ensures
        final(ast).wf(),
        final(ast).extends(old(ast)),
        final(ast).stmt_map() == old(ast).stmt_map(),
        r is Ok ==> {
            &&& pos <= r->Ok_0.1 < pd.tokens@.len()
            &&& pd.tok_at(r->Ok_0.1 as int) is RSqBracket
            &&& pd.expr_budget(final(ast), r->Ok_0.1 as int) <= pd.expr_budget(old(ast), pos as int)
            &&& forall|i: int| 0 <= i < r->Ok_0.0@.len() ==> final(ast).expr_map().contains_key(#[trigger] r->Ok_0.0@[i].0)
        },
        r is Err ==> is_expected_at(pd, r->Err_0, s_array(pd, pos as int, Seq::empty())->Err_0.0, s_array(pd, pos as int, Seq::empty())->Err_0.1),
        (r is Ok <==> s_array(pd, pos as int, Seq::empty()) is Ok),
        r is Ok ==> r->Ok_0.1 as int == s_array(pd, pos as int, Seq::empty())->Ok_0.1 && all_denote(
            final(ast).expr_map(),
            r->Ok_0.0@,
            s_array(pd, pos as int, Seq::empty())->Ok_0.0,
        ),
    decreases pd.tokens@.len() - pos, 21int,
{
    let ghost a0 = *old(ast);
    proof {
        a0.lemma_extends_refl();
    }
    let mut p = pos;
    let mut elements: Vec<ExprKey> = Vec::new();
    let ghost mut trees: Seq<ExprTree> = Seq::empty();
    while !matches!(pd.tokens[p].0, Token::RSqBracket)
        invariant
            pd.ready(ast, p as int),
            pos <= p,
            pd.tokens_ok(),
            ast.extends(&a0),
            a0 == *old(ast),
            ast.stmt_map() == a0.stmt_map(),
            pd.expr_budget(ast, p as int) <= pd.expr_budget(&a0, pos as int),
            pd.stmt_budget(ast, p as int) <= pd.stmt_budget(&a0, pos as int),
            forall|i: int| 0 <= i < elements@.len() ==> ast.expr_map().contains_key(#[trigger] elements@[i].0),
            all_denote(ast.expr_map(), elements@, trees),
            s_array(pd, pos as int, Seq::empty()) == s_array(pd, p as int, trees),
        decreases pd.tokens@.len() - p,
    {
        let ghost a1 = *ast;
        let res = parse_expr(pd, ast, p);
        proof {
            a0.lemma_extends_trans(&a1, ast);
            a1.lemma_extends_keys(ast);
            a1.lemma_extends_submap(ast);
            lemma_all_denote_grow(a1.expr_map(), ast.expr_map(), elements@, trees);
        }
        let (elem, np) = match res {
            Ok(v) => v,
            Err(e) => {
                return Err(e);
            },
        };
        proof {
            trees = trees.push(s_expr(pd, p as int)->Ok_0.0);
        }
        elements.push(elem);
        p = np;
        if !matches!(pd.tokens[p].0, Token::RSqBracket | Token::Comma) {
            return Err(expected_err(pd, "] or ,", p));
        }
        if matches!(pd.tokens[p].0, Token::Comma) {
            proof {
                lemma_not_last(pd, p as int);
            }
            p = p + 1;
        }
    }
    Ok((elements, p))
}

/// A unit followed by any number of `[index]` postfixes.
fn parse_value(pd: &ParseData, ast: &mut ASTData, pos: usize) -> (r: Result<(ExprKey, usize), SyntaxError>)
    requires
        pd.ready(old(ast), pos as int),
    ensures
        final(ast).wf(),
        final(ast).extends(old(ast)),
        final(ast).stmt_map() == old(ast).stmt_map(),
        r is Ok ==> pd.advanced(old(ast), pos as int, final(ast), r->Ok_0.1 as int)
            && final(ast).expr_map().contains_key(r->Ok_0.0.0),
        agrees(pd, s_value(pd, pos as int), r, final(ast).expr_map()),
    decreases pd.tokens@.len() - pos, 2int,
{
    let ghost a0 = *old(ast);
    proof {
        a0.lemma_extends_refl();
        reveal(s_unit);
    }
    let res = parse_unit(pd, ast, pos);
    let (mut value, mut p) = match res {
        Ok(v) => v,
        Err(e) => {
            return Err(e);
        },
    };
    let ghost mut tree = s_unit(pd, pos as int)->Ok_0.0;
    let start = ast.area(value).span;
    while matches!(pd.tokens[p].0, Token::LSqBracket)
        invariant
            pd.ready(ast, p as int),
            pd.advanced(&a0, pos as int, ast, p as int),
            a0 == *old(ast),
            ast.stmt_map() == a0.stmt_map(),
            ast.expr_map().contains_key(value.0),
            denotes(ast.expr_map(), value.0, tree),
            tree_area(tree).span.0 == start.0,
            s_value(pd, pos as int) == s_postfix(pd, tree, p as int),
        decreases pd.tokens@.len() - p,
    {
        let ghost a1 = *ast;
        proof {
            lemma_not_last(pd, p as int);
        }
        let res = parse_expr(pd, ast, p + 1);
        proof {
            a0.lemma_extends_trans(&a1, ast);
            a1.lemma_extends_keys(ast);
            a1.lemma_extends_submap(ast);
            lemma_denotes_grows(a1.expr_map(), ast.expr_map(), value.0, tree);
        }
        let (index, np) = match res {
            Ok(v) => v,
            Err(e) => {
                return Err(e);
            },
        };
        if !matches!(pd.tokens[np].0, Token::RSqBracket) {
            return Err(expected_err(pd, "]", np));
        }
        proof {
            lemma_not_last(pd, np as int);
        }
        let end = pd.tokens[np].1;
        let ghost ix = s_expr(pd, p as int + 1)->Ok_0.0;
        let ghost old_value = value;
        p = np + 1;
        let ghost a2 = *ast;
        value = ast.insert_expr(Expression::Index { base: value, index }, pd.source.to_area((start.0, end.1)));
        proof {
            a0.lemma_extends_trans(&a2, ast);
            a2.lemma_extends_submap(ast);
            lemma_denotes_grows(a2.expr_map(), ast.expr_map(), old_value.0, tree);
            lemma_denotes_grows(a2.expr_map(), ast.expr_map(), index.0, ix);
            tree = ExprTree::Index(Box::new(tree), Box::new(ix), span_area(pd, tree_area(tree).span, pd.tokens@[np as int].1));
        }
    }
    Ok((value, p))
}

/// A whole expression: operators from the lowest level up.
fn parse_expr(pd: &ParseData, ast: &mut ASTData, pos: usize) -> (r: Result<(ExprKey, usize), SyntaxError>)
    requires
        pd.ready(old(ast), pos as int),
    ensures
        final(ast).wf(),
        final(ast).extends(old(ast)),
        final(ast).stmt_map() == old(ast).stmt_map(),
        r is Ok ==> pd.advanced(old(ast), pos as int, final(ast), r->Ok_0.1 as int)
            && final(ast).expr_map().contains_key(r->Ok_0.0.0),
        agrees(pd, s_expr(pd, pos as int), r, final(ast).expr_map()),
    decreases pd.tokens@.len() - pos, 20int,
{
    proof {
        crate::precedence::lemma_table(Token::Eof);
    }
    parse_op(pd, ast, pos, 0)
}

/// Operators of level `prec` and above, by precedence climbing: operands
/// come from the next binary level (unary rows skipped), a left-associative
/// level loops, a right-associative one recurses on its right operand.
fn parse_op(pd: &ParseData, ast: &mut ASTData, pos: usize, prec: usize) -> (r: Result<(ExprKey, usize), SyntaxError>)
    requires
        pd.ready(old(ast), pos as int),
        prec < prec_rows().len(),
    ensures
        final(ast).wf(),
        final(ast).extends(old(ast)),
        final(ast).stmt_map() == old(ast).stmt_map(),
        r is Ok ==> pd.advanced(old(ast), pos as int, final(ast), r->Ok_0.1 as int)
            && final(ast).expr_map().contains_key(r->Ok_0.0.0),
        agrees(pd, s_op(pd, pos as int, prec as int), r, final(ast).expr_map()),
    decreases pd.tokens@.len() - pos, 10 - prec,
{
    proof {
        crate::precedence::lemma_table(Token::Eof);
    }
    let ghost a0 = *old(ast);
    proof {
        a0.lemma_extends_refl();
    }
    let next = next_prec(prec);
    let res = if next != INFINITY {
        parse_op(pd, ast, pos, next)
    } else {
        parse_value(pd, ast, pos)
    };
    let (mut left, mut p) = match res {
        Ok(v) => v,
        Err(e) => {
            return Err(e);
        },
    };
    let ghost mut tree = if next != INFINITY {
        s_op(pd, pos as int, next as int)->Ok_0.0
    } else {
        s_value(pd, pos as int)->Ok_0.0
    };
    while infix_prec(&pd.tokens[p].0) == prec
        invariant
            pd.ready(ast, p as int),
            pd.advanced(&a0, pos as int, ast, p as int),
            a0 == *old(ast),
            ast.stmt_map() == a0.stmt_map(),
            ast.expr_map().contains_key(left.0),
            prec < prec_rows().len(),
            next as int == spec_next_prec(prec as int),
            next == INFINITY || (prec < next < prec_rows().len()),
            denotes(ast.expr_map(), left.0, tree),
            s_op(pd, pos as int, prec as int) == s_op_loop(pd, prec as int, tree, p as int),
        decreases pd.tokens@.len() - p,
    {
        proof {
            crate::precedence::lemma_table(pd.tok_at(p as int));
            lemma_not_last(pd, p as int);
        }
        let op = pd.tokens[p].0.duplicate();
        p = p + 1;
        let ghost a1 = *ast;
        let res = if prec_type(prec) == OpType::LeftAssoc {
            if next != INFINITY {
                parse_op(pd, ast, p, next)
            } else {
                parse_value(pd, ast, p)
            }
        } else {
            parse_op(pd, ast, p, prec)
        };
        proof {
            a0.lemma_extends_trans(&a1, ast);
            a1.lemma_extends_keys(ast);
            a1.lemma_extends_submap(ast);
            lemma_denotes_grows(a1.expr_map(), ast.expr_map(), left.0, tree);
        }
        let (right, np) = match res {
            Ok(v) => v,
            Err(e) => {
                return Err(e);
            },
        };
        let ls = ast.area(left).span;
        let rs = ast.area(right).span;
        let ghost a2 = *ast;
        let ghost rt = s_right(pd, prec as int, p as int)->Ok_0.0;
        let ghost new_tree = op_node(pd, tree, op, rt);
        let ghost old_left = left;
        left = ast.insert_expr(Expression::Op(left, op, right), pd.source.to_area((ls.0, rs.1)));
        proof {
            a0.lemma_extends_trans(&a2, ast);
            a2.lemma_extends_submap(ast);
            lemma_denotes_grows(a2.expr_map(), ast.expr_map(), old_left.0, tree);
            lemma_denotes_grows(a2.expr_map(), ast.expr_map(), right.0, rt);
            tree = new_tree;
        }
        p = np;
    }
    Ok((left, p))
}

/// A statement parse agrees with the grammar's.
pub open spec fn stmt_agrees(
    pd: &ParseData,
    spec: Result<(StmtTree, int), (Seq<char>, int)>,
    r: Result<(StmtKey, usize), SyntaxError>,
    me: Map<u64, ExprEntry>,
    ms: Map<u64, StmtEntry>,
) -> bool {
    &&& (r is Ok <==> spec is Ok)
    &&& r is Err ==> is_expected_at(pd, r->Err_0, spec->Err_0.0, spec->Err_0.1)
    &&& r is Ok ==> r->Ok_0.1 as int == spec->Ok_0.1 && stmt_denotes(me, ms, r->Ok_0.0.0, spec->Ok_0.0)
}

/// A statement-list parse agrees with the grammar's.
pub open spec fn list_agrees(
    pd: &ParseData,
    spec: Result<(Seq<StmtTree>, int), (Seq<char>, int)>,
    r: Result<(Statements, usize), SyntaxError>,
    me: Map<u64, ExprEntry>,
    ms: Map<u64, StmtEntry>,
) -> bool {
    &&& (r is Ok <==> spec is Ok)
    &&& r is Err ==> is_expected_at(pd, r->Err_0, spec->Err_0.0, spec->Err_0.1)
    &&& r is Ok ==> r->Ok_0.1 as int == spec->Ok_0.1 && stmts_denote(me, ms, r->Ok_0.0@, spec->Ok_0.0)
}

/// Each `if` branch roots the matching condition and body trees.
pub open spec fn branches_denote(
    me: Map<u64, ExprEntry>,
    ms: Map<u64, StmtEntry>,
    bs: Seq<(ExprKey, Statements)>,
    ts: Seq<(ExprTree, Seq<StmtTree>)>,
) -> bool {
    &&& bs.len() == ts.len()
    &&& forall|i: int| 0 <= i < ts.len() ==> denotes(me, bs[i].0.0, (#[trigger] ts[i]).0) && stmts_denote(
        me,
        ms,
        bs[i].1@,
        ts[i].1,
    )
}

proof fn lemma_branches_denote_grow(
    a: &ASTData,
    b: &ASTData,
    bs: Seq<(ExprKey, Statements)>,
    ts: Seq<(ExprTree, Seq<StmtTree>)>,
)
    requires
        b.extends(a),
        branches_denote(a.expr_map(), a.stmt_map(), bs, ts),
    ensures
        branches_denote(b.expr_map(), b.stmt_map(), bs, ts),
{
    a.lemma_extends_submap(b);
    assert forall|i: int| 0 <= i < ts.len() implies denotes(b.expr_map(), bs[i].0.0, (#[trigger] ts[i]).0)
        && stmts_denote(b.expr_map(), b.stmt_map(), bs[i].1@, ts[i].1) by {
        lemma_denotes_grows(a.expr_map(), b.expr_map(), bs[i].0.0, ts[i].0);
        lemma_stmts_denote_grow(a.expr_map(), b.expr_map(), a.stmt_map(), b.stmt_map(), bs[i].1@, ts[i].1);
    }
}

/// The statement that an `if` body gives with the tail that `tail` parsed.
pub open spec fn if_result(
    tail: Result<(Seq<(ExprTree, Seq<StmtTree>)>, Option<Seq<StmtTree>>, int), (Seq<char>, int)>,
) -> Result<(StmtTree, int), (Seq<char>, int)> {
    match tail {
        Ok((bs, e, q)) => Ok((StmtTree::If(bs, e), q)),
        Err(e) => Err(e),
    }
}

/// `{ statements }`.
fn parse_block(pd: &ParseData, ast: &mut ASTData, pos: usize) -> (r: Result<(Statements, usize), SyntaxError>)
    requires
        pd.ready(old(ast), pos as int),
    ensures
        final(ast).wf(),
        final(ast).extends(old(ast)),
        r is Ok ==> pd.advanced(old(ast), pos as int, final(ast), r->Ok_0.1 as int)
            && pd.stmt_budget(final(ast), r->Ok_0.1 as int) < pd.stmt_budget(old(ast), pos as int)
            && stmts_closed(final(ast).stmt_map(), r->Ok_0.0@),
        r is Err ==> (!(pd.tok_at(pos as int) is LBracket) ==> is_expected_at(pd, r->Err_0, "{"@, pos as int)),
        list_agrees(pd, s_block(pd, pos as int), r, final(ast).expr_map(), final(ast).stmt_map()),
    decreases pd.tokens@.len() - pos, 25int,
{
    let ghost a0 = *old(ast);
    proof {
        a0.lemma_extends_refl();
        lemma_not_last(pd, pos as int);
    }
    if !matches!(pd.tokens[pos].0, Token::LBracket) {
        return Err(expected_err(pd, "{", pos));
    }
    let res = parse_statements(pd, ast, pos + 1);
    let (code, p) = match res {
        Ok(v) => v,
        Err(e) => {
            return Err(e);
        },
    };
    if !matches!(pd.tokens[p].0, Token::RBracket) {
        return Err(expected_err(pd, "}", p));
    }
    Ok((code, p + 1))
}

/// `condition { statements }`, as `if` and `while` have it.
fn parse_cond_block(pd: &ParseData, ast: &mut ASTData, pos: usize) -> (r: Result<(ExprKey, Statements, usize), SyntaxError>)
    requires
        pd.ready(old(ast), pos as int),
    ensures
        final(ast).wf(),
        final(ast).extends(old(ast)),
        r is Ok ==> pd.advanced(old(ast), pos as int, final(ast), r->Ok_0.2 as int)
            && pd.stmt_budget(final(ast), r->Ok_0.2 as int) < pd.stmt_budget(old(ast), pos as int)
            && final(ast).expr_map().contains_key(r->Ok_0.0.0)
            && stmts_closed(final(ast).stmt_map(), r->Ok_0.1@),
        r is Err ==> is_expected_at(pd, r->Err_0, s_cond_block(pd, pos as int)->Err_0.0, s_cond_block(pd, pos as int)->Err_0.1),
        (r is Ok <==> s_cond_block(pd, pos as int) is Ok),
        r is Ok ==> ({
            let (c, b, q) = s_cond_block(pd, pos as int)->Ok_0;
            &&& r->Ok_0.2 as int == q
            &&& denotes(final(ast).expr_map(), r->Ok_0.0.0, c)
            &&& stmts_denote(final(ast).expr_map(), final(ast).stmt_map(), r->Ok_0.1@, b)
        }),
    decreases pd.tokens@.len() - pos, 28int,
{
    let ghost a0 = *old(ast);
    let res = parse_expr(pd, ast, pos);
    let (cond, p) = match res {
        Ok(v) => v,
        Err(e) => {
            return Err(e);
        },
    };
    let ghost a1 = *ast;
    let res = parse_block(pd, ast, p);
    proof {
        a0.lemma_extends_trans(&a1, ast);
        a1.lemma_extends_keys(ast);
        a1.lemma_extends_submap(ast);
        lemma_denotes_grows(a1.expr_map(), ast.expr_map(), cond.0, s_expr(pd, pos as int)->Ok_0.0);
    }
    let (code, np) = match res {
        Ok(v) => v,
        Err(e) => {
            return Err(e);
        },
    };
    Ok((cond, code, np))
}

/// `if condition { statements }`, then any `else if` branches and an
/// optional `else`, from the `if` at `pos`.
fn parse_if(pd: &ParseData, ast: &mut ASTData, pos: usize) -> (r: Result<(Statement, usize), SyntaxError>)
    requires
        pd.ready(old(ast), pos as int),
        pd.tok_at(pos as int) is If,
    ensures
        final(ast).wf(),
        final(ast).extends(old(ast)),
        r is Ok ==> pd.advanced(old(ast), pos as int, final(ast), r->Ok_0.1 as int)
            && pd.stmt_budget(final(ast), r->Ok_0.1 as int) < pd.stmt_budget(old(ast), pos as int)
            && stmt_closed(final(ast).expr_map(), final(ast).stmt_map(), r->Ok_0.0),
        r is Err ==> is_expected_at(pd, r->Err_0, s_body(pd, pos as int)->Err_0.0, s_body(pd, pos as int)->Err_0.1),
        (r is Ok <==> s_body(pd, pos as int) is Ok),
        r is Ok ==> r->Ok_0.1 as int == s_body(pd, pos as int)->Ok_0.1 && stmt_denotes_parts(
            final(ast).expr_map(),
            final(ast).stmt_map(),
            r->Ok_0.0,
            s_body(pd, pos as int)->Ok_0.0,
        ),
    decreases pd.tokens@.len() - pos, 29int,
{
    let ghost a0 = *old(ast);
    proof {
        a0.lemma_extends_refl();
        lemma_not_last(pd, pos as int);
    }
    let mut p: usize;
    let res = parse_cond_block(pd, ast, pos + 1);
    let (cond, code, np) = match res {
        Ok(v) => v,
        Err(e) => {
            return Err(e);
        },
    };
    p = np;
    let mut branches: Vec<(ExprKey, Statements)> = Vec::new();
    let mut else_branch: Option<Statements> = None;
    let ghost first = s_cond_block(pd, pos as int + 1)->Ok_0;
    let ghost mut btrees: Seq<(ExprTree, Seq<StmtTree>)> = seq![(first.0, first.1)];
    let ghost mut etree: Seq<StmtTree> = Seq::empty();
    branches.push((cond, code));
    let mut more = true;
    while more && matches!(pd.tokens[p].0, Token::Else)
        invariant
            pd.ready(ast, p as int),
            pd.advanced(&a0, pos as int, ast, p as int),
            pd.stmt_budget(ast, p as int) < pd.stmt_budget(&a0, pos as int),
            a0 == *old(ast),
            pd.tok_at(pos as int) is If,
            branches_closed(ast, branches@),
            match else_branch {
                Some(c) => stmts_closed(ast.stmt_map(), c@),
                None => true,
            },
            more ==> else_branch is None,
            branches_denote(ast.expr_map(), ast.stmt_map(), branches@, btrees),
            more ==> s_body(pd, pos as int) == if_result(s_if_tail(pd, p as int, btrees)),
            !more ==> else_branch is Some && s_body(pd, pos as int) == Ok::<(StmtTree, int), (Seq<char>, int)>(
                (StmtTree::If(btrees, Some(etree)), p as int),
            ) && stmts_denote(ast.expr_map(), ast.stmt_map(), else_branch->Some_0@, etree),
        decreases pd.tokens@.len() - p, if more { 1int } else { 0int },
    {
        proof {
            lemma_not_last(pd, p as int);
        }
        p = p + 1;
        let ghost a1 = *ast;
        if matches!(pd.tokens[p].0, Token::If) {
            proof {
                lemma_not_last(pd, p as int);
            }
            let res = parse_cond_block(pd, ast, p + 1);
            proof {
                a0.lemma_extends_trans(&a1, ast);
            }
            let (cond, code, np) = match res {
                Ok(v) => v,
                Err(e) => {
                    return Err(e);
                },
            };
            proof {
                lemma_branches_grow(&a1, ast, branches@);
                lemma_branches_denote_grow(&a1, ast, branches@, btrees);
            }
            let ghost before = branches@;
            let ghost nb = s_cond_block(pd, p as int + 1)->Ok_0;
            branches.push((cond, code));
            proof {
                assert forall|i: int| 0 <= i < branches@.len() implies ast.expr_map().contains_key(
                    #[trigger] branches@[i].0.0) && stmts_closed(ast.stmt_map(), branches@[i].1@) by {
                    if i < before.len() {
                        assert(branches@[i] == before[i]);
                    }
                }
                let old_bt = btrees;
                btrees = btrees.push((nb.0, nb.1));
                assert forall|i: int| 0 <= i < btrees.len() implies denotes(
                    ast.expr_map(),
                    branches@[i].0.0,
                    (#[trigger] btrees[i]).0,
                ) && stmts_denote(ast.expr_map(), ast.stmt_map(), branches@[i].1@, btrees[i].1) by {
                    if i < before.len() {
                        assert(branches@[i] == before[i]);
                        assert(btrees[i] == old_bt[i]);
                    }
                }
            }
            p = np;
        } else {
            let res = parse_block(pd, ast, p);
            proof {
                a0.lemma_extends_trans(&a1, ast);
            }
            let (code, np) = match res {
                Ok(v) => v,
                Err(e) => {
                    return Err(e);
                },
            };
            proof {
                lemma_branches_grow(&a1, ast, branches@);
                lemma_branches_denote_grow(&a1, ast, branches@, btrees);
                etree = s_block(pd, p as int)->Ok_0.0;
            }
            else_branch = Some(code);
            p = np;
            more = false;
        }
    }
    proof {
        let tree = StmtTree::If(btrees, if more { None } else { Some(etree) });
        assert(s_body(pd, pos as int) == Ok::<(StmtTree, int), (Seq<char>, int)>((tree, p as int)));
    }
    Ok((Statement::If { branches, else_branch }, p))
}

/// One statement with its terminator: `;` is required unless the statement
/// ended in `}`, and any run of `;` after it is consumed.
fn parse_statement(pd: &ParseData, ast: &mut ASTData, pos: usize) -> (r: Result<(StmtKey, usize), SyntaxError>)
    requires
        pd.ready(old(ast), pos as int),
    ensures
        final(ast).wf(),
        final(ast).extends(old(ast)),
        r is Ok ==> pd.advanced(old(ast), pos as int, final(ast), r->Ok_0.1 as int)
            && final(ast).stmt_map().contains_key(r->Ok_0.0.0),
        r is Ok ==> !old(ast).stmt_map().contains_key(r->Ok_0.0.0),
        stmt_agrees(pd, s_statement(pd, pos as int), r, final(ast).expr_map(), final(ast).stmt_map()),
    decreases pd.tokens@.len() - pos, 30int,
{
    let ghost a0 = *old(ast);
    proof {
        a0.lemma_extends_refl();
        lemma_not_last(pd, pos as int);
    }
    let start = pd.tokens[pos].1;
    let mut p: usize;
    let stmt: Statement;
    let ghost tree: StmtTree;
    match &pd.tokens[pos].0 {
        Token::Let => {
            p = pos + 1;
            let name = match &pd.tokens[p].0 {
                Token::Ident(n) => n.clone(),
                _ => {
                    return Err(expected_err(pd, "variable name", p));
                },
            };
            proof {
                lemma_not_last(pd, p as int);
            }
            p = p + 1;
            if !matches!(pd.tokens[p].0, Token::Assign) {
                return Err(expected_err(pd, "=", p));
            }
            proof {
                lemma_not_last(pd, p as int);
            }
            p = p + 1;
            let res = parse_expr(pd, ast, p);
            let (value, np) = match res {
                Ok(v) => v,
                Err(e) => {
                    return Err(e);
                },
            };
            p = np;
            proof {
                tree = StmtTree::Declaration(name@, s_expr(pd, pos as int + 3)->Ok_0.0);
            }
            stmt = Statement::Declaration(name, value);
        },
        Token::If => {
            let res = parse_if(pd, ast, pos);
            let (st, np) = match res {
                Ok(v) => v,
                Err(e) => {
                    return Err(e);
                },
            };
            p = np;
            proof {
                tree = s_body(pd, pos as int)->Ok_0.0;
            }
            stmt = st;
        },
        Token::While => {
            let res = parse_cond_block(pd, ast, pos + 1);
            let (cond, code, np) = match res {
                Ok(v) => v,
                Err(e) => {
                    return Err(e);
                },
            };
            p = np;
            proof {
                let cb = s_cond_block(pd, pos as int + 1)->Ok_0;
                tree = StmtTree::While(cb.0, cb.1);
            }
            stmt = Statement::While { cond, code };
        },
        Token::For => {
            p = pos + 1;
            let var = match &pd.tokens[p].0 {
                Token::Ident(n) => n.clone(),
                _ => {
                    return Err(expected_err(pd, "variable name", p));
                },
            };
            proof {
                lemma_not_last(pd, p as int);
            }
            p = p + 1;
            if !matches!(pd.tokens[p].0, Token::In) {
                return Err(expected_err(pd, "in", p));
            }
            proof {
                lemma_not_last(pd, p as int);
            }
            p = p + 1;
            let res = parse_expr(pd, ast, p);
            let (iterator, np) = match res {
                Ok(v) => v,
                Err(e) => {
                    return Err(e);
                },
            };
            let ghost a1 = *ast;
            let res = parse_block(pd, ast, np);
            proof {
                a0.lemma_extends_trans(&a1, ast);
                a1.lemma_extends_keys(ast);
                a1.lemma_extends_submap(ast);
                lemma_denotes_grows(a1.expr_map(), ast.expr_map(), iterator.0, s_expr(pd, pos as int + 3)->Ok_0.0);
            }
            let (code, np2) = match res {
                Ok(v) => v,
                Err(e) => {
                    return Err(e);
                },
            };
            p = np2;
            proof {
                tree = StmtTree::For(var@, s_expr(pd, pos as int + 3)->Ok_0.0, s_block(pd, np as int)->Ok_0.0);
            }
            stmt = Statement::For { var, iterator, code };
        },
        _ => {
            let res = parse_expr(pd, ast, pos);
            let (value, np) = match res {
                Ok(v) => v,
                Err(e) => {
                    return Err(e);
                },
            };
            p = np;
            proof {
                tree = StmtTree::Expr(s_expr(pd, pos as int)->Ok_0.0);
            }
            stmt = Statement::Expr(value);
        },
    }
    let ghost body_end = p as int;
    assert(s_body(pd, pos as int) == Ok::<(StmtTree, int), (Seq<char>, int)>((tree, body_end)));
    assert(stmt_denotes_parts(ast.expr_map(), ast.stmt_map(), stmt, tree));
    if !matches!(pd.tokens[p - 1].0, Token::RBracket) {
        if !matches!(pd.tokens[p].0, Token::Eol) {
            return Err(expected_err(pd, ";", p));
        }
        proof {
            lemma_not_last(pd, p as int);
        }
        p = p + 1;
    }
    while matches!(pd.tokens[p].0, Token::Eol)
        invariant
            pd.ready(ast, p as int),
            pos < p,
            pd.expr_budget(ast, p as int) <= pd.expr_budget(&a0, pos as int),
            pd.stmt_budget(ast, p as int) < pd.stmt_budget(&a0, pos as int),
            s_terminate(pd, body_end) == Ok::<int, (Seq<char>, int)>(skip_eols(pd, p as int)),
        decreases pd.tokens@.len() - p,
    {
        proof {
            lemma_not_last(pd, p as int);
        }
        p = p + 1;
    }
    let end = pd.tokens[p - 1].1;
    let ghost a2 = *ast;
    let k = ast.insert_stmt(stmt, pd.source.to_area((start.0, end.1)));
    proof {
        a0.lemma_extends_keys(&a2);
        a0.lemma_extends_trans(&a2, ast);
        a2.lemma_extends_submap(ast);
        lemma_parts_grow(a2.expr_map(), ast.expr_map(), a2.stmt_map(), ast.stmt_map(), stmt, tree);
    }
    Ok((k, p))
}

/// Statements up to `Eof` or a closing `}`, which is left unread.
fn parse_statements(pd: &ParseData, ast: &mut ASTData, pos: usize) -> (r: Result<(Statements, usize), SyntaxError>)
    requires
        pd.ready(old(ast), pos as int),
    ensures
        final(ast).wf(),
        final(ast).extends(old(ast)),
        r is Ok ==> pos <= r->Ok_0.1 < pd.tokens@.len()
            && final(ast).wf()
            && final(ast).extends(old(ast))
            && pd.expr_budget(final(ast), r->Ok_0.1 as int) <= pd.expr_budget(old(ast), pos as int)
            && pd.stmt_budget(final(ast), r->Ok_0.1 as int) <= pd.stmt_budget(old(ast), pos as int)
            && stmts_closed(final(ast).stmt_map(), r->Ok_0.0@)
            && (pd.tok_at(r->Ok_0.1 as int) is Eof || pd.tok_at(r->Ok_0.1 as int) is RBracket),
        (pd.tok_at(pos as int) is Eof || pd.tok_at(pos as int) is RBracket) ==> *final(ast) == *old(ast),
        r is Ok ==> forall|j: int| 0 <= j < r->Ok_0.0@.len() ==> !old(ast).stmt_map().contains_key(#[trigger] r->Ok_0.0@[j].0),
        r is Ok ==> forall|i: int, j: int| 0 <= i < j < r->Ok_0.0@.len() ==> r->Ok_0.0@[i] != r->Ok_0.0@[j],
        list_agrees(pd, s_statements(pd, pos as int, Seq::empty()), r, final(ast).expr_map(), final(ast).stmt_map()),
    decreases pd.tokens@.len() - pos, 40int,
{
    let ghost a0 = *old(ast);
    proof {
        a0.lemma_extends_refl();
    }
    let mut statements: Vec<StmtKey> = Vec::new();
    let ghost mut trees: Seq<StmtTree> = Seq::empty();
    let mut p = pos;
    while !matches!(pd.tokens[p].0, Token::Eof | Token::RBracket)
        invariant
            pd.ready(ast, p as int),
            pos <= p,
            a0 == *old(ast),
            ast.extends(&a0),
            pd.expr_budget(ast, p as int) <= pd.expr_budget(&a0, pos as int),
            pd.stmt_budget(ast, p as int) <= pd.stmt_budget(&a0, pos as int),
            stmts_closed(ast.stmt_map(), statements@),
            stmts_denote(ast.expr_map(), ast.stmt_map(), statements@, trees),
            s_statements(pd, pos as int, Seq::empty()) == s_statements(pd, p as int, trees),
            forall|j: int| 0 <= j < statements@.len() ==> !a0.stmt_map().contains_key(#[trigger] statements@[j].0),
            forall|i: int, j: int| 0 <= i < j < statements@.len() ==> statements@[i] != statements@[j],
            p == pos ==> *ast == a0,
        decreases pd.tokens@.len() - p,
    {
        let ghost a1 = *ast;
        let res = parse_statement(pd, ast, p);
        proof {
            a0.lemma_extends_trans(&a1, ast);
        }
        let (stmt, np) = match res {
            Ok(v) => v,
            Err(e) => {
                return Err(e);
            },
        };
        proof {
            lemma_stmts_closed_grows(&a1, ast, statements@);
            a1.lemma_extends_submap(ast);
            lemma_stmts_denote_grow(a1.expr_map(), ast.expr_map(), a1.stmt_map(), ast.stmt_map(), statements@, trees);
        }
        let ghost before = statements@;
        let ghost old_trees = trees;
        proof {
            a0.lemma_extends_keys(&a1);
            assert forall|j: int| 0 <= j < before.len() implies before[j] != stmt by {
                assert(a1.stmt_map().contains_key(before[j].0));
            }
        }
        statements.push(stmt);
        proof {
            trees = trees.push(s_statement(pd, p as int)->Ok_0.0);
            assert forall|j: int| 0 <= j < statements@.len() implies !a0.stmt_map().contains_key(
                #[trigger] statements@[j].0) by {
                if j < before.len() {
                    assert(statements@[j] == before[j]);
                }
            }
            assert forall|i: int, j: int| 0 <= i < j < statements@.len() implies statements@[i] != statements@[j] by {
                if j < before.len() {
                    assert(statements@[i] == before[i]);
                    assert(statements@[j] == before[j]);
                } else {
                    assert(statements@[i] == before[i]);
                }
            }
            assert forall|j: int| 0 <= j < trees.len() implies stmt_denotes(
                ast.expr_map(),
                ast.stmt_map(),
                statements@[j].0,
                #[trigger] trees[j],
            ) by {
                if j < before.len() {
                    assert(statements@[j] == before[j]);
                    assert(trees[j] == old_trees[j]);
                }
            }
        }
        p = np;
    }
    Ok((statements, p))
}

/// Parses a whole token stream into its top-level statements, storing the
/// nodes in `ast`: it succeeds exactly when the grammar parses the stream,
/// and then the statements root the grammar's trees. Parsing stops at `Eof`
/// or at a `}` that closes nothing.
pub fn parse(pd: &ParseData, ast: &mut ASTData) -> (r: Result<Statements, SyntaxError>)
    requires
        pd.tokens_ok(),
        old(ast).wf(),
        old(ast).expr_map().len() + pd.tokens@.len() <= ARENA_LIMIT,
        old(ast).stmt_map().len() + pd.tokens@.len() <= ARENA_LIMIT,
    ensures
        final(ast).wf(),
        final(ast).extends(old(ast)),
        r is Ok ==> stmts_closed(final(ast).stmt_map(), r->Ok_0@),
        r is Ok ==> forall|j: int| 0 <= j < r->Ok_0@.len() ==> !old(ast).stmt_map().contains_key(#[trigger] r->Ok_0@[j].0),
        r is Ok ==> forall|i: int, j: int| 0 <= i < j < r->Ok_0@.len() ==> r->Ok_0@[i] != r->Ok_0@[j],
        (r is Ok <==> s_statements(pd, 0, Seq::empty()) is Ok),
        r is Err ==> is_expected_at(
            pd,
            r->Err_0,
            s_statements(pd, 0, Seq::empty())->Err_0.0,
            s_statements(pd, 0, Seq::empty())->Err_0.1,
        ),
        r is Ok ==> stmts_denote(
            final(ast).expr_map(),
            final(ast).stmt_map(),
            r->Ok_0@,
            s_statements(pd, 0, Seq::empty())->Ok_0.0,
        ),
{
    match parse_statements(pd, ast, 0) {
        Ok((stmts, _)) => Ok(stmts),
        Err(e) => Err(e),
    }
}

/// `s` holds the handles that `t` says, in arenas `me` and `ms`: the
/// statement node that `insert_stmt` stores roots `t` afterwards.
pub open spec fn stmt_denotes_parts(me: Map<u64, ExprEntry>, ms: Map<u64, StmtEntry>, s: Statement, t: StmtTree) -> bool {
    match (s, t) {
        (Statement::Expr(e), StmtTree::Expr(te)) => denotes(me, e.0, te),
        (Statement::Declaration(n, e), StmtTree::Declaration(tn, te)) => n@ == tn && denotes(me, e.0, te),
        (Statement::If { branches, else_branch }, StmtTree::If(tb, te)) => {
            &&& branches_denote(me, ms, branches@, tb)
            &&& match (else_branch, te) {
                (Some(c), Some(tc)) => stmts_denote(me, ms, c@, tc),
                (None, None) => true,
                _ => false,
            }
        },
        (Statement::While { cond, code }, StmtTree::While(tc, tb)) => denotes(me, cond.0, tc) && stmts_denote(
            me,
            ms,
            code@,
            tb,
        ),
        (Statement::For { var, iterator, code }, StmtTree::For(tv, ti, tb)) => var@ == tv && denotes(me, iterator.0, ti)
            && stmts_denote(me, ms, code@, tb),
        _ => false,
    }
}

/// The parts survive growth, and then the stored node roots the tree.
proof fn lemma_parts_grow(
    ea: Map<u64, ExprEntry>,
    eb: Map<u64, ExprEntry>,
    sa: Map<u64, StmtEntry>,
    sb: Map<u64, StmtEntry>,
    s: Statement,
    t: StmtTree,
)
    requires
        ea.submap_of(eb),
        sa.submap_of(sb),
        stmt_denotes_parts(ea, sa, s, t),
    ensures
        stmt_denotes_parts(eb, sb, s, t),
{
    match (s, t) {
        (Statement::Expr(e), StmtTree::Expr(te)) => {
            lemma_denotes_grows(ea, eb, e.0, te);
        },
        (Statement::Declaration(_, e), StmtTree::Declaration(_, te)) => {
            lemma_denotes_grows(ea, eb, e.0, te);
        },
        (Statement::If { branches, else_branch }, StmtTree::If(tb, te)) => {
            assert forall|i: int| 0 <= i < tb.len() implies denotes(eb, branches@[i].0.0, (#[trigger] tb[i]).0)
                && stmts_denote(eb, sb, branches@[i].1@, tb[i].1) by {
                lemma_denotes_grows(ea, eb, branches@[i].0.0, tb[i].0);
                lemma_stmts_denote_grow(ea, eb, sa, sb, branches@[i].1@, tb[i].1);
            }
            match (else_branch, te) {
                (Some(c), Some(tc)) => {
                    lemma_stmts_denote_grow(ea, eb, sa, sb, c@, tc);
                },
                _ => {},
            }
        },
        (Statement::While { cond, code }, StmtTree::While(tc, tb)) => {
            lemma_denotes_grows(ea, eb, cond.0, tc);
            lemma_stmts_denote_grow(ea, eb, sa, sb, code@, tb);
        },
        (Statement::For { iterator, code, .. }, StmtTree::For(_, ti, tb)) => {
            lemma_denotes_grows(ea, eb, iterator.0, ti);
            lemma_stmts_denote_grow(ea, eb, sa, sb, code@, tb);
        },
        _ => {},
    }
}

} // verus!
