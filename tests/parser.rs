use spwn_core::ast::{ASTData, ExprKey, Expression, Literal, Statement};
use spwn_core::error::SyntaxError;
use spwn_core::lexer::Token;
use spwn_core::parser::{parse, ParseData};
use spwn_core::precedence::{infix_prec, is_unary, next_prec, prec_amount, prec_type, unary_prec, OpType, INFINITY};
use spwn_core::sources::SpwnSource;

fn data(mut toks: Vec<Token>) -> ParseData {
    toks.push(Token::Eof);
    let tokens = toks.into_iter().enumerate().map(|(i, t)| (t, (i * 2, i * 2 + 1))).collect();
    ParseData { tokens, source: SpwnSource { id: 0 } }
}

fn lit(n: usize) -> Token {
    Token::Int(n)
}

fn ident(s: &str) -> Token {
    Token::Ident(s.to_string())
}

/// Parses `toks` followed by `;` and returns the arena and the key of the
/// single expression statement.
fn parse_expr_stmt(mut toks: Vec<Token>) -> (ASTData, ExprKey) {
    toks.push(Token::Eol);
    let pd = data(toks);
    let mut ast = ASTData::new();
    let stmts = parse(&pd, &mut ast).expect("parses");
    assert_eq!(stmts.len(), 1);
    let key = match ast.get_stmt(stmts[0]) {
        Statement::Expr(e) => *e,
        other => panic!("not an expression statement: {:?}", other),
    };
    (ast, key)
}

fn is_int(ast: &ASTData, k: ExprKey, n: usize) -> bool {
    matches!(ast.get_expr(k), Expression::Literal(Literal::Int(v)) if *v == n)
}

fn is_var(ast: &ASTData, k: ExprKey, name: &str) -> bool {
    matches!(ast.get_expr(k), Expression::Var(v) if v == name)
}

fn op_parts(ast: &ASTData, k: ExprKey) -> (ExprKey, Token, ExprKey) {
    match ast.get_expr(k) {
        Expression::Op(a, t, b) => (*a, t.clone(), *b),
        other => panic!("not a binary node: {:?}", other),
    }
}

fn expected_of(r: Result<Vec<spwn_core::ast::StmtKey>, SyntaxError>) -> String {
    match r {
        Err(SyntaxError::Expected { expected, .. }) => expected,
        other => panic!("expected a syntax error, got {:?}", other),
    }
}

#[test]
fn precedence_every_pair() {
    let rows: Vec<(usize, Vec<Token>)> = vec![
        (0, vec![Token::Plus, Token::Minus]),
        (1, vec![Token::Mult, Token::Div, Token::Mod]),
        (3, vec![Token::Pow]),
    ];
    for (low_row, lows) in &rows {
        for (high_row, highs) in &rows {
            if high_row <= low_row {
                continue;
            }
            for low in lows {
                for high in highs {
                    let (ast, root) = parse_expr_stmt(vec![ident("a"), low.clone(), ident("b"), high.clone(), ident("c")]);
                    let (a, op, right) = op_parts(&ast, root);
                    assert!(is_var(&ast, a, "a"));
                    assert_eq!(&op, low);
                    let (b, op2, c) = op_parts(&ast, right);
                    assert!(is_var(&ast, b, "b"));
                    assert_eq!(&op2, high);
                    assert!(is_var(&ast, c, "c"));
                }
            }
        }
    }
}

#[test]
fn left_associativity() {
    let (ast, root) = parse_expr_stmt(vec![ident("a"), Token::Plus, ident("b"), Token::Plus, ident("c")]);
    let (left, op, c) = op_parts(&ast, root);
    assert_eq!(op, Token::Plus);
    assert!(is_var(&ast, c, "c"));
    let (a, op2, b) = op_parts(&ast, left);
    assert_eq!(op2, Token::Plus);
    assert!(is_var(&ast, a, "a"));
    assert!(is_var(&ast, b, "b"));
}

#[test]
fn right_associativity() {
    let (ast, root) = parse_expr_stmt(vec![ident("a"), Token::Pow, ident("b"), Token::Pow, ident("c")]);
    let (a, op, right) = op_parts(&ast, root);
    assert_eq!(op, Token::Pow);
    assert!(is_var(&ast, a, "a"));
    let (b, op2, c) = op_parts(&ast, right);
    assert_eq!(op2, Token::Pow);
    assert!(is_var(&ast, b, "b"));
    assert!(is_var(&ast, c, "c"));
}

#[test]
fn unary_minus_below_plus() {
    let (ast, root) = parse_expr_stmt(vec![Token::Minus, ident("a"), Token::Plus, ident("b")]);
    let (left, op, b) = op_parts(&ast, root);
    assert_eq!(op, Token::Plus);
    assert!(is_var(&ast, b, "b"));
    match ast.get_expr(left) {
        Expression::Unary(Token::Minus, a) => assert!(is_var(&ast, *a, "a")),
        other => panic!("{:?}", other),
    }
}

#[test]
fn unary_minus_binds_tighter_than_product() {
    let (ast, root) = parse_expr_stmt(vec![Token::Minus, ident("a"), Token::Mult, ident("b")]);
    let (left, op, b) = op_parts(&ast, root);
    assert_eq!(op, Token::Mult);
    assert!(is_var(&ast, b, "b"));
    match ast.get_expr(left) {
        Expression::Unary(Token::Minus, a) => assert!(is_var(&ast, *a, "a")),
        other => panic!("{:?}", other),
    }
}

#[test]
fn negated_power() {
    let (ast, root) = parse_expr_stmt(vec![Token::Minus, lit(2), Token::Pow, lit(2)]);
    match ast.get_expr(root) {
        Expression::Unary(Token::Minus, inner) => {
            let (a, op, b) = op_parts(&ast, *inner);
            assert_eq!(op, Token::Pow);
            assert!(is_int(&ast, a, 2));
            assert!(is_int(&ast, b, 2));
        },
        other => panic!("{:?}", other),
    }
}

#[test]
fn parentheses_group() {
    let (ast, root) = parse_expr_stmt(vec![
        Token::LParen, ident("a"), Token::Plus, ident("b"), Token::RParen, Token::Mult, ident("c"),
    ]);
    let (left, op, c) = op_parts(&ast, root);
    assert_eq!(op, Token::Mult);
    assert!(is_var(&ast, c, "c"));
    let (_, op2, _) = op_parts(&ast, left);
    assert_eq!(op2, Token::Plus);
}

#[test]
fn unit_parentheses_are_empty() {
    let (ast, root) = parse_expr_stmt(vec![Token::LParen, Token::RParen]);
    assert!(matches!(ast.get_expr(root), Expression::Empty));
    assert_eq!(ast.area(root).span, (0, 3));
}

#[test]
fn array_trailing_comma() {
    let (ast, root) = parse_expr_stmt(vec![
        Token::LSqBracket, lit(1), Token::Comma, lit(2), Token::Comma, lit(3), Token::Comma, Token::RSqBracket,
    ]);
    match ast.get_expr(root) {
        Expression::Array(elems) => {
            assert_eq!(elems.len(), 3);
            assert!(is_int(&ast, elems[0], 1));
            assert!(is_int(&ast, elems[1], 2));
            assert!(is_int(&ast, elems[2], 3));
        },
        other => panic!("{:?}", other),
    }
}

#[test]
fn array_missing_comma() {
    let pd = data(vec![Token::LSqBracket, lit(1), lit(2), Token::RSqBracket, Token::Eol]);
    let mut ast = ASTData::new();
    match parse(&pd, &mut ast) {
        Err(SyntaxError::Expected { expected, found, typ, area }) => {
            assert_eq!(expected, "] or ,");
            assert_eq!(found, "2");
            assert_eq!(typ, "literal");
            assert_eq!(area.span, (4, 5));
        },
        other => panic!("{:?}", other),
    }
}

#[test]
fn index_postfix() {
    let (ast, root) = parse_expr_stmt(vec![
        Token::LSqBracket, lit(1), Token::Comma, lit(2), Token::RSqBracket, Token::LSqBracket, lit(1), Token::RSqBracket,
    ]);
    match ast.get_expr(root) {
        Expression::Index { base, index } => {
            assert!(matches!(ast.get_expr(*base), Expression::Array(_)));
            assert!(is_int(&ast, *index, 1));
        },
        other => panic!("{:?}", other),
    }
}

#[test]
fn block_statement_needs_no_semicolon() {
    let pd = data(vec![
        Token::While, Token::False, Token::LBracket, Token::RBracket, lit(1), Token::Eol,
    ]);
    let mut ast = ASTData::new();
    let stmts = parse(&pd, &mut ast).expect("parses");
    assert_eq!(stmts.len(), 2);
    assert!(matches!(ast.get_stmt(stmts[0]), Statement::While { .. }));
    assert!(matches!(ast.get_stmt(stmts[1]), Statement::Expr(_)));
}

#[test]
fn let_needs_semicolon() {
    let pd = data(vec![Token::Let, ident("x"), Token::Assign, lit(1)]);
    let mut ast = ASTData::new();
    assert_eq!(expected_of(parse(&pd, &mut ast)), ";");
}

#[test]
fn let_declares() {
    let pd = data(vec![Token::Let, ident("x"), Token::Assign, lit(10), Token::Eol, Token::Eol]);
    let mut ast = ASTData::new();
    let stmts = parse(&pd, &mut ast).expect("parses");
    assert_eq!(stmts.len(), 1);
    match ast.get_stmt(stmts[0]) {
        Statement::Declaration(name, value) => {
            assert_eq!(name, "x");
            assert!(is_int(&ast, *value, 10));
        },
        other => panic!("{:?}", other),
    }
    assert_eq!(ast.area(stmts[0]).span, (0, 11));
}

#[test]
fn let_errors() {
    let mut ast = ASTData::new();
    assert_eq!(expected_of(parse(&data(vec![Token::Let, lit(1)]), &mut ast)), "variable name");
    assert_eq!(expected_of(parse(&data(vec![Token::Let, ident("x"), lit(1)]), &mut ast)), "=");
}

#[test]
fn if_else_chain() {
    let pd = data(vec![
        Token::If, Token::True, Token::LBracket, lit(1), Token::Eol, Token::RBracket,
        Token::Else, Token::If, Token::False, Token::LBracket, Token::RBracket,
        Token::Else, Token::LBracket, lit(2), Token::Eol, Token::RBracket,
    ]);
    let mut ast = ASTData::new();
    let stmts = parse(&pd, &mut ast).expect("parses");
    assert_eq!(stmts.len(), 1);
    match ast.get_stmt(stmts[0]) {
        Statement::If { branches, else_branch } => {
            assert_eq!(branches.len(), 2);
            assert_eq!(branches[0].1.len(), 1);
            assert_eq!(branches[1].1.len(), 0);
            assert_eq!(else_branch.as_ref().map(|b| b.len()), Some(1));
        },
        other => panic!("{:?}", other),
    }
}

#[test]
fn for_loop() {
    let pd = data(vec![Token::For, ident("i"), Token::In, ident("xs"), Token::LBracket, Token::RBracket]);
    let mut ast = ASTData::new();
    let stmts = parse(&pd, &mut ast).expect("parses");
    match ast.get_stmt(stmts[0]) {
        Statement::For { var, iterator, code } => {
            assert_eq!(var, "i");
            assert!(is_var(&ast, *iterator, "xs"));
            assert!(code.is_empty());
        },
        other => panic!("{:?}", other),
    }
    let bad = data(vec![Token::For, ident("i"), ident("xs")]);
    assert_eq!(expected_of(parse(&bad, &mut ast)), "in");
}

#[test]
fn missing_brace_and_paren() {
    let mut ast = ASTData::new();
    assert_eq!(expected_of(parse(&data(vec![Token::While, Token::True, lit(1)]), &mut ast)), "{");
    assert_eq!(expected_of(parse(&data(vec![Token::While, Token::True, Token::LBracket]), &mut ast)), "}");
    assert_eq!(expected_of(parse(&data(vec![Token::LParen, lit(1), Token::Eol]), &mut ast)), ")");
    assert_eq!(expected_of(parse(&data(vec![Token::LSqBracket, lit(1), Token::RSqBracket, Token::LSqBracket, lit(0), Token::Eol]), &mut ast)), "]");
}

#[test]
fn not_an_expression() {
    let pd = data(vec![Token::RParen]);
    let mut ast = ASTData::new();
    match parse(&pd, &mut ast) {
        Err(SyntaxError::Expected { expected, found, typ, .. }) => {
            assert_eq!(expected, "expression");
            assert_eq!(found, ")");
            assert_eq!(typ, "symbol");
        },
        other => panic!("{:?}", other),
    }
}

#[test]
fn op_area_spans_operands() {
    let (ast, root) = parse_expr_stmt(vec![lit(1), Token::Plus, lit(2), Token::Mult, lit(3)]);
    assert_eq!(ast.area(root).span, (0, 9));
    assert_eq!(ast.expr_count(), 5);
    assert_eq!(ast.stmt_count(), 1);
}

#[test]
fn precedence_table_queries() {
    assert_eq!(prec_amount(), 4);
    assert_eq!(infix_prec(&Token::Plus), 0);
    assert_eq!(infix_prec(&Token::Minus), 0);
    assert_eq!(infix_prec(&Token::Mod), 1);
    assert_eq!(infix_prec(&Token::Pow), 3);
    assert_eq!(infix_prec(&Token::Eq), INFINITY);
    assert_eq!(unary_prec(&Token::Minus), 2);
    assert_eq!(unary_prec(&Token::Plus), INFINITY);
    assert!(is_unary(&Token::Minus));
    assert!(!is_unary(&Token::Plus));
    assert_eq!(prec_type(2), OpType::Unary);
    assert_eq!(prec_type(1), OpType::LeftAssoc);
    assert_eq!(prec_type(3), OpType::RightAssoc);
    assert_eq!(next_prec(0), 1);
    assert_eq!(next_prec(1), 3);
    assert_eq!(next_prec(2), 3);
    assert_eq!(next_prec(3), INFINITY);
}

#[test]
fn token_text() {
    assert_eq!(Token::Int(42).tok_name(), "42");
    assert_eq!(Token::Int(0).tok_name(), "0");
    assert_eq!(Token::Ident("foo".to_string()).tok_typ(), "identifier");
    assert_eq!(Token::Pow.tok_name(), "^");
    assert_eq!(Token::Let.tok_typ(), "keyword");
    assert_eq!(Token::Eof.tok_typ(), "end of file");
}
