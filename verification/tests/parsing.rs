use cobra::ast::{is_keyword, is_set_in_expr, Expr, Op1, Op2};
use cobra::parser::{parse_expr, parse_program, ParseError};
use cobra::sexpr::{SAtom, SExpr};

fn num(n: i64) -> Box<Expr> {
    Box::new(Expr::Number(n))
}

fn id(x: &str) -> Box<Expr> {
    Box::new(Expr::Id(x.to_string()))
}

#[test]
fn reads_atoms() {
    assert_eq!(parse_program("5", "-c"), Ok(Expr::Number(5)));
    assert_eq!(parse_program("-42", "-c"), Ok(Expr::Number(-42)));
    assert_eq!(parse_program("true", "-c"), Ok(Expr::Boolean(true)));
    assert_eq!(parse_program("false", "-c"), Ok(Expr::Boolean(false)));
    assert_eq!(parse_program("input", "-c"), Ok(Expr::Id("input".to_string())));
    assert_eq!(parse_program("1.5", "-c"), Err(ParseError::Invalid));
}

#[test]
fn reads_operators() {
    assert_eq!(parse_program("(add1 input)", "-c"), Ok(Expr::UnOp(Op1::Add1, id("input"))));
    assert_eq!(parse_program("(isbool 1)", "-c"), Ok(Expr::UnOp(Op1::IsBool, num(1))));
    assert_eq!(
        parse_program("(<= 1 2)", "-c"),
        Ok(Expr::BinOp(Op2::LessEqual, num(1), num(2)))
    );
    assert_eq!(
        parse_program("(if true 1 2)", "-c"),
        Ok(Expr::If(Box::new(Expr::Boolean(true)), num(1), num(2)))
    );
    assert_eq!(
        parse_program("(loop (break 1))", "-c"),
        Ok(Expr::Loop(Box::new(Expr::Break(num(1)))))
    );
    assert_eq!(
        parse_program("(set! x 3)", "-c"),
        Ok(Expr::Assign("x".to_string(), num(3)))
    );
    assert_eq!(
        parse_program("(block 1 x)", "-c"),
        Ok(Expr::Block(vec![Expr::Number(1), Expr::Id("x".to_string())]))
    );
    assert_eq!(
        parse_program("(let ((x 1) (y x)) (+ x y))", "-c"),
        Ok(Expr::Let(
            vec![("x".to_string(), Expr::Number(1)), ("y".to_string(), Expr::Id("x".to_string()))],
            Box::new(Expr::BinOp(Op2::Plus, id("x"), id("y")))
        ))
    );
}

#[test]
fn refuses_malformed_forms() {
    assert_eq!(parse_program("(add1 1 2)", "-c"), Err(ParseError::Invalid));
    assert_eq!(parse_program("(block)", "-c"), Err(ParseError::Invalid));
    assert_eq!(parse_program("()", "-c"), Err(ParseError::Invalid));
    assert_eq!(parse_program("(1 2)", "-c"), Err(ParseError::Invalid));
    assert_eq!(parse_program("(set! 1 2)", "-c"), Err(ParseError::Invalid));
    assert_eq!(parse_program("(let x 1)", "-c"), Err(ParseError::Invalid));
    assert_eq!(parse_program("(frob 1)", "-c"), Err(ParseError::Invalid));
    assert_eq!(parse_program("(add1 1.5)", "-c"), Err(ParseError::Invalid));
}

#[test]
fn refuses_bad_bindings() {
    let dup = parse_program("(let ((x 1) (x 2)) x)", "-c").unwrap_err();
    assert_eq!(dup, ParseError::DuplicateBinding);
    assert_eq!(dup.message(), "Duplicate binding");
    let not_list = parse_program("(let (x) 1)", "-c").unwrap_err();
    assert_eq!(not_list, ParseError::BindingNotList);
    assert_eq!(not_list.message(), "Each binding should be a list");
    let pair = parse_program("(let ((x 1 2)) x)", "-c").unwrap_err();
    assert_eq!(pair.message(), "Invalid binding pair: [x, 1, 2]");
    let pair = parse_program("(let ((1 2)) x)", "-c").unwrap_err();
    assert_eq!(pair.message(), "Invalid binding pair: [1, 2]");
}

#[test]
fn reports_reader_errors() {
    let e = parse_program("(1 2", "-c").unwrap_err();
    assert_eq!(e, ParseError::Syntax("1:3: unexpected eof".to_string()));
    assert_eq!(e.message(), "1:3: unexpected eof");
    let e = parse_program("1 2", "-c").unwrap_err();
    assert!(matches!(e, ParseError::Syntax(_)));
}

#[test]
fn define_only_once_and_only_at_the_prompt() {
    assert_eq!(parse_program("(define x 1)", "-c"), Err(ParseError::Invalid));
    assert_eq!(
        parse_program("(define x 1)", "-i"),
        Ok(Expr::Define("x".to_string(), num(1)))
    );
    assert_eq!(
        parse_program("(block (define x 1) (define y 2))", "-i"),
        Err(ParseError::Invalid)
    );
    let s = SExpr::List(vec![
        SExpr::Atom(SAtom::S("define".to_string())),
        SExpr::Atom(SAtom::S("x".to_string())),
        SExpr::Atom(SAtom::I(1)),
    ]);
    let mut count = 1;
    assert_eq!(parse_expr(&s, &mut count, "-i"), Err(ParseError::Invalid));
    assert_eq!(count, 2);
    let mut count = 0;
    assert_eq!(parse_expr(&s, &mut count, "-i"), Ok(Expr::Define("x".to_string(), num(1))));
    assert_eq!(count, 1);
}

#[test]
fn keywords_and_assignments() {
    assert!(is_keyword("set!"));
    assert!(is_keyword("input"));
    assert!(is_keyword(">="));
    assert!(!is_keyword("define"));
    assert!(!is_keyword("x"));
    let e = parse_program("(let ((y 1)) (block (set! x 2) y))", "-c").unwrap();
    assert!(is_set_in_expr("x", &e));
    assert!(!is_set_in_expr("y", &e));
    let e = parse_program("(if (set! z 1) 1 2)", "-c").unwrap();
    assert!(is_set_in_expr("z", &e));
}

#[test]
fn let_bindings_read_in_order() {
    let e = parse_program("(let ((b 1) (a (add1 b)) (c true)) c)", "-c").unwrap();
    assert_eq!(
        e,
        Expr::Let(
            vec![
                ("b".to_string(), Expr::Number(1)),
                ("a".to_string(), Expr::UnOp(Op1::Add1, id("b"))),
                ("c".to_string(), Expr::Boolean(true)),
            ],
            id("c")
        )
    );
    let mut cnt: i64 = 0;
    let form = |x: &str, n: i64| {
        SExpr::List(vec![SExpr::Atom(SAtom::S(x.to_string())), SExpr::Atom(SAtom::I(n))])
    };
    let s = SExpr::List(vec![
        SExpr::Atom(SAtom::S("let".to_string())),
        SExpr::List(vec![form("x", 1), form("y", 2)]),
        SExpr::Atom(SAtom::S("y".to_string())),
    ]);
    assert_eq!(
        parse_expr(&s, &mut cnt, "-c"),
        Ok(Expr::Let(
            vec![("x".to_string(), Expr::Number(1)), ("y".to_string(), Expr::Number(2))],
            id("y")
        ))
    );
    assert_eq!(cnt, 0);
}
