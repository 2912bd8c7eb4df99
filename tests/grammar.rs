use brown::ast::{AssignTarget, DataDef, Expr, Line};
use brown::grammar::{expression, ident, program, ParseError};

#[test]
fn test_ident() {
    assert_eq!("Hello123", ident("Hello123").unwrap())
}

#[test]
fn test_deref() {
    println!("{:?}", expression("32").unwrap());
    println!("{:?}", expression("[32]").unwrap());
}

#[test]
fn ident_rejects_a_leading_digit() {
    assert_eq!(ident("1abc"), Err(ParseError { offset: 0 }));
}

#[test]
fn ident_rejects_an_inner_symbol() {
    assert_eq!(ident("ab$c"), Err(ParseError { offset: 2 }));
    assert_eq!(ident(""), Err(ParseError { offset: 0 }));
    assert_eq!(ident("_x_9").unwrap(), "_x_9");
}

fn b(e: Expr) -> Box<Expr> {
    Box::new(e)
}

#[test]
fn expression_precedence() {
    assert_eq!(expression("32").unwrap(), Expr::Literal(32));
    assert_eq!(expression("[32]").unwrap(), Expr::Deref(b(Expr::Literal(32))));
    assert_eq!(
        expression("1 + 2 * 3").unwrap(),
        Expr::Add(b(Expr::Literal(1)), b(Expr::Mul(b(Expr::Literal(2)), b(Expr::Literal(3)))))
    );
    assert_eq!(
        expression("x - 1 < f(y, 2)").unwrap(),
        Expr::Lt(
            b(Expr::Sub(b(Expr::Var("x".to_string())), b(Expr::Literal(1)))),
            b(Expr::FunCall(
                "f".to_string(),
                vec![Expr::Var("y".to_string()), Expr::Literal(2)]
            ))
        )
    );
    assert_eq!(
        expression("b[&v + 1]").unwrap(),
        Expr::DerefByte(b(Expr::Add(b(Expr::VarAddress("v".to_string())), b(Expr::Literal(1)))))
    );
    assert_eq!(expression("1 +"), Err(ParseError { offset: 3 }));
    assert!(expression("4294967296").is_err());
}

#[test]
fn program_with_data_and_statements() {
    let text = "data { msg: \"hi\\0\" [1, 2] } x := 2; [&x] := 3; print(msg);";
    let (data, code) = program(text).unwrap();
    assert_eq!(
        data,
        vec![DataDef::Label("msg".to_string()), DataDef::Bytes(b"hi\0".to_vec()), DataDef::Bytes(vec![1, 2])]
    );
    assert_eq!(code.len(), 3);
    assert_eq!(
        code[0].line,
        Line::Assign(AssignTarget::Var("x".to_string()), Expr::Literal(2))
    );
    assert!(matches!(code[1].line, Line::Assign(AssignTarget::Addr(_), Expr::Literal(3))));
    assert!(matches!(code[2].line, Line::Expr(Expr::FunCall(ref n, _)) if n == "print"));
}

#[test]
fn program_control_flow_shapes() {
    let text = "fn f(a, b) { ans := a; } if x { y := 1; } else { y := 2; } \
                while i < 3 { i := i + 1; } for k = 0 to 3 { goto done; } label done;";
    let (_, code) = program(text).unwrap();
    assert_eq!(code.len(), 5);
    assert!(matches!(code[0].line, Line::FunDeclaration(ref n, ref p, _, false) if n == "f" && p.len() == 2));
    assert!(matches!(code[1].line, Line::If(_, _, Some(_))));
    assert!(matches!(code[2].line, Line::While(_, _)));
    assert!(matches!(code[3].line, Line::For(ref k, _, _, _) if k == "k"));
    assert!(matches!(code[4].line, Line::Label(ref l) if l == "done"));
    assert!(program("x := ;").is_err());
}
