use brown::ast::{AssignTarget, Block, DataBlock, DataDef, Expr, Line, LineData};
use brown::error::Error;
use brown::intermediate_repr::{convert_data_segment, to_intermediate_repr};
use brown::interpreter::Program;
use brown::intrinsics::Effect;
use brown::state::{Event, Interpreter};

fn lit(n: u32) -> Expr {
    Expr::Literal(n)
}

fn var(name: &str) -> Expr {
    Expr::Var(name.to_string())
}

fn bx(e: Expr) -> Box<Expr> {
    Box::new(e)
}

fn call(name: &str, args: Vec<Expr>) -> Expr {
    Expr::FunCall(name.to_string(), args)
}

fn line(l: Line) -> LineData {
    LineData::new(0, l)
}

fn assign(name: &str, e: Expr) -> LineData {
    line(Line::Assign(AssignTarget::Var(name.to_string()), e))
}

fn stmt(e: Expr) -> LineData {
    line(Line::Expr(e))
}

fn load(code: Block, data: DataBlock) -> Result<Program, Error> {
    Program::try_new(to_intermediate_repr(code), convert_data_segment(data))
}

struct Run {
    result: Result<(), Error>,
    output: String,
    vars: Vec<Option<u32>>,
}

/// Runs a program to its end, answering key queries as if only the key with
/// scan code 44 were held and sprite creation with `0`; reads the named
/// variables afterwards.
fn run(program: &Program, names: &[&str]) -> Run {
    let mut interp = Interpreter::new(program);
    let mut output = String::new();
    let mut result = Ok(());
    for _ in 0..1_000_000 {
        match interp.step(program) {
            Ok(Event::Continue) => {}
            Ok(Event::Finished) => break,
            Ok(Event::Perform(Effect::Output(text))) => output.extend(text),
            Ok(Event::Perform(Effect::Exit)) => break,
            Ok(Event::Perform(Effect::KeyPressed(code))) => interp.resume_key(code == 44),
            Ok(Event::Perform(Effect::CreateMonoSprite { .. })) => interp.resume(0),
            Ok(Event::Perform(_)) => {}
            Err(e) => {
                result = Err(e);
                break;
            }
        }
    }
    let vars = names
        .iter()
        .map(|n| interp.variable(&n.to_string()))
        .collect();
    Run { result, output, vars }
}

#[test]
fn straight_line_program_prints_seven() {
    let code = vec![
        assign("x", lit(2)),
        assign("y", lit(3)),
        assign(
            "ans",
            Expr::Add(bx(Expr::Mul(bx(var("x")), bx(var("y")))), bx(lit(1))),
        ),
        stmt(call("print", vec![var("ans")])),
    ];
    let program = load(code, vec![]).unwrap();
    let r = run(&program, &["x", "y", "ans"]);
    assert_eq!(r.result, Ok(()));
    assert_eq!(r.output, "7\n");
    assert_eq!(r.vars, vec![Some(2), Some(3), Some(7)]);
}

#[test]
fn while_loop_prints_in_order_and_ends() {
    let code = vec![
        assign("i", lit(0)),
        line(Line::While(
            Expr::Lt(bx(var("i")), bx(lit(3))),
            vec![
                stmt(call("print", vec![var("i")])),
                assign("i", Expr::Add(bx(var("i")), bx(lit(1)))),
            ],
        )),
    ];
    let program = load(code, vec![]).unwrap();
    let r = run(&program, &["i"]);
    assert_eq!(r.result, Ok(()));
    assert_eq!(r.output, "0\n1\n2\n");
    assert_eq!(r.vars, vec![Some(3)]);
}

#[test]
fn undeclared_function_is_not_found() {
    let code = vec![stmt(call("foo", vec![]))];
    let program = load(code, vec![]).unwrap();
    let r = run(&program, &[]);
    assert_eq!(r.result, Err(Error::FunctionNotFound("foo".to_string())));
    assert_eq!(r.output, "");
}

#[test]
fn for_loop_runs_body_exactly_three_times() {
    let code = vec![
        assign("x", lit(0)),
        line(Line::For(
            "i".to_string(),
            lit(0),
            lit(3),
            vec![assign("x", Expr::Add(bx(var("x")), bx(lit(1))))],
        )),
    ];
    let program = load(code, vec![]).unwrap();
    let r = run(&program, &["x", "i"]);
    assert_eq!(r.result, Ok(()));
    assert_eq!(r.vars, vec![Some(3), Some(3)]);
}

#[test]
fn if_else_takes_one_branch() {
    let code = vec![
        assign("x", lit(5)),
        line(Line::If(
            Expr::Gt(bx(var("x")), bx(lit(3))),
            vec![assign("y", lit(1))],
            Some(vec![assign("y", lit(2))]),
        )),
        line(Line::If(
            Expr::Lt(bx(var("x")), bx(lit(3))),
            vec![assign("z", lit(1))],
            Some(vec![assign("z", lit(2))]),
        )),
        line(Line::If(Expr::Eq(bx(var("x")), bx(lit(4))), vec![assign("w", lit(9))], None)),
    ];
    let program = load(code, vec![]).unwrap();
    let r = run(&program, &["y", "z", "w"]);
    assert_eq!(r.result, Ok(()));
    assert_eq!(r.vars, vec![Some(1), Some(2), None]);
}

#[test]
fn duplicate_label_is_rejected_at_load() {
    let code = vec![
        line(Line::Label("a".to_string())),
        line(Line::FunDeclaration("a".to_string(), vec![], vec![], false)),
    ];
    let r = load(code, vec![]);
    assert!(matches!(r, Err(Error::LabelRedefinition(ref n)) if n == "a"));
}

#[test]
fn word_and_byte_round_trip() {
    let data = vec![DataDef::Label("buf".to_string()), DataDef::Bytes(vec![0; 8])];
    let code = vec![
        line(Line::Assign(AssignTarget::Addr(Expr::VarAddress("buf".to_string())), lit(0xDEADBEEF))),
        assign("w", Expr::Deref(bx(Expr::VarAddress("buf".to_string())))),
        line(Line::Assign(
            AssignTarget::ByteAddr(Expr::Add(bx(Expr::VarAddress("buf".to_string())), bx(lit(5)))),
            lit(0x1FF),
        )),
        assign(
            "b",
            Expr::DerefByte(bx(Expr::Add(bx(Expr::VarAddress("buf".to_string())), bx(lit(5))))),
        ),
    ];
    let program = load(code, data).unwrap();
    let r = run(&program, &["w", "b"]);
    assert_eq!(r.result, Ok(()));
    assert_eq!(r.vars, vec![Some(0xDEADBEEF), Some(0xFF)]);
}

#[test]
fn comparisons_yield_zero_or_one() {
    let code = vec![
        assign("a", Expr::Lt(bx(lit(1)), bx(lit(2)))),
        assign("b", Expr::Gt(bx(lit(1)), bx(lit(2)))),
        assign("c", Expr::Leq(bx(lit(2)), bx(lit(2)))),
        assign("d", Expr::Geq(bx(lit(1)), bx(lit(2)))),
        assign("e", Expr::Eq(bx(lit(7)), bx(lit(7)))),
        assign("f", Expr::Neq(bx(lit(7)), bx(lit(7)))),
    ];
    let program = load(code, vec![]).unwrap();
    let r = run(&program, &["a", "b", "c", "d", "e", "f"]);
    assert_eq!(r.vars, vec![Some(1), Some(0), Some(1), Some(0), Some(1), Some(0)]);
}

fn add3_program() -> Vec<LineData> {
    // skip over the function body, declare it, then call it
    vec![
        line(Line::Goto("main".to_string())),
        line(Line::FunDeclaration(
            "add3".to_string(),
            vec!["p".to_string(), "q".to_string(), "r".to_string()],
            vec![assign(
                "ans",
                Expr::Add(bx(Expr::Add(bx(var("p")), bx(var("q")))), bx(var("r"))),
            )],
            false,
        )),
        line(Line::Label("main".to_string())),
    ]
}

#[test]
fn missing_arguments_are_zero() {
    let mut code = add3_program();
    code.push(assign("r", lit(100)));
    code.push(assign("x", call("add3", vec![lit(1), lit(2)])));
    let program = load(code, vec![]).unwrap();
    let run = run(&program, &["x", "r"]);
    assert_eq!(run.result, Ok(()));
    assert_eq!(run.vars, vec![Some(3), Some(0)]);
}

#[test]
fn extra_arguments_are_ignored() {
    let mut code = add3_program();
    code.push(assign("x", call("add3", vec![lit(1), lit(2), lit(3), lit(4)])));
    let program = load(code, vec![]).unwrap();
    let run = run(&program, &["x"]);
    assert_eq!(run.result, Ok(()));
    assert_eq!(run.vars, vec![Some(6)]);
}

#[test]
fn recursive_call_uses_global_variables() {
    // fact(n): if n == 0 { ans := 1 } else { ans := n * fact(n - 1) }
    // with `n` global, the multiplication reads `n` before the inner call.
    let code = vec![
        line(Line::Goto("main".to_string())),
        line(Line::FunDeclaration(
            "fact".to_string(),
            vec!["n".to_string()],
            vec![line(Line::If(
                Expr::Eq(bx(var("n")), bx(lit(0))),
                vec![assign("ans", lit(1))],
                Some(vec![assign(
                    "ans",
                    Expr::Mul(
                        bx(var("n")),
                        bx(call("fact", vec![Expr::Sub(bx(var("n")), bx(lit(1)))])),
                    ),
                )]),
            ))],
            false,
        )),
        line(Line::Label("main".to_string())),
        assign("x", call("fact", vec![lit(5)])),
    ];
    let program = load(code, vec![]).unwrap();
    let run = run(&program, &["x"]);
    assert_eq!(run.result, Ok(()));
    assert_eq!(run.vars, vec![Some(120)]);
}

#[test]
fn calling_a_label_is_not_a_function() {
    let code = vec![line(Line::Label("l".to_string())), stmt(call("l", vec![]))];
    let program = load(code, vec![]).unwrap();
    let r = run(&program, &[]);
    assert_eq!(r.result, Err(Error::NameIsNotFunction("l".to_string())));
}

#[test]
fn goto_unknown_label_fails() {
    let code = vec![line(Line::Goto("nowhere".to_string()))];
    let program = load(code, vec![]).unwrap();
    let r = run(&program, &[]);
    assert_eq!(r.result, Err(Error::LabelNotFound("nowhere".to_string())));
}

#[test]
fn word_read_out_of_bounds_fails() {
    let code = vec![assign("x", Expr::Deref(bx(lit(1000))))];
    let program = load(code, vec![]).unwrap();
    let r = run(&program, &[]);
    assert_eq!(
        r.result,
        Err(Error::U32OutOfBounds { u32_read_index: 1000, memory_length: 0 })
    );
}

#[test]
fn byte_read_out_of_bounds_fails() {
    let data = vec![DataDef::Bytes(vec![1, 2])];
    let code = vec![assign("x", Expr::DerefByte(bx(lit(6))))];
    let program = load(code, data).unwrap();
    let r = run(&program, &[]);
    assert_eq!(
        r.result,
        Err(Error::U8OutOfBounds { u8_read_index: 6, memory_length: 2 })
    );
}

#[test]
fn division_by_zero_fails() {
    let code = vec![assign("x", Expr::Div(bx(lit(1)), bx(lit(0))))];
    let program = load(code, vec![]).unwrap();
    assert_eq!(run(&program, &[]).result, Err(Error::DivisionByZero));
}

#[test]
fn arithmetic_wraps_and_shifts() {
    let code = vec![
        assign("a", Expr::Sub(bx(lit(0)), bx(lit(1)))),
        assign("b", Expr::Add(bx(lit(0xFFFF_FFFF)), bx(lit(2)))),
        assign("c", Expr::Shl(bx(lit(1)), bx(lit(4)))),
        assign("d", Expr::Shr(bx(lit(256)), bx(lit(40)))),
        assign("e", Expr::Mod(bx(lit(17)), bx(lit(5)))),
        assign("f", Expr::Invert(bx(lit(0)))),
        assign("g", Expr::BitXor(bx(lit(6)), bx(lit(3)))),
    ];
    let program = load(code, vec![]).unwrap();
    let r = run(&program, &["a", "b", "c", "d", "e", "f", "g"]);
    assert_eq!(
        r.vars,
        vec![Some(0xFFFF_FFFF), Some(1), Some(16), Some(0), Some(2), Some(0xFFFF_FFFF), Some(5)]
    );
}

#[test]
fn intrinsic_argument_count_is_checked_first() {
    let code = vec![stmt(call("printchar", vec![lit(65), lit(66)]))];
    let program = load(code, vec![]).unwrap();
    let r = run(&program, &[]);
    assert_eq!(
        r.result,
        Err(Error::IntrinsicArgumentMismatch {
            expected: vec![1],
            got: 2,
            func_name: "printchar".to_string()
        })
    );
    assert_eq!(r.output, "");
}

#[test]
fn output_intrinsics_write_text() {
    let code = vec![
        stmt(call("print", vec![lit(41)])),
        stmt(call("printchar", vec![lit(0x263A)])),
        stmt(call("numprint", vec![lit(12), lit(34)])),
        stmt(call("numprintln", vec![])),
    ];
    let program = load(code, vec![]).unwrap();
    let r = run(&program, &[]);
    assert_eq!(r.result, Ok(()));
    assert_eq!(r.output, "41\n\u{263A}1234\n");
}

#[test]
fn a_name_outside_the_builtins_calls_the_user_function() {
    let code = vec![
        line(Line::Goto("main".to_string())),
        line(Line::FunDeclaration(
            "printstr".to_string(),
            vec!["a".to_string()],
            vec![assign("ans", Expr::Add(bx(var("a")), bx(lit(1))))],
            false,
        )),
        line(Line::Label("main".to_string())),
        assign("x", call("printstr", vec![lit(9)])),
    ];
    let program = load(code, vec![]).unwrap();
    let r = run(&program, &["x"]);
    assert_eq!(r.result, Ok(()));
    assert_eq!(r.output, "");
    assert_eq!(r.vars, vec![Some(10)]);
}

#[test]
fn invalid_character_is_rejected() {
    let code = vec![stmt(call("printchar", vec![lit(0xD800)]))];
    let program = load(code, vec![]).unwrap();
    assert_eq!(run(&program, &[]).result, Err(Error::InvalidCharacterValue(0xD800)));
}

#[test]
fn random_range_stays_in_range() {
    let code = vec![
        assign("x", call("randomrange", vec![lit(5), lit(8)])),
        assign("y", call("random", vec![])),
    ];
    let program = load(code, vec![]).unwrap();
    for _ in 0..20 {
        let r = run(&program, &["x"]);
        assert_eq!(r.result, Ok(()));
        let x = r.vars[0].unwrap();
        assert!((5..8).contains(&x));
    }
}

#[test]
fn empty_random_range_fails() {
    let code = vec![assign("x", call("randomrange", vec![lit(8), lit(8)]))];
    let program = load(code, vec![]).unwrap();
    assert_eq!(run(&program, &[]).result, Err(Error::EmptyRange { low: 8, high: 8 }));
}

#[test]
fn key_query_yields_one_or_zero() {
    let code = vec![
        assign("a", call("keypressed", vec![lit(44)])),
        assign("b", call("keypressed", vec![lit(5)])),
    ];
    let program = load(code, vec![]).unwrap();
    let r = run(&program, &["a", "b"]);
    assert_eq!(r.result, Ok(()));
    assert_eq!(r.vars, vec![Some(1), Some(0)]);
}
