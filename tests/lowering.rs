use brown::ast::{AssignTarget, DataDef, Expr, Line, LineData};
use brown::error::Error;
use brown::intermediate_repr::{convert_data_segment, to_intermediate_repr, IntermediateLine};
use brown::interpreter::{build_label_table, Program};
use brown::intrinsics::{try_execute_intrinsic, Effect, GraphicsCall};
use brown::raster::{line_points, mono_sprite_pixels};
use brown::text::{decimal_string, hex_string};
use brown::util::append_u32;

fn ld(l: Line) -> LineData {
    LineData::new(0, l)
}

fn lab(n: &str) -> String {
    n.to_string()
}

#[test]
fn if_else_lowers_to_jumps_and_labels() {
    let ast = vec![ld(Line::If(
        Expr::Var(lab("c")),
        vec![ld(Line::Goto(lab("a")))],
        Some(vec![ld(Line::Goto(lab("b")))]),
    ))];
    let ir = to_intermediate_repr(ast);
    assert_eq!(
        ir,
        vec![
            IntermediateLine::JumpFalse(Expr::Var(lab("c")), lab("$internal_0")),
            IntermediateLine::Goto(lab("a")),
            IntermediateLine::Goto(lab("$internal_1")),
            IntermediateLine::Label(lab("$internal_0")),
            IntermediateLine::Goto(lab("b")),
            IntermediateLine::Label(lab("$internal_1")),
        ]
    );
}

#[test]
fn if_without_else_has_one_label() {
    let ast = vec![ld(Line::If(Expr::Literal(1), vec![], None))];
    assert_eq!(
        to_intermediate_repr(ast),
        vec![
            IntermediateLine::JumpFalse(Expr::Literal(1), lab("$internal_0")),
            IntermediateLine::Label(lab("$internal_0")),
        ]
    );
}

#[test]
fn for_lowers_to_counter_loop() {
    let ast = vec![ld(Line::For(
        lab("i"),
        Expr::Literal(0),
        Expr::Literal(3),
        vec![ld(Line::Label(lab("body")))],
    ))];
    let v = || Box::new(Expr::Var(lab("i")));
    assert_eq!(
        to_intermediate_repr(ast),
        vec![
            IntermediateLine::Assign(AssignTarget::Var(lab("i")), Expr::Literal(0)),
            IntermediateLine::Label(lab("$internal_0")),
            IntermediateLine::JumpFalse(
                Expr::Lt(v(), Box::new(Expr::Literal(3))),
                lab("$internal_1")
            ),
            IntermediateLine::Label(lab("body")),
            IntermediateLine::Assign(
                AssignTarget::Var(lab("i")),
                Expr::Add(v(), Box::new(Expr::Literal(1)))
            ),
            IntermediateLine::Goto(lab("$internal_0")),
            IntermediateLine::Label(lab("$internal_1")),
        ]
    );
}

#[test]
fn nested_while_and_function_number_labels_in_order() {
    let ast = vec![
        ld(Line::FunDeclaration(
            lab("f"),
            vec![lab("x")],
            vec![ld(Line::While(Expr::Literal(1), vec![ld(Line::Expr(Expr::Literal(2)))]))],
            true,
        )),
        ld(Line::While(Expr::Literal(0), vec![])),
    ];
    assert_eq!(
        to_intermediate_repr(ast),
        vec![
            IntermediateLine::FunDeclaration(lab("f"), vec![lab("x")]),
            IntermediateLine::Label(lab("$internal_0")),
            IntermediateLine::JumpFalse(Expr::Literal(1), lab("$internal_1")),
            IntermediateLine::Expr(Expr::Literal(2)),
            IntermediateLine::Goto(lab("$internal_0")),
            IntermediateLine::Label(lab("$internal_1")),
            IntermediateLine::FunReturn,
            IntermediateLine::Label(lab("$internal_2")),
            IntermediateLine::JumpFalse(Expr::Literal(0), lab("$internal_3")),
            IntermediateLine::Goto(lab("$internal_2")),
            IntermediateLine::Label(lab("$internal_3")),
        ]
    );
}

#[test]
fn data_labels_point_at_following_bytes() {
    let seg = convert_data_segment(vec![
        DataDef::Label(lab("a")),
        DataDef::Bytes(vec![1, 2, 3]),
        DataDef::Label(lab("b")),
        DataDef::Label(lab("c")),
        DataDef::Bytes(vec![4]),
        DataDef::Label(lab("a")),
    ]);
    assert_eq!(seg.bytes, vec![1, 2, 3, 4]);
    assert_eq!(seg.labels.get(&lab("a")), Some(4));
    assert_eq!(seg.labels.get(&lab("b")), Some(3));
    assert_eq!(seg.labels.get(&lab("c")), Some(3));
    assert_eq!(seg.labels.get(&lab("d")), None);
}

#[test]
fn empty_data_segment() {
    let seg = convert_data_segment(vec![]);
    assert!(seg.bytes.is_empty());
    assert_eq!(seg.labels.get(&lab("a")), None);
}

#[test]
fn label_table_maps_names_to_indices() {
    let ir = vec![
        IntermediateLine::Goto(lab("x")),
        IntermediateLine::Label(lab("x")),
        IntermediateLine::FunDeclaration(lab("f"), vec![]),
        IntermediateLine::FunReturn,
    ];
    let t = build_label_table(&ir).unwrap();
    assert_eq!(t.get(&lab("x")), Some(1));
    assert_eq!(t.get(&lab("f")), Some(2));
    assert_eq!(t.get(&lab("y")), None);
}

#[test]
fn label_table_reports_first_redefinition() {
    let ir = vec![
        IntermediateLine::Label(lab("x")),
        IntermediateLine::Label(lab("y")),
        IntermediateLine::FunDeclaration(lab("y"), vec![]),
        IntermediateLine::Label(lab("x")),
    ];
    assert_eq!(build_label_table(&ir).err(), Some(Error::LabelRedefinition(lab("y"))));
    assert!(Program::try_new(ir, convert_data_segment(vec![])).is_err());
}

#[test]
fn append_u32_is_little_endian() {
    let mut v = vec![9u8];
    append_u32(&mut v, 0x0102_0304);
    assert_eq!(v, vec![9, 4, 3, 2, 1]);
}

#[test]
fn intrinsic_lookup_and_effects() {
    let mem = vec![0u8; 16];
    assert!(try_execute_intrinsic(&lab("nosuch"), &vec![], &mem).is_none());
    assert_eq!(
        try_execute_intrinsic(&lab("pixel"), &vec![3, 4], &mem),
        Some(Ok(Effect::Graphics(GraphicsCall::Pixel(3, 4))))
    );
    assert_eq!(
        try_execute_intrinsic(&lab("keypressed"), &vec![7], &mem),
        Some(Ok(Effect::KeyPressed(7)))
    );
    assert_eq!(
        try_execute_intrinsic(&lab("numprintln"), &vec![10, 0], &mem),
        Some(Ok(Effect::Output("10\n0\n".chars().collect())))
    );
    assert_eq!(
        try_execute_intrinsic(&lab("print"), &vec![42], &mem),
        Some(Ok(Effect::Output("42\n".chars().collect())))
    );
    assert!(try_execute_intrinsic(&lab("printstr"), &vec![20], &mem).is_none());
    assert!(try_execute_intrinsic(&lab("Print"), &vec![20], &mem).is_none());
    let mut data = vec![0xFFu8; 10];
    data[0] = 0xAA;
    assert_eq!(
        try_execute_intrinsic(&lab("createmonosprite"), &vec![1, 16, 4, 0xFF], &data),
        Some(Ok(Effect::CreateMonoSprite { data: vec![0xFF; 8], width: 16, height: 4, color: 0xFF }))
    );
    assert_eq!(
        try_execute_intrinsic(&lab("createmonosprite"), &vec![1, 16, 4, 0xFF], &vec![0u8; 9][..8].to_vec()),
        Some(Err(Error::U8OutOfBounds { u8_read_index: 9, memory_length: 8 }))
    );
    assert_eq!(
        try_execute_intrinsic(&lab("exit"), &vec![1], &mem),
        Some(Err(Error::IntrinsicArgumentMismatch { expected: vec![0], got: 1, func_name: lab("exit") }))
    );
}

#[test]
fn error_messages() {
    assert_eq!(Error::LabelNotFound(lab("l")).message(), "could not find label `l`");
    assert_eq!(
        Error::U32OutOfBounds { u32_read_index: 12, memory_length: 8 }.message(),
        "attempted to read 32 bit number at index 12, but memory is only 8 bytes long"
    );
    assert_eq!(
        Error::IntrinsicArgumentMismatch { expected: vec![2], got: 3, func_name: lab("pixel") }.message(),
        "function `pixel` expects 2 arguments but 3 were supplied"
    );
    assert_eq!(
        Error::IntrinsicArgumentMismatch { expected: vec![1, 2], got: 3, func_name: lab("f") }.message(),
        "function `f` expects 1 or 2 arguments but 3 were supplied"
    );
    assert_eq!(Error::InvalidCharacterValue(0xD800).message(), "invalid character value 0xD800");
    assert_eq!(Error::FunctionNotFound(lab("foo")).message(), "could not find function foo");
    assert_eq!(Error::EmptyRange { low: 5, high: 2 }.message(), "random range 5..2 is empty");
}

#[test]
fn line_points_follow_bresenham() {
    assert_eq!(line_points(0, 0, 3, 1), vec![(0, 0), (1, 0), (2, 1), (3, 1)]);
    assert_eq!(line_points(2, 2, 2, 2), vec![(2, 2)]);
    assert_eq!(line_points(1, 4, 1, 1), vec![(1, 4), (1, 3), (1, 2), (1, 1)]);
    assert_eq!(line_points(3, 3, 0, 0), vec![(3, 3), (2, 2), (1, 1), (0, 0)]);
    assert_eq!(line_points(0, 0, 10, 3).len(), 11);
    assert_eq!(line_points(5, 0, 4, 7).len(), 8);
}

#[test]
fn mono_sprite_pixels_expand_bits() {
    let px = mono_sprite_pixels(&vec![0b1000_0001], 0x11223344);
    assert_eq!(px.len(), 32);
    assert_eq!(&px[0..4], &[0x44, 0x33, 0x22, 0x11]);
    assert_eq!(&px[4..28], &[0u8; 24][..]);
    assert_eq!(&px[28..32], &[0x44, 0x33, 0x22, 0x11]);
    assert!(mono_sprite_pixels(&vec![], 5).is_empty());
    // the most significant bit is the leftmost pixel
    let px = mono_sprite_pixels(&vec![0b1000_0000, 0b0000_0010], 1);
    assert_eq!(&px[0..4], &[1, 0, 0, 0]);
    assert_eq!(&px[4..32], &[0u8; 28][..]);
    assert_eq!(&px[32..56], &[0u8; 24][..]);
    assert_eq!(&px[56..60], &[1, 0, 0, 0]);
    assert_eq!(&px[60..64], &[0, 0, 0, 0]);
}

#[test]
fn line_data_from_pair() {
    let l = LineData::from((7, Line::Goto(lab("x"))));
    assert_eq!(l.start_index, 7);
    assert_eq!(l.line, Line::Goto(lab("x")));
}

#[test]
fn number_text() {
    assert_eq!(decimal_string(0), "0");
    assert_eq!(decimal_string(1_234_567_890_123), "1234567890123");
    assert_eq!(decimal_string(u64::MAX), "18446744073709551615");
    assert_eq!(hex_string(0), "0");
    assert_eq!(hex_string(0xABC09), "ABC09");
    assert_eq!(hex_string(u32::MAX), "FFFFFFFF");
}
