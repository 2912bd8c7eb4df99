//! Lowering of parsed blocks into a flat list of instructions: `if`, `for`,
//! `while` and function bodies become labels, gotos and conditional jumps.
//! Expression trees are kept as they were parsed.
use vstd::prelude::*;

use crate::ast::{AssignTarget, Block, DataBlock, DataDef, Expr, Line, LineData};
use crate::name_table::NameTable;
use crate::text::{decimal, decimal_string, lemma_decimal_injective};

verus! {

/// A flat instruction.
#[derive(Debug, PartialEq, Eq)]
pub enum IntermediateLine {
    Assign(AssignTarget, Expr),
    Goto(String),
    Label(String),
    /// Jumps to the label when the expression evaluates to zero.
    JumpFalse(Expr, String),
    /// A function's entry point: its name and parameter names.
    FunDeclaration(String, Vec<String>),
    FunReturn,
    Expr(Expr),
}

/// An instruction with its names seen as character sequences.
pub enum IrLine {
    Assign(AssignTarget, Expr),
    Goto(Seq<char>),
    Label(Seq<char>),
    JumpFalse(Expr, Seq<char>),
    FunDeclaration(Seq<char>, Vec<String>),
    FunReturn,
    Expr(Expr),
}

impl View for IntermediateLine {
    type V = IrLine;

    open spec fn view(&self) -> IrLine {
        match self {
            IntermediateLine::Assign(t, e) => IrLine::Assign(*t, *e),
            IntermediateLine::Goto(l) => IrLine::Goto(l@),
            IntermediateLine::Label(l) => IrLine::Label(l@),
            IntermediateLine::JumpFalse(e, l) => IrLine::JumpFalse(*e, l@),
            IntermediateLine::FunDeclaration(n, a) => IrLine::FunDeclaration(n@, *a),
            IntermediateLine::FunReturn => IrLine::FunReturn,
            IntermediateLine::Expr(e) => IrLine::Expr(*e),
        }
    }
}

/// The instructions of a lowered block, names seen as character sequences.
pub open spec fn ir_view(s: Seq<IntermediateLine>) -> Seq<IrLine> {
    s.map_values(|l: IntermediateLine| l@)
}

/// The name of the internal label numbered `n`. It starts with `$`, which no
/// user identifier holds.
pub open spec fn internal_label(n: u64) -> Seq<char> {
    seq!['$', 'i', 'n', 't', 'e', 'r', 'n', 'a', 'l', '_'] + decimal(n as nat)
}

/// The label counter after one label was taken.
pub open spec fn next_count(c: u64) -> u64 {
    if c == u64::MAX {
        0
    } else {
        (c + 1) as u64
    }
}

/// The instructions of a block lowered with the counter starting at `c`, and
/// the counter afterwards.
pub open spec fn lower_block(b: Seq<LineData>, c: u64) -> (Seq<IrLine>, u64)
    decreases b,
{
    if b.len() == 0 {
        (Seq::empty(), c)
    } else {
        let front = lower_block(b.subrange(0, b.len() - 1), c);
        let last = lower_line(b[b.len() - 1].line, front.1);
        (front.0 + last.0, last.1)
    }
}

/// The instructions of one statement lowered with the counter starting at `c`,
/// and the counter afterwards.
pub open spec fn lower_line(line: Line, c: u64) -> (Seq<IrLine>, u64)
    decreases line,
{
    match line {
        Line::Assign(t, e) => (seq![IrLine::Assign(t, e)], c),
        Line::Goto(l) => (seq![IrLine::Goto(l@)], c),
        Line::Label(l) => (seq![IrLine::Label(l@)], c),
        Line::Expr(e) => (seq![IrLine::Expr(e)], c),
        Line::If(test, then_block, else_block) => {
            let else_label = internal_label(c);
            let t = lower_block(then_block@, next_count(c));
            match else_block {
                None => (
                    seq![IrLine::JumpFalse(test, else_label)] + t.0 + seq![IrLine::Label(else_label)],
                    t.1,
                ),
                Some(eb) => {
                    let exit_label = internal_label(t.1);
                    let e = lower_block(eb@, next_count(t.1));
                    (
                        seq![IrLine::JumpFalse(test, else_label)] + t.0 + seq![
                            IrLine::Goto(exit_label),
                            IrLine::Label(else_label),
                        ] + e.0 + seq![IrLine::Label(exit_label)],
                        e.1,
                    )
                },
            }
        },
        Line::For(v, start, end, body) => {
            let start_label = internal_label(c);
            let exit_label = internal_label(next_count(c));
            let b = lower_block(body@, next_count(next_count(c)));
            (
                seq![
                    IrLine::Assign(AssignTarget::Var(v), start),
                    IrLine::Label(start_label),
                    IrLine::JumpFalse(Expr::Lt(Box::new(Expr::Var(v)), Box::new(end)), exit_label),
                ] + b.0 + seq![
                    IrLine::Assign(
                        AssignTarget::Var(v),
                        Expr::Add(Box::new(Expr::Var(v)), Box::new(Expr::Literal(1))),
                    ),
                    IrLine::Goto(start_label),
                    IrLine::Label(exit_label),
                ],
                b.1,
            )
        },
        Line::While(condition, body) => {
            let start_label = internal_label(c);
            let exit_label = internal_label(next_count(c));
            let b = lower_block(body@, next_count(next_count(c)));
            (
                seq![IrLine::Label(start_label), IrLine::JumpFalse(condition, exit_label)] + b.0
                    + seq![IrLine::Goto(start_label), IrLine::Label(exit_label)],
                b.1,
            )
        },
        Line::FunDeclaration(name, args, body, _) => {
            let b = lower_block(body@, c);
            (seq![IrLine::FunDeclaration(name@, args)] + b.0 + seq![IrLine::FunReturn], b.1)
        },
    }
}

/// `(a + b)` seen as names is `a` seen as names, then `b`.
proof fn lemma_ir_view_concat(a: Seq<IntermediateLine>, b: Seq<IntermediateLine>)
    ensures
        ir_view(a + b) == ir_view(a) + ir_view(b),
{
    assert(ir_view(a + b) =~= ir_view(a) + ir_view(b));
}

/// Lowers a parsed block into flat instructions, numbering internal labels from zero.
pub fn to_intermediate_repr(ast: Block) -> (r: Vec<IntermediateLine>)
    ensures
        ir_view(r@) == lower_block(ast@, 0).0,
{
    // label counter is used for generating internal labels
    // (counts up so each label is uniquely named)
    let mut label_counter: u64 = 0;
    convert_block(ast, &mut label_counter)
}

/// Lowers each statement of a block in order, threading the label counter.
fn convert_block(block: Block, counter: &mut u64) -> (r: Vec<IntermediateLine>)
    ensures
        ir_view(r@) == lower_block(block@, *old(counter)).0,
        *final(counter) == lower_block(block@, *old(counter)).1,
    decreases block,
{
    let ghost whole = block;
    let ghost c0 = *counter;
    let mut out: Vec<IntermediateLine> = Vec::new();
    for ld in iter: block
        invariant
            iter.seq() == whole@,
            ir_view(out@) == lower_block(whole@.subrange(0, iter.index() as int), c0).0,
            *counter == lower_block(whole@.subrange(0, iter.index() as int), c0).1,
            whole == block,
    {
        let ghost k = iter.index() as int;
        let ghost before = *counter;
        proof {
            assert(ld == whole@[k]);
            assert(decreases_to!(whole => ld.line));
        }
        let mut lines = convert_line(ld.line, counter);
        let ghost prev = out@;
        out.append(&mut lines);
        proof {
            let front = whole@.subrange(0, k);
            let upto = whole@.subrange(0, k + 1);
            assert(upto.subrange(0, upto.len() - 1) =~= front);
            assert(upto[upto.len() - 1] == ld);
            lemma_ir_view_concat(prev, lines@);
        }
    }
    proof {
        assert(whole@.subrange(0, whole@.len() as int) =~= whole@);
    }
    out
}

/// Lowers one statement, taking internal labels from the counter.
fn convert_line(line: Line, counter: &mut u64) -> (r: Vec<IntermediateLine>)
    ensures
        ir_view(r@) == lower_line(line, *old(counter)).0,
        *final(counter) == lower_line(line, *old(counter)).1,
    decreases line,
{
    let ghost whole = line;
    let ghost c0 = *counter;
    let mut block: Vec<IntermediateLine> = Vec::new();
    match line {
        Line::Assign(t, e) => block.push(IntermediateLine::Assign(t, e)),
        Line::Goto(l) => block.push(IntermediateLine::Goto(l)),
        Line::Label(l) => block.push(IntermediateLine::Label(l)),
        Line::Expr(e) => block.push(IntermediateLine::Expr(e)),
        Line::If(test_expr, then_block, else_block) => {
            let else_label = next_label_name(counter);
            // If condition is false, skip the if block body and jump to else
            block.push(IntermediateLine::JumpFalse(test_expr, else_label.clone()));
            let ghost c1 = *counter;
            let mut then_lines = convert_block(then_block, counter);
            let ghost t = then_lines@;
            block.append(&mut then_lines);
            match else_block {
                Some(else_block) => {
                    proof {
                        assert(decreases_to!(whole => else_block));
                    }
                    let exit_label = next_label_name(counter);
                    // if falling through from the if block, jump over the else block to the exit
                    block.push(IntermediateLine::Goto(exit_label.clone()));
                    block.push(IntermediateLine::Label(else_label));
                    let mut else_lines = convert_block(else_block, counter);
                    let ghost e = else_lines@;
                    block.append(&mut else_lines);
                    block.push(IntermediateLine::Label(exit_label));
                    proof {
                        assert(ir_view(block@) =~= lower_line(whole, c0).0) by {
                            assert(ir_view(t) == lower_block(then_block@, c1).0);
                            lemma_ir_view_concat(t, e);
                        }
                    }
                },
                None => {
                    block.push(IntermediateLine::Label(else_label));
                    proof {
                        assert(ir_view(block@) =~= lower_line(whole, c0).0);
                    }
                },
            }
        },
        Line::For(counter_variable, start, end, body) => {
            let start_label = next_label_name(counter);
            let exit_label = next_label_name(counter);
            block.push(IntermediateLine::Assign(AssignTarget::Var(counter_variable.clone()), start));
            block.push(IntermediateLine::Label(start_label.clone()));
            // if outside the bounds of the for loop (counter_variable >= end),
            // jump out of loop
            block.push(
                IntermediateLine::JumpFalse(
                    Expr::Lt(Box::new(Expr::Var(counter_variable.clone())), Box::new(end)),
                    exit_label.clone(),
                ),
            );
            let mut body_lines = convert_block(body, counter);
            block.append(&mut body_lines);
            // counter_variable = counter_variable + 1
            block.push(
                IntermediateLine::Assign(
                    AssignTarget::Var(counter_variable.clone()),
                    Expr::Add(Box::new(Expr::Var(counter_variable)), Box::new(Expr::Literal(1))),
                ),
            );
            block.push(IntermediateLine::Goto(start_label));
            block.push(IntermediateLine::Label(exit_label));
            proof {
                assert(ir_view(block@) =~= lower_line(whole, c0).0);
            }
        },
        Line::While(condition, body) => {
            let start_label = next_label_name(counter);
            let exit_label = next_label_name(counter);
            block.push(IntermediateLine::Label(start_label.clone()));
            // if while condition is false, jump out of loop
            block.push(IntermediateLine::JumpFalse(condition, exit_label.clone()));
            let mut body_lines = convert_block(body, counter);
            block.append(&mut body_lines);
            block.push(IntermediateLine::Goto(start_label));
            block.push(IntermediateLine::Label(exit_label));
            proof {
                assert(ir_view(block@) =~= lower_line(whole, c0).0);
            }
        },
        Line::FunDeclaration(name, args, body, _saveargs) => {
            block.push(IntermediateLine::FunDeclaration(name, args));
            let mut body_lines = convert_block(body, counter);
            block.append(&mut body_lines);
            block.push(IntermediateLine::FunReturn);
            proof {
                assert(ir_view(block@) =~= lower_line(whole, c0).0);
            }
        },
    }
    proof {
        assert(ir_view(block@) =~= lower_line(whole, c0).0);
    }
    block
}

/// Generates and returns the name of a new internal label
/// (increments counter to create the name)
fn next_label_name(counter: &mut u64) -> (r: String)
    ensures
        r@ == internal_label(*old(counter)),
        *final(counter) == next_count(*old(counter)),
{
    // uses `$` because this char is not available in user label names, to avoid collision
    let mut label_name = String::from_str("$internal_");
    let digits = decimal_string(*counter);
    label_name.append(digits.as_str());
    proof {
        reveal_strlit("$internal_");
        assert(label_name@ =~= internal_label(*old(counter)));
    }
    *counter = if *counter == u64::MAX {
        0
    } else {
        *counter + 1
    };
    label_name
}

/// Static data flattened into one byte buffer, with the offset of each data label.
pub struct DataSegment {
    pub bytes: Vec<u8>,
    /// Maps each data label to the offset of the byte it names.
    pub labels: NameTable,
}

/// The bytes of the declarations, concatenated in order.
pub open spec fn data_bytes(d: Seq<DataDef>) -> Seq<u8>
    decreases d.len(),
{
    if d.len() == 0 {
        Seq::empty()
    } else {
        let front = data_bytes(d.subrange(0, d.len() - 1));
        match d[d.len() - 1] {
            DataDef::Label(_) => front,
            DataDef::Bytes(b) => front + b@,
        }
    }
}

/// Each data label with the number of bytes declared before it; a later
/// declaration of a name replaces an earlier one.
pub open spec fn data_labels(d: Seq<DataDef>) -> Map<Seq<char>, usize>
    decreases d.len(),
{
    if d.len() == 0 {
        Map::empty()
    } else {
        let front = d.subrange(0, d.len() - 1);
        match d[d.len() - 1] {
            DataDef::Label(name) => data_labels(front).insert(name@, data_bytes(front).len() as usize),
            DataDef::Bytes(_) => data_labels(front),
        }
    }
}

/// Flatten data block so all of the data is in a byte vec.
/// Labels are mapped to the index of the data they point to.
pub fn convert_data_segment(data: DataBlock) -> (r: DataSegment)
    ensures
        r.bytes@ == data_bytes(data@),
        r.labels.wf(),
        r.labels@ == data_labels(data@),
{
    let ghost whole = data@;
    let mut map = NameTable::new();
    let mut data_vec: Vec<u8> = Vec::new();
    for data_def in iter: data
        invariant
            iter.seq() == whole,
            data_vec@ == data_bytes(whole.subrange(0, iter.index() as int)),
            map.wf(),
            map@ == data_labels(whole.subrange(0, iter.index() as int)),
    {
        let ghost k = iter.index() as int;
        proof {
            let upto = whole.subrange(0, k + 1);
            assert(upto.subrange(0, upto.len() - 1) =~= whole.subrange(0, k));
            assert(upto[upto.len() - 1] == data_def);
        }
        match data_def {
            DataDef::Label(name) => {
                // data_vec.len() will point to the next data byte when it is appended
                map.insert(name, data_vec.len());
            },
            DataDef::Bytes(mut bytes) => {
                data_vec.append(&mut bytes);
            },
        }
    }
    proof {
        assert(whole.subrange(0, whole.len() as int) =~= whole);
    }
    DataSegment { bytes: data_vec, labels: map }
}

/// How many internal labels lowering the block takes.
pub open spec fn block_labels(b: Seq<LineData>) -> nat
    decreases b,
{
    if b.len() == 0 {
        0
    } else {
        block_labels(b.subrange(0, b.len() - 1)) + line_labels(b[b.len() - 1].line)
    }
}

/// How many internal labels lowering the statement takes.
pub open spec fn line_labels(l: Line) -> nat
    decreases l,
{
    match l {
        Line::If(_, t, None) => 1 + block_labels(t@),
        Line::If(_, t, Some(e)) => 2 + block_labels(t@) + block_labels(e@),
        Line::For(_, _, _, b) => 2 + block_labels(b@),
        Line::While(_, b) => 2 + block_labels(b@),
        Line::FunDeclaration(_, _, b, _) => block_labels(b@),
        _ => 0,
    }
}

/// A name that starts with `$`, as internal labels do.
pub open spec fn is_internal(n: Seq<char>) -> bool {
    n.len() > 0 && n[0] == '$'
}

/// The name an instruction defines as a label, if it is a label.
pub open spec fn label_of(l: IrLine) -> Option<Seq<char>> {
    match l {
        IrLine::Label(n) => Some(n),
        _ => None,
    }
}

/// Each internal label the instructions define has its number in `nums`.
pub open spec fn internal_in(s: Seq<IrLine>, nums: Set<u64>) -> bool {
    forall|k: int|
        0 <= k < s.len() && #[trigger] label_of(s[k]) is Some && is_internal(label_of(s[k])->Some_0)
            ==> exists|m: u64| nums.contains(m) && label_of(s[k])->Some_0 == #[trigger] internal_label(m)
}

/// The numbers `lo..hi`.
pub open spec fn num_range(lo: int, hi: int) -> Set<u64> {
    Set::new(|m: u64| lo <= m < hi)
}

/// No internal label is defined twice.
pub open spec fn internal_distinct(s: Seq<IrLine>) -> bool {
    forall|a: int, b: int|
        0 <= a < b < s.len() && #[trigger] label_of(s[a]) is Some && #[trigger] label_of(s[b]) is Some
            && is_internal(label_of(s[a])->Some_0) ==> label_of(s[a]) != label_of(s[b])
}

/// No label or function name the user wrote starts with `$`.
pub open spec fn plain_block(b: Seq<LineData>) -> bool
    decreases b,
{
    if b.len() == 0 {
        true
    } else {
        plain_block(b.subrange(0, b.len() - 1)) && plain_line(b[b.len() - 1].line)
    }
}

/// No label the user wrote in the statement starts with `$`.
pub open spec fn plain_line(l: Line) -> bool
    decreases l,
{
    match l {
        Line::Label(n) => !is_internal(n@),
        Line::If(_, t, None) => plain_block(t@),
        Line::If(_, t, Some(e)) => plain_block(t@) && plain_block(e@),
        Line::For(_, _, _, b) => plain_block(b@),
        Line::While(_, b) => plain_block(b@),
        Line::FunDeclaration(_, _, b, _) => plain_block(b@),
        _ => true,
    }
}

/// Internal labels with different numbers have different names.
proof fn lemma_internal_label_injective(a: u64, b: u64)
    requires
        internal_label(a) == internal_label(b),
    ensures
        a == b,
{
    assert(internal_label(a).subrange(10, internal_label(a).len() as int) =~= decimal(a as nat));
    assert(internal_label(b).subrange(10, internal_label(b).len() as int) =~= decimal(b as nat));
    lemma_decimal_injective(a as nat, b as nat);
}

/// Joining two instruction lists whose internal labels have numbers in
/// disjoint sets keeps the labels distinct.
proof fn lemma_internal_concat(x: Seq<IrLine>, y: Seq<IrLine>, nx: Set<u64>, ny: Set<u64>)
    requires
        internal_in(x, nx),
        internal_in(y, ny),
        nx.disjoint(ny),
        internal_distinct(x),
        internal_distinct(y),
    ensures
        internal_in(x + y, nx.union(ny)),
        internal_distinct(x + y),
{
    let s = x + y;
    assert forall|k: int|
        0 <= k < s.len() && #[trigger] label_of(s[k]) is Some && is_internal(
            label_of(s[k])->Some_0,
        ) implies exists|m: u64| nx.union(ny).contains(m) && label_of(s[k])->Some_0 == #[trigger] internal_label(m) by {
        if k < x.len() {
            assert(s[k] == x[k]);
        } else {
            assert(s[k] == y[k - x.len()]);
        }
    }
    assert forall|a: int, b: int|
        0 <= a < b < s.len() && #[trigger] label_of(s[a]) is Some && #[trigger] label_of(s[b]) is Some
            && is_internal(label_of(s[a])->Some_0) implies label_of(s[a]) != label_of(s[b]) by {
        if a < x.len() && b >= x.len() {
            assert(s[a] == x[a]);
            assert(s[b] == y[b - x.len()]);
            if label_of(s[a]) == label_of(s[b]) {
                let ma = choose|m: u64| nx.contains(m) && label_of(x[a])->Some_0 == #[trigger] internal_label(m);
                let mb = choose|m: u64| ny.contains(m) && label_of(y[b - x.len()])->Some_0 == #[trigger] internal_label(m);
                lemma_internal_label_injective(ma, mb);
            }
        } else if b < x.len() {
            assert(s[a] == x[a]);
            assert(s[b] == x[b]);
        } else {
            assert(s[a] == y[a - x.len()]);
            assert(s[b] == y[b - x.len()]);
        }
    }
}

/// A wider set of numbers still holds every internal label's number.
proof fn lemma_internal_widen(s: Seq<IrLine>, a: Set<u64>, b: Set<u64>)
    requires
        internal_in(s, a),
        a.subset_of(b),
    ensures
        internal_in(s, b),
{
}

/// One instruction that defines no internal label.
proof fn lemma_internal_other(l: IrLine)
    requires
        label_of(l) matches Some(n) ==> !is_internal(n),
    ensures
        internal_in(seq![l], Set::empty()),
        internal_distinct(seq![l]),
{
    assert(seq![l][0] == l);
}

/// The label with internal number `c`.
proof fn lemma_internal_one(c: u64)
    ensures
        internal_in(seq![IrLine::Label(internal_label(c))], set![c]),
        internal_distinct(seq![IrLine::Label(internal_label(c))]),
{
    let s = seq![IrLine::Label(internal_label(c))];
    assert(s[0] == IrLine::Label(internal_label(c)));
    assert(internal_label(c)[0] == '$');
}

/// Lowering a block takes `block_labels` internal labels, numbered from the
/// counter on, each defined once.
proof fn lemma_block_internal(b: Seq<LineData>, c: u64)
    requires
        plain_block(b),
        c + block_labels(b) <= u64::MAX,
    ensures
        lower_block(b, c).1 == c + block_labels(b),
        internal_in(lower_block(b, c).0, num_range(c as int, c + block_labels(b))),
        internal_distinct(lower_block(b, c).0),
    decreases b,
{
    if b.len() == 0 {
        assert(lower_block(b, c).0 =~= Seq::<IrLine>::empty());
    } else {
        let front = b.subrange(0, b.len() - 1);
        let last = b[b.len() - 1].line;
        assert(decreases_to!(b => b[b.len() - 1]));
        lemma_block_internal(front, c);
        let c1 = lower_block(front, c).1;
        lemma_line_internal(last, c1);
        let n1 = num_range(c as int, c1 as int);
        let n2 = num_range(c1 as int, c + block_labels(b));
        lemma_internal_concat(lower_block(front, c).0, lower_line(last, c1).0, n1, n2);
        assert(n1.union(n2) =~= num_range(c as int, c + block_labels(b)));
    }
}

/// Lowering a statement takes `line_labels` internal labels, numbered from the
/// counter on, each defined once.
proof fn lemma_line_internal(l: Line, c: u64)
    requires
        plain_line(l),
        c + line_labels(l) <= u64::MAX,
    ensures
        lower_line(l, c).1 == c + line_labels(l),
        internal_in(lower_line(l, c).0, num_range(c as int, c + line_labels(l))),
        internal_distinct(lower_line(l, c).0),
    decreases l,
{
    let out = lower_line(l, c).0;
    let all = num_range(c as int, c + line_labels(l));
    match l {
        Line::Assign(_, _) | Line::Goto(_) | Line::Label(_) | Line::Expr(_) => {
            lemma_internal_other(out[0]);
            assert(out =~= seq![out[0]]);
            lemma_internal_widen(out, Set::empty(), all);
        },
        Line::While(cond, body) => {
            let s0 = internal_label(c);
            let s1 = internal_label((c + 1) as u64);
            lemma_block_internal(body@, (c + 2) as u64);
            let bb = lower_block(body@, (c + 2) as u64).0;
            let nb = num_range(c + 2, c + line_labels(l));
            lemma_internal_one(c);
            lemma_internal_other(IrLine::JumpFalse(cond, s1));
            lemma_internal_concat(
                seq![IrLine::Label(s0)],
                seq![IrLine::JumpFalse(cond, s1)],
                set![c],
                Set::empty(),
            );
            let head = seq![IrLine::Label(s0)] + seq![IrLine::JumpFalse(cond, s1)];
            let nh = set![c].union(Set::empty());
            lemma_internal_concat(head, bb, nh, nb);
            lemma_internal_other(IrLine::Goto(s0));
            lemma_internal_concat(head + bb, seq![IrLine::Goto(s0)], nh.union(nb), Set::empty());
            lemma_internal_one((c + 1) as u64);
            let n3 = nh.union(nb).union(Set::empty());
            lemma_internal_concat(
                head + bb + seq![IrLine::Goto(s0)],
                seq![IrLine::Label(s1)],
                n3,
                set![(c + 1) as u64],
            );
            assert(out =~= head + bb + seq![IrLine::Goto(s0)] + seq![IrLine::Label(s1)]);
            lemma_internal_widen(out, n3.union(set![(c + 1) as u64]), all);
        },
        Line::FunDeclaration(name, args, body, _) => {
            lemma_block_internal(body@, c);
            let bb = lower_block(body@, c).0;
            lemma_internal_other(IrLine::FunDeclaration(name@, args));
            lemma_internal_concat(seq![IrLine::FunDeclaration(name@, args)], bb, Set::empty(), all);
            lemma_internal_other(IrLine::FunReturn);
            let n1 = Set::<u64>::empty().union(all);
            lemma_internal_concat(
                seq![IrLine::FunDeclaration(name@, args)] + bb,
                seq![IrLine::FunReturn],
                n1,
                Set::empty(),
            );
            lemma_internal_widen(out, n1.union(Set::empty()), all);
        },
        Line::For(v, start, end, body) => {
            let s0 = internal_label(c);
            let s1 = internal_label((c + 1) as u64);
            lemma_block_internal(body@, (c + 2) as u64);
            let bb = lower_block(body@, (c + 2) as u64).0;
            let nb = num_range(c + 2, c + line_labels(l));
            let init = IrLine::Assign(AssignTarget::Var(v), start);
            let test = IrLine::JumpFalse(Expr::Lt(Box::new(Expr::Var(v)), Box::new(end)), s1);
            let step = IrLine::Assign(
                AssignTarget::Var(v),
                Expr::Add(Box::new(Expr::Var(v)), Box::new(Expr::Literal(1))),
            );
            lemma_internal_other(init);
            lemma_internal_one(c);
            lemma_internal_other(test);
            lemma_internal_other(step);
            lemma_internal_other(IrLine::Goto(s0));
            lemma_internal_one((c + 1) as u64);
            let e = Set::<u64>::empty();
            lemma_internal_concat(seq![init], seq![IrLine::Label(s0)], e, set![c]);
            let a1 = seq![init] + seq![IrLine::Label(s0)];
            let m1 = e.union(set![c]);
            lemma_internal_concat(a1, seq![test], m1, e);
            let a2 = a1 + seq![test];
            let m2 = m1.union(e);
            lemma_internal_concat(a2, bb, m2, nb);
            let a3 = a2 + bb;
            let m3 = m2.union(nb);
            lemma_internal_concat(a3, seq![step], m3, e);
            let a4 = a3 + seq![step];
            let m4 = m3.union(e);
            lemma_internal_concat(a4, seq![IrLine::Goto(s0)], m4, e);
            let a5 = a4 + seq![IrLine::Goto(s0)];
            let m5 = m4.union(e);
            lemma_internal_concat(a5, seq![IrLine::Label(s1)], m5, set![(c + 1) as u64]);
            assert(out =~= a5 + seq![IrLine::Label(s1)]);
            lemma_internal_widen(out, m5.union(set![(c + 1) as u64]), all);
        },
        Line::If(test, then_block, None) => {
            let le = internal_label(c);
            lemma_block_internal(then_block@, (c + 1) as u64);
            let tb = lower_block(then_block@, (c + 1) as u64).0;
            let nt = num_range(c + 1, c + line_labels(l));
            let e = Set::<u64>::empty();
            lemma_internal_other(IrLine::JumpFalse(test, le));
            lemma_internal_one(c);
            lemma_internal_concat(seq![IrLine::JumpFalse(test, le)], tb, e, nt);
            let a1 = seq![IrLine::JumpFalse(test, le)] + tb;
            let m1 = e.union(nt);
            lemma_internal_concat(a1, seq![IrLine::Label(le)], m1, set![c]);
            lemma_internal_widen(out, m1.union(set![c]), all);
        },
        Line::If(test, then_block, Some(else_block)) => {
            let le = internal_label(c);
            lemma_block_internal(then_block@, (c + 1) as u64);
            let tb = lower_block(then_block@, (c + 1) as u64).0;
            let c1 = lower_block(then_block@, (c + 1) as u64).1;
            let lx = internal_label(c1);
            assert(decreases_to!(l => else_block));
            lemma_block_internal(else_block@, (c1 + 1) as u64);
            let eb = lower_block(else_block@, (c1 + 1) as u64).0;
            let nt = num_range(c + 1, c1 as int);
            let ne = num_range(c1 + 1, c + line_labels(l));
            let e = Set::<u64>::empty();
            lemma_internal_other(IrLine::JumpFalse(test, le));
            lemma_internal_other(IrLine::Goto(lx));
            lemma_internal_one(c);
            lemma_internal_one(c1);
            lemma_internal_concat(seq![IrLine::JumpFalse(test, le)], tb, e, nt);
            let a1 = seq![IrLine::JumpFalse(test, le)] + tb;
            let m1 = e.union(nt);
            lemma_internal_concat(a1, seq![IrLine::Goto(lx)], m1, e);
            let a2 = a1 + seq![IrLine::Goto(lx)];
            let m2 = m1.union(e);
            lemma_internal_concat(a2, seq![IrLine::Label(le)], m2, set![c]);
            let a3 = a2 + seq![IrLine::Label(le)];
            let m3 = m2.union(set![c]);
            lemma_internal_concat(a3, eb, m3, ne);
            let a4 = a3 + eb;
            let m4 = m3.union(ne);
            lemma_internal_concat(a4, seq![IrLine::Label(lx)], m4, set![c1]);
            assert(out =~= a4 + seq![IrLine::Label(lx)]);
            lemma_internal_widen(out, m4.union(set![c1]), all);
        },
    }
}

/// Lowering never defines an internal label twice: each one has its own
/// number, taken from the counter in order, as long as the counter does not
/// wrap around and no label the user wrote starts with `$`.
pub proof fn lemma_internal_labels_unique(ast: Seq<LineData>)
    requires
        plain_block(ast),
        block_labels(ast) <= u64::MAX,
    ensures
        internal_distinct(lower_block(ast, 0).0),
        internal_in(lower_block(ast, 0).0, num_range(0, block_labels(ast) as int)),
{
    lemma_block_internal(ast, 0);
}

} // verus!
