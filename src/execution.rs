//! Runs of several steps: straight-line code leaves in each variable the value
//! of its right-hand side, evaluated in program order, and lowered control
//! flow keeps the structure of the statements it came from; a value stored
//! through an address reads back, and `print` writes the value it is given.
use vstd::prelude::*;

use crate::ast::{AssignTarget, Block, Expr, Line, LineData};
use crate::error::Error;
use crate::intermediate_repr::{internal_label, lower_block, lower_line, next_count, IrLine};
use crate::interpreter::{
    label_map, labels_distinct, lemma_label_map, line_label, redefined_at, Program,
};
use crate::memory::{
    lemma_byte_round_trip, lemma_word_round_trip, low_byte, read_word, word_in_bounds, write_word,
};
use crate::state::{
    arg_tasks, at_instruction, bind_params, binary_parts, binop_value, return_var, step_post,
    var_slot, Event, State, TaskView,
};
use crate::intrinsics::{intrinsic_named, Effect};
use crate::text::decimal;

verus! {

/// Some `n` steps, each reporting `Continue`, lead from `s` to `s2`.
pub open spec fn reaches(p: Program, s: State, s2: State, n: nat) -> bool
    decreases n,
{
    if n == 0 {
        s2 == s
    } else {
        exists|s1: State|
            #[trigger] step_post(p, s, s1, Ok::<Event, Error>(Event::Continue)) && reaches(
                p,
                s1,
                s2,
                (n - 1) as nat,
            )
    }
}

/// Some number of steps, each reporting `Continue`, lead from `s` to `s2`.
pub open spec fn reachable(p: Program, s: State, s2: State) -> bool {
    exists|n: nat| reaches(p, s, s2, n)
}

/// The expression calls no function.
pub open spec fn call_free(e: Expr) -> bool
    decreases e,
{
    match e {
        Expr::FunCall(_, _) => false,
        Expr::Deref(i) => call_free(*i),
        Expr::DerefByte(i) => call_free(*i),
        Expr::Invert(i) => call_free(*i),
        Expr::Literal(_) | Expr::Var(_) | Expr::VarAddress(_) => true,
        Expr::Add(l, r) | Expr::Sub(l, r) | Expr::Mul(l, r) | Expr::Div(l, r) | Expr::Mod(l, r)
        | Expr::Lt(l, r) | Expr::Gt(l, r) | Expr::Leq(l, r) | Expr::Geq(l, r) | Expr::Eq(l, r)
        | Expr::Neq(l, r) | Expr::BitAnd(l, r) | Expr::BitOr(l, r) | Expr::BitXor(l, r)
        | Expr::Shl(l, r) | Expr::Shr(l, r) => call_free(*l) && call_free(*r),
    }
}

/// The value of a call-free expression, with memory and variables after it
/// (first uses of variables get slots); `None` where evaluation fails.
/// Operands are evaluated left to right.
pub open spec fn eval_pure(mem: Seq<u8>, vars: Map<Seq<char>, usize>, e: Expr) -> Option<
    (u32, Seq<u8>, Map<Seq<char>, usize>),
>
    decreases e,
{
    match e {
        Expr::Literal(n) => Some((n, mem, vars)),
        Expr::Var(x) => {
            let slot = var_slot(mem, vars, x@);
            if word_in_bounds(slot.0.len(), slot.2 as int) {
                Some((read_word(slot.0, slot.2 as int), slot.0, slot.1))
            } else {
                None
            }
        },
        Expr::VarAddress(x) => {
            let slot = var_slot(mem, vars, x@);
            Some((slot.2 as u32, slot.0, slot.1))
        },
        Expr::Deref(i) => match eval_pure(mem, vars, *i) {
            Some((a, m, v)) => if word_in_bounds(m.len(), a as int) {
                Some((read_word(m, a as int), m, v))
            } else {
                None
            },
            None => None,
        },
        Expr::DerefByte(i) => match eval_pure(mem, vars, *i) {
            Some((a, m, v)) => if (a as int) < m.len() {
                Some((m[a as int] as u32, m, v))
            } else {
                None
            },
            None => None,
        },
        Expr::Invert(i) => match eval_pure(mem, vars, *i) {
            Some((a, m, v)) => Some((!a, m, v)),
            None => None,
        },
        Expr::FunCall(_, _) => None,
        Expr::Add(l, r) | Expr::Sub(l, r) | Expr::Mul(l, r) | Expr::Div(l, r) | Expr::Mod(l, r)
        | Expr::Lt(l, r) | Expr::Gt(l, r) | Expr::Leq(l, r) | Expr::Geq(l, r) | Expr::Eq(l, r)
        | Expr::Neq(l, r) | Expr::BitAnd(l, r) | Expr::BitOr(l, r) | Expr::BitXor(l, r)
        | Expr::Shl(l, r) | Expr::Shr(l, r) => match eval_pure(mem, vars, *l) {
            Some((lv, m1, v1)) => match eval_pure(m1, v1, *r) {
                Some((rv, m2, v2)) => match binop_value(binary_parts(e)->Some_0.0, lv, rv) {
                    Some(x) => Some((x, m2, v2)),
                    None => None,
                },
                None => None,
            },
            None => None,
        },
    }
}

/// Reaching is transitive.
pub proof fn lemma_reaches_trans(p: Program, a: State, b: State, c: State, n1: nat, n2: nat)
    requires
        reaches(p, a, b, n1),
        reaches(p, b, c, n2),
    ensures
        reaches(p, a, c, n1 + n2),
    decreases n1,
{
    if n1 > 0 {
        let s1 = choose|s1: State|
            #[trigger] step_post(p, a, s1, Ok::<Event, Error>(Event::Continue)) && reaches(
                p,
                s1,
                b,
                (n1 - 1) as nat,
            );
        lemma_reaches_trans(p, s1, b, c, (n1 - 1) as nat, n2);
        assert(reaches(p, s1, c, (n1 + n2 - 1) as nat));
    }
}

/// One step that reports `Continue` reaches its successor.
pub proof fn lemma_reaches_one(p: Program, s: State, s1: State)
    requires
        step_post(p, s, s1, Ok::<Event, Error>(Event::Continue)),
    ensures
        reaches(p, s, s1, 1),
{
    assert(reaches(p, s1, s1, 0));
}

/// The state after a call-free expression on top of the tasks was evaluated
/// to `v`, with memory `m` and variables `vs`.
pub open spec fn evaluated(s: State, v: u32, m: Seq<u8>, vs: Map<Seq<char>, usize>) -> State {
    State { memory: m, vars: vs, tasks: s.tasks.drop_last(), values: s.values.push(v), ..s }
}

/// Working through `Eval(e)` on top of the tasks, for a call-free `e` whose
/// evaluation succeeds, leaves its value on the value stack after some steps.
pub proof fn lemma_eval_reaches(p: Program, s: State, e: Expr)
    requires
        call_free(e),
        s.tasks.len() > 0,
        s.tasks.last() == TaskView::Eval(e),
        eval_pure(s.memory, s.vars, e) is Some,
    ensures
        ({
            let (v, m, vs) = eval_pure(s.memory, s.vars, e)->Some_0;
            reachable(p, s, evaluated(s, v, m, vs))
        }),
    decreases e,
{
    let (v, m, vs) = eval_pure(s.memory, s.vars, e)->Some_0;
    let rest = s.tasks.drop_last();
    assert(!at_instruction(s));
    match e {
        Expr::Literal(_) | Expr::Var(_) | Expr::VarAddress(_) => {
            lemma_reaches_one(p, s, evaluated(s, v, m, vs));
        },
        Expr::Deref(i) | Expr::DerefByte(i) | Expr::Invert(i) => {
            let t = match e {
                Expr::Deref(_) => TaskView::LoadWord,
                Expr::DerefByte(_) => TaskView::LoadByte,
                _ => TaskView::Invert,
            };
            let s1 = State { tasks: rest.push(t).push(TaskView::Eval(*i)), ..s };
            lemma_reaches_one(p, s, s1);
            assert(s1.tasks.last() == TaskView::Eval(*i));
            lemma_eval_reaches(p, s1, *i);
            let (a, m1, v1) = eval_pure(s.memory, s.vars, *i)->Some_0;
            let s2 = evaluated(s1, a, m1, v1);
            let n1 = choose|n: nat| reaches(p, s1, s2, n);
            assert(s1.tasks.drop_last() =~= rest.push(t));
            assert(s2.tasks.last() == t);
            assert(s2.tasks.drop_last() =~= rest);
            assert(s2.values.drop_last() =~= s.values);
            assert(step_post(p, s2, evaluated(s, v, m, vs), Ok::<Event, Error>(Event::Continue)));
            lemma_reaches_one(p, s2, evaluated(s, v, m, vs));
            lemma_reaches_trans(p, s, s1, s2, 1, n1);
            lemma_reaches_trans(p, s, s2, evaluated(s, v, m, vs), 1 + n1, 1);
        },
        Expr::FunCall(_, _) => {},
        Expr::Add(l, r) | Expr::Sub(l, r) | Expr::Mul(l, r) | Expr::Div(l, r) | Expr::Mod(l, r)
        | Expr::Lt(l, r) | Expr::Gt(l, r) | Expr::Leq(l, r) | Expr::Geq(l, r) | Expr::Eq(l, r)
        | Expr::Neq(l, r) | Expr::BitAnd(l, r) | Expr::BitOr(l, r) | Expr::BitXor(l, r)
        | Expr::Shl(l, r) | Expr::Shr(l, r) => {
            let op = binary_parts(e)->Some_0.0;
            assert(binary_parts(e) == Some((op, *l, *r)));
            let s1 = State {
                tasks: rest.push(TaskView::Binary(op)).push(TaskView::Eval(*r)).push(
                    TaskView::Eval(*l),
                ),
                ..s
            };
            lemma_reaches_one(p, s, s1);
            lemma_eval_reaches(p, s1, *l);
            let (lv, m1, v1) = eval_pure(s.memory, s.vars, *l)->Some_0;
            let s2 = evaluated(s1, lv, m1, v1);
            let n1 = choose|n: nat| reaches(p, s1, s2, n);
            assert(s1.tasks.drop_last() =~= rest.push(TaskView::Binary(op)).push(
                TaskView::Eval(*r),
            ));
            assert(s2.tasks.last() == TaskView::Eval(*r));
            lemma_eval_reaches(p, s2, *r);
            let (rv, m2, v2) = eval_pure(m1, v1, *r)->Some_0;
            let s3 = evaluated(s2, rv, m2, v2);
            let n2 = choose|n: nat| reaches(p, s2, s3, n);
            assert(s2.tasks.drop_last() =~= rest.push(TaskView::Binary(op)));
            assert(s3.tasks.last() == TaskView::Binary(op));
            assert(s3.tasks.drop_last() =~= rest);
            assert(s3.values.drop_last() =~= s.values.push(lv));
            assert(s3.values.drop_last().drop_last() =~= s.values);
            assert(s3.values[s3.values.len() - 2] == lv);
            assert(step_post(p, s3, evaluated(s, v, m, vs), Ok::<Event, Error>(Event::Continue)));
            lemma_reaches_one(p, s3, evaluated(s, v, m, vs));
            lemma_reaches_trans(p, s, s1, s2, 1, n1);
            lemma_reaches_trans(p, s, s2, s3, 1 + n1, n2);
            lemma_reaches_trans(p, s, s3, evaluated(s, v, m, vs), 1 + n1 + n2, 1);
        },
    }
}

/// Every instruction assigns a call-free expression to a variable.
pub open spec fn straight_line(ir: Seq<IrLine>) -> bool {
    forall|i: int|
        0 <= i < ir.len() ==> (#[trigger] ir[i] matches IrLine::Assign(AssignTarget::Var(_), e)
            && call_free(e))
}

/// Memory and variables after the assignments, in order: each evaluates its
/// right-hand side, then stores the value in the variable's slot; `None`
/// where one fails.
pub open spec fn run_assignments(mem: Seq<u8>, vars: Map<Seq<char>, usize>, ir: Seq<IrLine>) -> Option<
    (Seq<u8>, Map<Seq<char>, usize>),
>
    decreases ir.len(),
{
    if ir.len() == 0 {
        Some((mem, vars))
    } else {
        match run_assignments(mem, vars, ir.drop_last()) {
            None => None,
            Some((m, v)) => match ir.last() {
                IrLine::Assign(AssignTarget::Var(x), e) => match eval_pure(m, v, e) {
                    Some((value, m1, v1)) => {
                        let slot = var_slot(m1, v1, x@);
                        if word_in_bounds(slot.0.len(), slot.2 as int) {
                            Some((write_word(slot.0, slot.2 as int, value), slot.1))
                        } else {
                            None
                        }
                    },
                    None => None,
                },
                _ => None,
            },
        }
    }
}

proof fn lemma_run_prefix(mem: Seq<u8>, vars: Map<Seq<char>, usize>, ir: Seq<IrLine>, k: int)
    requires
        0 <= k <= ir.len(),
        run_assignments(mem, vars, ir) is Some,
    ensures
        run_assignments(mem, vars, ir.subrange(0, k)) is Some,
    decreases ir.len() - k,
{
    if k < ir.len() {
        let next = ir.subrange(0, k + 1);
        assert(next.drop_last() =~= ir.subrange(0, k));
        lemma_run_prefix(mem, vars, ir, k + 1);
    } else {
        assert(ir.subrange(0, k) =~= ir);
    }
}

/// The state after the first `k` assignments of a straight-line program.
pub open spec fn after_assignments(p: Program, s: State, k: int) -> State {
    let (m, v) = run_assignments(s.memory, s.vars, p.ir().subrange(0, k))->Some_0;
    State { memory: m, vars: v, ip: k as usize, ..s }
}

proof fn lemma_straight_prefix(p: Program, s: State, k: int)
    requires
        straight_line(p.ir()),
        p.ir().len() <= usize::MAX,
        0 <= k <= p.ir().len(),
        s.ip == 0,
        s.tasks.len() == 0,
        run_assignments(s.memory, s.vars, p.ir()) is Some,
    ensures
        reachable(p, s, after_assignments(p, s, k)),
    decreases k,
{
    let ir = p.ir();
    lemma_run_prefix(s.memory, s.vars, ir, k);
    if k == 0 {
        assert(ir.subrange(0, 0) =~= Seq::<IrLine>::empty());
        assert(after_assignments(p, s, 0) == s);
        assert(reaches(p, s, s, 0));
    } else {
        let j = k - 1;
        lemma_straight_prefix(p, s, j);
        lemma_run_prefix(s.memory, s.vars, ir, j);
        let sj = after_assignments(p, s, j);
        let n1 = choose|n: nat| reaches(p, s, sj, n);
        let prefix = ir.subrange(0, k);
        assert(prefix.drop_last() =~= ir.subrange(0, j));
        assert(prefix.last() == ir[j]);
        let (x, e) = match ir[j] {
            IrLine::Assign(AssignTarget::Var(x), e) => (x, e),
            _ => arbitrary(),
        };
        assert(ir[j] == IrLine::Assign(AssignTarget::Var(x), e));
        assert(at_instruction(sj));
        let s1 = State {
            tasks: sj.tasks.push(TaskView::StoreVar(x@)).push(TaskView::Eval(e)),
            ..sj
        };
        assert(step_post(p, sj, s1, Ok::<Event, Error>(Event::Continue)));
        lemma_reaches_one(p, sj, s1);
        lemma_eval_reaches(p, s1, e);
        let (value, m1, v1) = eval_pure(sj.memory, sj.vars, e)->Some_0;
        let s2 = evaluated(s1, value, m1, v1);
        let n2 = choose|n: nat| reaches(p, s1, s2, n);
        assert(s1.tasks.drop_last() =~= seq![TaskView::StoreVar(x@)]);
        assert(s2.tasks.last() == TaskView::StoreVar(x@));
        assert(s2.tasks.drop_last() =~= Seq::<TaskView>::empty());
        assert(s2.values.drop_last() =~= s.values);
        assert(!at_instruction(s2));
        let s3 = after_assignments(p, s, k);
        assert(s3.tasks =~= s2.tasks.drop_last());
        assert(step_post(p, s2, s3, Ok::<Event, Error>(Event::Continue)));
        lemma_reaches_one(p, s2, s3);
        lemma_reaches_trans(p, s, sj, s1, n1, 1);
        lemma_reaches_trans(p, s, s1, s2, n1 + 1, n2);
        lemma_reaches_trans(p, s, s2, s3, n1 + 1 + n2, 1);
    }
}

/// Straight-line programs: running a program of assignments of call-free
/// expressions to variables from its first instruction reaches, after some
/// steps, the end of the program with memory and variables as the
/// assignments give them in program order; the next step reports `Finished`.
pub proof fn lemma_straight_line_program(p: Program, s: State)
    requires
        straight_line(p.ir()),
        p.ir().len() <= usize::MAX,
        s.ip == 0,
        s.tasks.len() == 0,
        run_assignments(s.memory, s.vars, p.ir()) is Some,
    ensures
        ({
            let (m, v) = run_assignments(s.memory, s.vars, p.ir())->Some_0;
            let end = State { memory: m, vars: v, ip: p.ir().len() as usize, ..s };
            &&& reachable(p, s, end)
            &&& forall|s2: State, r: Result<Event, Error>|
                step_post(p, end, s2, r) ==> r == Ok::<Event, Error>(Event::Finished) && s2 == end
        }),
{
    let len = p.ir().len() as int;
    lemma_straight_prefix(p, s, len);
    assert(p.ir().subrange(0, len) =~= p.ir());
}

/// In a loaded program, a label's entry in the label table is the index of
/// the instruction that defines it.
pub proof fn lemma_label_at(p: Program, k: int, l: Seq<char>)
    requires
        p.wf(),
        p.ir().len() <= usize::MAX,
        0 <= k < p.ir().len(),
        p.ir()[k] == IrLine::Label(l),
    ensures
        p.labels().contains_key(l),
        p.labels()[l] == k,
{
    let ir = p.ir();
    p.lemma_wf();
    lemma_label_map(ir);
    assert(line_label(ir[k]) == Some(l));
    assert(exists|a: int| 0 <= a < ir.len() && line_label(ir[a]) == Some(l));
    assert(label_map(ir).contains_key(l));
    let m = p.labels()[l] as int;
    assert(line_label(ir[m]) == Some(l));
    if m != k {
        if m < k {
            assert(0 <= m < k && line_label(ir[m]) == line_label(ir[k]));
            assert(redefined_at(ir, k));
        } else {
            assert(0 <= k < m && line_label(ir[k]) == line_label(ir[m]));
            assert(redefined_at(ir, m));
        }
        assert(labels_distinct(ir));
    }
}

/// The state `s` moved to instruction `ip`, with memory `m` and variables `vs`.
pub open spec fn moved(s: State, ip: int, m: Seq<u8>, vs: Map<Seq<char>, usize>) -> State {
    State { memory: m, vars: vs, ip: ip as usize, ..s }
}

/// The state `s` moved to the next instruction, with memory `m` and variables `vs`.
pub open spec fn moved_on(s: State, m: Seq<u8>, vs: Map<Seq<char>, usize>) -> State {
    moved(s, s.ip + 1, m, vs)
}

/// A conditional jump on a call-free condition: to the label when it is
/// zero, on to the next instruction otherwise.
pub proof fn lemma_jump_false(p: Program, s: State, c: Expr, l: Seq<char>)
    requires
        at_instruction(s),
        s.ip < p.ir().len(),
        p.ir()[s.ip as int] == IrLine::JumpFalse(c, l),
        p.labels().contains_key(l),
        call_free(c),
        eval_pure(s.memory, s.vars, c) is Some,
    ensures
        ({
            let (v, m, vs) = eval_pure(s.memory, s.vars, c)->Some_0;
            &&& v == 0 ==> reachable(p, s, moved(s, p.labels()[l] as int, m, vs))
            &&& v != 0 ==> reachable(p, s, moved_on(s, m, vs))
        }),
{
    let (v, m, vs) = eval_pure(s.memory, s.vars, c)->Some_0;
    let s1 = State { tasks: s.tasks.push(TaskView::JumpIfFalse(l)).push(TaskView::Eval(c)), ..s };
    lemma_reaches_one(p, s, s1);
    lemma_eval_reaches(p, s1, c);
    let s2 = evaluated(s1, v, m, vs);
    let n1 = choose|n: nat| reaches(p, s1, s2, n);
    assert(s1.tasks.drop_last() =~= s.tasks.push(TaskView::JumpIfFalse(l)));
    assert(s2.tasks.last() == TaskView::JumpIfFalse(l));
    assert(s2.tasks.drop_last() =~= s.tasks);
    assert(s2.values.drop_last() =~= s.values);
    assert(!at_instruction(s2));
    let target = if v == 0 {
        p.labels()[l] as int
    } else {
        s.ip + 1
    };
    let s3 = moved(s, target, m, vs);
    assert(step_post(p, s2, s3, Ok::<Event, Error>(Event::Continue)));
    lemma_reaches_one(p, s2, s3);
    lemma_reaches_trans(p, s, s1, s2, 1, n1);
    lemma_reaches_trans(p, s, s2, s3, 1 + n1, 1);
    assert(reaches(p, s, s3, 1 + n1 + 1));
    if v != 0 {
        assert(s3 == moved_on(s, m, vs));
    }
}

/// An unconditional jump to a defined label takes one step.
pub proof fn lemma_goto(p: Program, s: State, l: Seq<char>)
    requires
        at_instruction(s),
        s.ip < p.ir().len(),
        p.ir()[s.ip as int] == IrLine::Goto(l),
        p.labels().contains_key(l),
    ensures
        reaches(p, s, moved(s, p.labels()[l] as int, s.memory, s.vars), 1),
{
    lemma_reaches_one(p, s, moved(s, p.labels()[l] as int, s.memory, s.vars));
}

/// A label takes one step to the next instruction.
pub proof fn lemma_label_step(p: Program, s: State, l: Seq<char>)
    requires
        at_instruction(s),
        s.ip < p.ir().len(),
        p.ir()[s.ip as int] == IrLine::Label(l),
    ensures
        reaches(p, s, moved(s, s.ip + 1, s.memory, s.vars), 1),
{
    lemma_reaches_one(p, s, moved(s, s.ip + 1, s.memory, s.vars));
}

/// A lowered `while` loop keeps the loop's structure. At its head, when the
/// condition evaluates to zero execution goes on after the loop, and otherwise
/// at the first instruction of the body; from the end of the body execution
/// goes back to the head. So the body runs once for each time the condition
/// holds at the head, and in order.
pub proof fn lemma_while_structure(
    p: Program,
    i: int,
    cond: Expr,
    body: Block,
    ctr: u64,
    s: State,
)
    requires
        p.wf(),
        p.ir().len() <= usize::MAX,
        0 <= i,
        i + lower_line(Line::While(cond, body), ctr).0.len() <= p.ir().len(),
        p.ir().subrange(i, i + lower_line(Line::While(cond, body), ctr).0.len()) == lower_line(
            Line::While(cond, body),
            ctr,
        ).0,
        call_free(cond),
        at_instruction(s),
    ensures
        ({
            let w = lower_line(Line::While(cond, body), ctr).0;
            let body_len = lower_block(body@, next_count(next_count(ctr))).0.len();
            &&& w.len() == body_len + 4
            &&& (s.ip == i && eval_pure(s.memory, s.vars, cond) is Some) ==> ({
                let (v, m, vs) = eval_pure(s.memory, s.vars, cond)->Some_0;
                &&& v == 0 ==> reachable(p, s, moved(s, i + w.len(), m, vs))
                &&& v != 0 ==> reachable(p, s, moved(s, i + 2, m, vs))
            })
            &&& s.ip == i + 2 + body_len ==> reaches(p, s, moved(s, i, s.memory, s.vars), 1)
        }),
{
    let w = lower_line(Line::While(cond, body), ctr).0;
    let ir = p.ir();
    let start_label = internal_label(ctr);
    let exit_label = internal_label(next_count(ctr));
    let b = lower_block(body@, next_count(next_count(ctr))).0;
    assert(w == seq![IrLine::Label(start_label), IrLine::JumpFalse(cond, exit_label)] + b + seq![
        IrLine::Goto(start_label),
        IrLine::Label(exit_label),
    ]);
    let e = i + w.len() - 1;
    assert(ir[i] == w[0]);
    assert(ir[i + 1] == w[1]);
    assert(ir[i + 2 + b.len()] == w[2 + b.len() as int]);
    assert(ir[e] == w[w.len() - 1]);
    lemma_label_at(p, i, start_label);
    lemma_label_at(p, e, exit_label);
    if s.ip == i && eval_pure(s.memory, s.vars, cond) is Some {
        let (v, m, vs) = eval_pure(s.memory, s.vars, cond)->Some_0;
        let s1 = moved(s, i + 1, s.memory, s.vars);
        lemma_label_step(p, s, start_label);
        assert(at_instruction(s1));
        lemma_jump_false(p, s1, cond, exit_label);
        let t1 = if v == 0 {
            e
        } else {
            i + 2
        };
        let s2 = moved(s1, t1, m, vs);
        let n1 = choose|n: nat| reaches(p, s1, s2, n);
        assert(reaches(p, s1, s2, n1));
        lemma_reaches_trans(p, s, s1, s2, 1, n1);
        if v == 0 {
            let s3 = moved(s2, e + 1, m, vs);
            lemma_label_step(p, s2, exit_label);
            assert(s3 == moved(s, i + w.len(), m, vs));
            lemma_reaches_trans(p, s, s2, s3, 1 + n1, 1);
            assert(reaches(p, s, moved(s, i + w.len(), m, vs), 1 + n1 + 1));
        } else {
            assert(s2 == moved(s, i + 2, m, vs));
            assert(reaches(p, s, moved(s, i + 2, m, vs), 1 + n1));
        }
    }
    if s.ip == i + 2 + b.len() {
        lemma_goto(p, s, start_label);
    }
}

/// Memory and variables after storing `value` into variable `x`'s slot;
/// `None` when the slot lies outside memory.
pub open spec fn store_var(mem: Seq<u8>, vars: Map<Seq<char>, usize>, x: Seq<char>, value: u32) -> Option<
    (Seq<u8>, Map<Seq<char>, usize>),
> {
    let slot = var_slot(mem, vars, x);
    if word_in_bounds(slot.0.len(), slot.2 as int) {
        Some((write_word(slot.0, slot.2 as int, value), slot.1))
    } else {
        None
    }
}

/// An assignment of a call-free expression to a variable: after some steps
/// the value is in the variable's slot and the next instruction is due.
pub proof fn lemma_assign_var(p: Program, s: State, x: String, e: Expr)
    requires
        at_instruction(s),
        s.ip < p.ir().len(),
        p.ir()[s.ip as int] == IrLine::Assign(AssignTarget::Var(x), e),
        call_free(e),
        eval_pure(s.memory, s.vars, e) is Some,
        ({
            let (v, m, vs) = eval_pure(s.memory, s.vars, e)->Some_0;
            store_var(m, vs, x@, v) is Some
        }),
    ensures
        ({
            let (v, m, vs) = eval_pure(s.memory, s.vars, e)->Some_0;
            let (m2, vs2) = store_var(m, vs, x@, v)->Some_0;
            reachable(p, s, moved_on(s, m2, vs2))
        }),
{
    let (v, m, vs) = eval_pure(s.memory, s.vars, e)->Some_0;
    let (m2, vs2) = store_var(m, vs, x@, v)->Some_0;
    let s1 = State { tasks: s.tasks.push(TaskView::StoreVar(x@)).push(TaskView::Eval(e)), ..s };
    lemma_reaches_one(p, s, s1);
    lemma_eval_reaches(p, s1, e);
    let s2 = evaluated(s1, v, m, vs);
    let n1 = choose|n: nat| reaches(p, s1, s2, n);
    assert(s1.tasks.drop_last() =~= s.tasks.push(TaskView::StoreVar(x@)));
    assert(s2.tasks.last() == TaskView::StoreVar(x@));
    assert(s2.tasks.drop_last() =~= s.tasks);
    assert(s2.values.drop_last() =~= s.values);
    assert(!at_instruction(s2));
    let s3 = moved_on(s, m2, vs2);
    assert(step_post(p, s2, s3, Ok::<Event, Error>(Event::Continue)));
    lemma_reaches_one(p, s2, s3);
    lemma_reaches_trans(p, s, s1, s2, 1, n1);
    lemma_reaches_trans(p, s, s2, s3, 1 + n1, 1);
    assert(reaches(p, s, s3, 1 + n1 + 1));
}

/// A lowered `if` keeps the statement's structure. When the condition
/// evaluates to non-zero execution goes on at the first instruction of the
/// `then` branch, and otherwise at the first instruction of the `else` branch
/// (or after the statement, without one); at the end of the `then` branch
/// execution jumps past the `else` branch, after the statement.
pub proof fn lemma_if_structure(
    p: Program,
    i: int,
    cond: Expr,
    then_block: Block,
    else_block: Option<Block>,
    ctr: u64,
    s: State,
)
    requires
        p.wf(),
        p.ir().len() <= usize::MAX,
        0 <= i,
        i + lower_line(Line::If(cond, then_block, else_block), ctr).0.len() <= p.ir().len(),
        p.ir().subrange(i, i + lower_line(Line::If(cond, then_block, else_block), ctr).0.len())
            == lower_line(Line::If(cond, then_block, else_block), ctr).0,
        call_free(cond),
        at_instruction(s),
    ensures
        ({
            let w = lower_line(Line::If(cond, then_block, else_block), ctr).0;
            let then_len = lower_block(then_block@, next_count(ctr)).0.len();
            let else_start = if else_block is Some {
                i + then_len + 3
            } else {
                i + w.len()
            };
            &&& (s.ip == i && eval_pure(s.memory, s.vars, cond) is Some) ==> ({
                let (v, m, vs) = eval_pure(s.memory, s.vars, cond)->Some_0;
                &&& v == 0 ==> reachable(p, s, moved(s, else_start, m, vs))
                &&& v != 0 ==> reachable(p, s, moved_on(s, m, vs))
            })
            &&& (else_block is Some && s.ip == i + 1 + then_len) ==> reachable(
                p,
                s,
                moved(s, i + w.len(), s.memory, s.vars),
            )
        }),
{
    let w = lower_line(Line::If(cond, then_block, else_block), ctr).0;
    let ir = p.ir();
    let else_label = internal_label(ctr);
    let t = lower_block(then_block@, next_count(ctr));
    let tl = t.0.len() as int;
    let else_start = if else_block is Some {
        i + tl + 3
    } else {
        i + w.len()
    };
    assert(ir[i] == w[0]);
    // the label that the conditional jump targets
    let le = i + tl + if else_block is Some {
        2int
    } else {
        1int
    };
    assert(ir[le] == w[le - i]);
    assert(w[le - i] == IrLine::Label(else_label));
    lemma_label_at(p, le, else_label);
    if s.ip == i && eval_pure(s.memory, s.vars, cond) is Some {
        let (v, m, vs) = eval_pure(s.memory, s.vars, cond)->Some_0;
        lemma_jump_false(p, s, cond, else_label);
        if v == 0 {
            let s1 = moved(s, le, m, vs);
            let n1 = choose|n: nat| reaches(p, s, s1, n);
            assert(reaches(p, s, s1, n1));
            lemma_label_step(p, s1, else_label);
            lemma_reaches_trans(p, s, s1, moved(s1, le + 1, m, vs), n1, 1);
            assert(moved(s1, le + 1, m, vs) == moved(s, else_start, m, vs));
            assert(reaches(p, s, moved(s, else_start, m, vs), n1 + 1));
        }
    }
    if else_block is Some && s.ip == i + 1 + tl {
        let eb = else_block->Some_0;
        let exit_label = internal_label(t.1);
        let x = i + w.len() - 1;
        assert(ir[i + 1 + tl] == w[1 + tl]);
        assert(w[1 + tl] == IrLine::Goto(exit_label));
        assert(ir[x] == w[w.len() - 1]);
        assert(w[w.len() - 1] == IrLine::Label(exit_label));
        lemma_label_at(p, x, exit_label);
        lemma_goto(p, s, exit_label);
        let s1 = moved(s, x, s.memory, s.vars);
        lemma_label_step(p, s1, exit_label);
        lemma_reaches_trans(p, s, s1, moved(s1, x + 1, s.memory, s.vars), 1, 1);
        assert(moved(s1, x + 1, s.memory, s.vars) == moved(s, i + w.len(), s.memory, s.vars));
        assert(reaches(p, s, moved(s, i + w.len(), s.memory, s.vars), 2));
    }
}

/// A lowered `for` loop keeps the loop's structure: it sets the counter to the
/// start value and goes to the head; at the head, while the counter is below
/// the end value execution goes on at the first instruction of the body, and
/// otherwise after the loop; after the body the counter goes up by one and
/// execution goes back to the head.
pub proof fn lemma_for_structure(
    p: Program,
    i: int,
    v: String,
    start: Expr,
    end: Expr,
    body: Block,
    ctr: u64,
    s: State,
)
    requires
        p.wf(),
        p.ir().len() <= usize::MAX,
        0 <= i,
        i + lower_line(Line::For(v, start, end, body), ctr).0.len() <= p.ir().len(),
        p.ir().subrange(i, i + lower_line(Line::For(v, start, end, body), ctr).0.len()) == lower_line(
            Line::For(v, start, end, body),
            ctr,
        ).0,
        call_free(start),
        call_free(end),
        at_instruction(s),
    ensures
        ({
            let w = lower_line(Line::For(v, start, end, body), ctr).0;
            let body_len = lower_block(body@, next_count(next_count(ctr))).0.len();
            let test = Expr::Lt(Box::new(Expr::Var(v)), Box::new(end));
            let step = Expr::Add(Box::new(Expr::Var(v)), Box::new(Expr::Literal(1)));
            &&& w.len() == body_len + 6
            &&& (s.ip == i && eval_pure(s.memory, s.vars, start) is Some && store_var(
                eval_pure(s.memory, s.vars, start)->Some_0.1,
                eval_pure(s.memory, s.vars, start)->Some_0.2,
                v@,
                eval_pure(s.memory, s.vars, start)->Some_0.0,
            ) is Some) ==> ({
                let (x, m, vs) = eval_pure(s.memory, s.vars, start)->Some_0;
                let (m2, vs2) = store_var(m, vs, v@, x)->Some_0;
                reachable(p, s, moved(s, i + 1, m2, vs2))
            })
            &&& (s.ip == i + 1 && eval_pure(s.memory, s.vars, test) is Some) ==> ({
                let (c, m, vs) = eval_pure(s.memory, s.vars, test)->Some_0;
                &&& c == 0 ==> reachable(p, s, moved(s, i + w.len(), m, vs))
                &&& c != 0 ==> reachable(p, s, moved(s, i + 3, m, vs))
            })
            &&& (s.ip == i + 3 + body_len && eval_pure(s.memory, s.vars, step) is Some && store_var(
                eval_pure(s.memory, s.vars, step)->Some_0.1,
                eval_pure(s.memory, s.vars, step)->Some_0.2,
                v@,
                eval_pure(s.memory, s.vars, step)->Some_0.0,
            ) is Some) ==> ({
                let (x, m, vs) = eval_pure(s.memory, s.vars, step)->Some_0;
                let (m2, vs2) = store_var(m, vs, v@, x)->Some_0;
                reachable(p, s, moved(s, i + 1, m2, vs2))
            })
        }),
{
    let w = lower_line(Line::For(v, start, end, body), ctr).0;
    let ir = p.ir();
    let start_label = internal_label(ctr);
    let exit_label = internal_label(next_count(ctr));
    let b = lower_block(body@, next_count(next_count(ctr))).0;
    let bl = b.len() as int;
    let test = Expr::Lt(Box::new(Expr::Var(v)), Box::new(end));
    let step = Expr::Add(Box::new(Expr::Var(v)), Box::new(Expr::Literal(1)));
    reveal_with_fuel(call_free, 2);
    assert(call_free(test));
    assert(call_free(step));
    let x = i + w.len() - 1;
    assert(ir[i] == w[0]);
    assert(ir[i + 1] == w[1]);
    assert(ir[i + 2] == w[2]);
    assert(ir[i + 3 + bl] == w[3 + bl]);
    assert(ir[i + 4 + bl] == w[4 + bl]);
    assert(ir[x] == w[w.len() - 1]);
    lemma_label_at(p, i + 1, start_label);
    lemma_label_at(p, x, exit_label);
    if s.ip == i && eval_pure(s.memory, s.vars, start) is Some && store_var(
        eval_pure(s.memory, s.vars, start)->Some_0.1,
        eval_pure(s.memory, s.vars, start)->Some_0.2,
        v@,
        eval_pure(s.memory, s.vars, start)->Some_0.0,
    ) is Some {
        lemma_assign_var(p, s, v, start);
    }
    if s.ip == i + 1 && eval_pure(s.memory, s.vars, test) is Some {
        let (c, m, vs) = eval_pure(s.memory, s.vars, test)->Some_0;
        let s1 = moved(s, i + 2, s.memory, s.vars);
        lemma_label_step(p, s, start_label);
        lemma_jump_false(p, s1, test, exit_label);
        if c == 0 {
            let s2 = moved(s1, x, m, vs);
            let n1 = choose|n: nat| reaches(p, s1, s2, n);
            assert(reaches(p, s1, s2, n1));
            lemma_label_step(p, s2, exit_label);
            lemma_reaches_trans(p, s, s1, s2, 1, n1);
            lemma_reaches_trans(p, s, s2, moved(s2, x + 1, m, vs), 1 + n1, 1);
            assert(moved(s2, x + 1, m, vs) == moved(s, i + w.len(), m, vs));
            assert(reaches(p, s, moved(s, i + w.len(), m, vs), 1 + n1 + 1));
        } else {
            let s2 = moved_on(s1, m, vs);
            let n1 = choose|n: nat| reaches(p, s1, s2, n);
            assert(reaches(p, s1, s2, n1));
            lemma_reaches_trans(p, s, s1, s2, 1, n1);
            assert(s2 == moved(s, i + 3, m, vs));
            assert(reaches(p, s, moved(s, i + 3, m, vs), 1 + n1));
        }
    }
    if s.ip == i + 3 + bl && eval_pure(s.memory, s.vars, step) is Some && store_var(
        eval_pure(s.memory, s.vars, step)->Some_0.1,
        eval_pure(s.memory, s.vars, step)->Some_0.2,
        v@,
        eval_pure(s.memory, s.vars, step)->Some_0.0,
    ) is Some {
        let (c, m, vs) = eval_pure(s.memory, s.vars, step)->Some_0;
        let (m2, vs2) = store_var(m, vs, v@, c)->Some_0;
        lemma_assign_var(p, s, v, step);
        let s1 = moved_on(s, m2, vs2);
        let n1 = choose|n: nat| reaches(p, s, s1, n);
        assert(reaches(p, s, s1, n1));
        lemma_goto(p, s1, start_label);
        lemma_reaches_trans(p, s, s1, moved(s1, i + 1, m2, vs2), n1, 1);
        assert(moved(s1, i + 1, m2, vs2) == moved(s, i + 1, m2, vs2));
        assert(reaches(p, s, moved(s, i + 1, m2, vs2), n1 + 1));
    }
}

/// The state after the value, then the address of a store were evaluated,
/// as `(value, address, memory, variables)`.
pub open spec fn store_operands(s: State, addr: Expr, value: Expr) -> Option<
    (u32, u32, Seq<u8>, Map<Seq<char>, usize>),
> {
    match eval_pure(s.memory, s.vars, value) {
        Some((v, m1, vs1)) => match eval_pure(m1, vs1, addr) {
            Some((a, m2, vs2)) => Some((v, a, m2, vs2)),
            None => None,
        },
        None => None,
    }
}

/// Working through a store's value and address: the value first, then the
/// address, both left on the value stack.
proof fn lemma_store_operands(p: Program, s: State, addr: Expr, value: Expr, t: TaskView)
    requires
        at_instruction(s),
        call_free(addr),
        call_free(value),
        store_operands(s, addr, value) is Some,
    ensures
        ({
            let (v, a, m, vs) = store_operands(s, addr, value)->Some_0;
            let s0 = State {
                tasks: s.tasks.push(t).push(TaskView::Eval(addr)).push(TaskView::Eval(value)),
                ..s
            };
            reachable(
                p,
                s0,
                State { memory: m, vars: vs, tasks: s.tasks.push(t), values: s.values.push(v).push(a), ..s },
            )
        }),
{
    let (v, a, m, vs) = store_operands(s, addr, value)->Some_0;
    let (v1, m1, vs1) = eval_pure(s.memory, s.vars, value)->Some_0;
    let s0 = State {
        tasks: s.tasks.push(t).push(TaskView::Eval(addr)).push(TaskView::Eval(value)),
        ..s
    };
    lemma_eval_reaches(p, s0, value);
    let s1 = evaluated(s0, v1, m1, vs1);
    let n1 = choose|n: nat| reaches(p, s0, s1, n);
    assert(s0.tasks.drop_last() =~= s.tasks.push(t).push(TaskView::Eval(addr)));
    assert(s1.tasks.last() == TaskView::Eval(addr));
    lemma_eval_reaches(p, s1, addr);
    let s2 = evaluated(s1, a, m, vs);
    let n2 = choose|n: nat| reaches(p, s1, s2, n);
    assert(s1.tasks.drop_last() =~= s.tasks.push(t));
    lemma_reaches_trans(p, s0, s1, s2, n1, n2);
    assert(s2 == State { memory: m, vars: vs, tasks: s.tasks.push(t), values: s.values.push(v).push(a), ..s });
    assert(reaches(p, s0, s2, n1 + n2));
}

/// Storing a word through an address and reading it back: a word assignment
/// `[addr] := value` with a call-free address and value, whose address lies
/// inside memory, leads after some steps to the next instruction with the
/// word stored, and a word read at that address then gives exactly the value.
pub proof fn lemma_word_store_reads_back(p: Program, s: State, addr: Expr, value: Expr)
    requires
        at_instruction(s),
        s.ip < p.ir().len(),
        p.ir()[s.ip as int] == IrLine::Assign(AssignTarget::Addr(addr), value),
        call_free(addr),
        call_free(value),
        store_operands(s, addr, value) is Some,
        word_in_bounds(
            store_operands(s, addr, value)->Some_0.2.len(),
            store_operands(s, addr, value)->Some_0.1 as int,
        ),
    ensures
        ({
            let (v, a, m, vs) = store_operands(s, addr, value)->Some_0;
            let m2 = write_word(m, a as int, v);
            &&& reachable(p, s, moved_on(s, m2, vs))
            &&& eval_pure(m2, vs, Expr::Deref(Box::new(Expr::Literal(a)))) == Some((v, m2, vs))
        }),
{
    let (v, a, m, vs) = store_operands(s, addr, value)->Some_0;
    let s0 = State {
        tasks: s.tasks.push(TaskView::StoreWord).push(TaskView::Eval(addr)).push(TaskView::Eval(value)),
        ..s
    };
    lemma_reaches_one(p, s, s0);
    lemma_store_operands(p, s, addr, value, TaskView::StoreWord);
    let s2 = State { memory: m, vars: vs, tasks: s.tasks.push(TaskView::StoreWord), values: s.values.push(v).push(a), ..s };
    let n2 = choose|n: nat| reaches(p, s0, s2, n);
    assert(reaches(p, s0, s2, n2));
    assert(s2.tasks.drop_last() =~= s.tasks);
    assert(s2.values.drop_last().drop_last() =~= s.values);
    assert(s2.values.drop_last() =~= s.values.push(v));
    assert(s2.values[s2.values.len() - 2] == v);
    assert(!at_instruction(s2));
    let m2 = write_word(m, a as int, v);
    let s3 = moved_on(s, m2, vs);
    assert(step_post(p, s2, s3, Ok::<Event, Error>(Event::Continue)));
    lemma_reaches_one(p, s2, s3);
    lemma_reaches_trans(p, s, s0, s2, 1, n2);
    lemma_reaches_trans(p, s, s2, s3, 1 + n2, 1);
    assert(reaches(p, s, s3, 1 + n2 + 1));
    assert(reachable(p, s, s3));
    lemma_word_round_trip(m, a as int, v);
    reveal_with_fuel(eval_pure, 2);
    assert(eval_pure(m2, vs, Expr::Literal(a)) == Some((a, m2, vs)));
}

/// Storing a byte through an address and reading it back: a byte assignment
/// with a call-free address and value, whose address lies inside memory,
/// leads after some steps to the next instruction, and a byte read at that
/// address then gives the value truncated to `0..256`.
pub proof fn lemma_byte_store_reads_back(p: Program, s: State, addr: Expr, value: Expr)
    requires
        at_instruction(s),
        s.ip < p.ir().len(),
        p.ir()[s.ip as int] == IrLine::Assign(AssignTarget::ByteAddr(addr), value),
        call_free(addr),
        call_free(value),
        store_operands(s, addr, value) is Some,
        (store_operands(s, addr, value)->Some_0.1 as int) < store_operands(s, addr, value)->Some_0.2.len(),
    ensures
        ({
            let (v, a, m, vs) = store_operands(s, addr, value)->Some_0;
            let m2 = m.update(a as int, low_byte(v));
            &&& reachable(p, s, moved_on(s, m2, vs))
            &&& eval_pure(m2, vs, Expr::DerefByte(Box::new(Expr::Literal(a)))) == Some(
                (v % 256, m2, vs),
            )
        }),
{
    let (v, a, m, vs) = store_operands(s, addr, value)->Some_0;
    let s0 = State {
        tasks: s.tasks.push(TaskView::StoreByte).push(TaskView::Eval(addr)).push(TaskView::Eval(value)),
        ..s
    };
    lemma_reaches_one(p, s, s0);
    lemma_store_operands(p, s, addr, value, TaskView::StoreByte);
    let s2 = State { memory: m, vars: vs, tasks: s.tasks.push(TaskView::StoreByte), values: s.values.push(v).push(a), ..s };
    let n2 = choose|n: nat| reaches(p, s0, s2, n);
    assert(reaches(p, s0, s2, n2));
    assert(s2.tasks.drop_last() =~= s.tasks);
    assert(s2.values.drop_last().drop_last() =~= s.values);
    assert(s2.values.drop_last() =~= s.values.push(v));
    assert(s2.values[s2.values.len() - 2] == v);
    assert(!at_instruction(s2));
    let m2 = m.update(a as int, low_byte(v));
    let s3 = moved_on(s, m2, vs);
    assert(step_post(p, s2, s3, Ok::<Event, Error>(Event::Continue)));
    lemma_reaches_one(p, s2, s3);
    lemma_reaches_trans(p, s, s0, s2, 1, n2);
    lemma_reaches_trans(p, s, s2, s3, 1 + n2, 1);
    assert(reaches(p, s, s3, 1 + n2 + 1));
    assert(reachable(p, s, s3));
    lemma_byte_round_trip(m, a as int, v);
    reveal_with_fuel(eval_pure, 2);
    assert(eval_pure(m2, vs, Expr::Literal(a)) == Some((a, m2, vs)));
}

/// The state right after a call of user function `name` with `k` arguments
/// entered the function: parameters bound, the calling instruction saved.
pub open spec fn entered(p: Program, s: State, name: Seq<char>, k: usize) -> State {
    let n = s.values.len();
    let params = match p.ir()[p.labels()[name] as int] {
        IrLine::FunDeclaration(_, ps) => ps@,
        _ => Seq::empty(),
    };
    let (m, v) = bind_params(s.memory, s.vars, params, s.values.subrange(n - k, n as int))->Some_0;
    State {
        memory: m,
        vars: v,
        ip: p.labels()[name],
        tasks: s.tasks.drop_last().push(TaskView::Return(s.ip)),
        values: s.values.subrange(0, n - k),
        ..s
    }
}

/// The call convention over a whole call: when a call of a declared function
/// enters it, and the body's run reaches the function-return marker with
/// `ans` holding `w` and the call's frame on top, the call leaves `w` as its
/// value and execution goes on at the calling instruction.
pub proof fn lemma_call_yields_ans(
    p: Program,
    s: State,
    name: Seq<char>,
    k: usize,
    ret: State,
)
    requires
        !at_instruction(s),
        s.tasks.last() == TaskView::Call(name, k),
        k <= s.values.len(),
        intrinsic_named(name) is None,
        p.labels().contains_key(name),
        p.ir()[p.labels()[name] as int] is FunDeclaration,
        ({
            let n = s.values.len();
            bind_params(
                s.memory,
                s.vars,
                p.ir()[p.labels()[name] as int]->FunDeclaration_1@,
                s.values.subrange(n - k, n as int),
            ) is Some
        }),
        reachable(p, entered(p, s, name, k), ret),
        ret.tasks == entered(p, s, name, k).tasks,
        ret.ip < p.ir().len(),
        p.ir()[ret.ip as int] == IrLine::FunReturn,
        ret.vars.contains_key(return_var()),
        word_in_bounds(ret.memory.len(), ret.vars[return_var()] as int),
    ensures
        reachable(
            p,
            s,
            State {
                ip: s.ip,
                tasks: s.tasks.drop_last(),
                values: ret.values.push(read_word(ret.memory, ret.vars[return_var()] as int)),
                ..ret
            },
        ),
{
    let e = entered(p, s, name, k);
    assert(step_post(p, s, e, Ok::<Event, Error>(Event::Continue)));
    lemma_reaches_one(p, s, e);
    let n1 = choose|n: nat| reaches(p, e, ret, n);
    assert(reaches(p, e, ret, n1));
    let fin = State {
        ip: s.ip,
        tasks: s.tasks.drop_last(),
        values: ret.values.push(read_word(ret.memory, ret.vars[return_var()] as int)),
        ..ret
    };
    assert(ret.tasks.drop_last() =~= s.tasks.drop_last());
    assert(at_instruction(ret));
    assert(step_post(p, ret, fin, Ok::<Event, Error>(Event::Continue)));
    lemma_reaches_one(p, ret, fin);
    lemma_reaches_trans(p, s, e, ret, 1, n1);
    lemma_reaches_trans(p, s, ret, fin, 1 + n1, 1);
    assert(reaches(p, s, fin, 1 + n1 + 1));
}

/// Printing a value: a statement `print(e)` with a call-free `e` that
/// evaluates to `v` leads after some steps to a state whose next step writes
/// the decimal text of `v` and a newline; that call's value is `0`.
pub proof fn lemma_print_writes_value(p: Program, s: State, name: String, args: Vec<Expr>, e: Expr)
    requires
        args@ == seq![e],
        at_instruction(s),
        s.ip < p.ir().len(),
        name@ == "print"@,
        p.ir()[s.ip as int] == IrLine::Expr(Expr::FunCall(name, args)),
        call_free(e),
        eval_pure(s.memory, s.vars, e) is Some,
    ensures
        ({
            let (v, m, vs) = eval_pure(s.memory, s.vars, e)->Some_0;
            exists|s1: State|
                #[trigger] reachable(p, s, s1) && s1.memory == m && s1.vars == vs && s1.ip == s.ip
                    && forall|s2: State, r: Result<Event, Error>|
                    #[trigger] step_post(p, s1, s2, r) ==> (r matches Ok(
                        Event::Perform(Effect::Output(t)),
                    ) && t@ == decimal(v as nat) + seq!['\n'] && s2.values == s.values.push(0u32)
                        && s2.tasks == s.tasks.push(TaskView::Discard))
        }),
{
    let (v, m, vs) = eval_pure(s.memory, s.vars, e)->Some_0;
    let call = Expr::FunCall(name, args);
    let s0 = State { tasks: s.tasks.push(TaskView::Discard).push(TaskView::Eval(call)), ..s };
    lemma_reaches_one(p, s, s0);
    let c = TaskView::Call(name@, 1usize);
    assert(arg_tasks(args@) =~= seq![TaskView::Eval(e)]);
    let s1 = State {
        tasks: s.tasks.push(TaskView::Discard).push(c).push(TaskView::Eval(e)),
        ..s
    };
    assert(s0.tasks.drop_last() =~= s.tasks.push(TaskView::Discard));
    assert(s.tasks.push(TaskView::Discard).push(c) + arg_tasks(args@) =~= s1.tasks);
    assert(step_post(p, s0, s1, Ok::<Event, Error>(Event::Continue)));
    lemma_reaches_one(p, s0, s1);
    lemma_eval_reaches(p, s1, e);
    let s2 = evaluated(s1, v, m, vs);
    let n2 = choose|n: nat| reaches(p, s1, s2, n);
    assert(reaches(p, s1, s2, n2));
    lemma_reaches_trans(p, s, s0, s1, 1, 1);
    lemma_reaches_trans(p, s, s1, s2, 2, n2);
    assert(reaches(p, s, s2, 2 + n2));
    assert(reachable(p, s, s2));
    assert(s1.tasks.drop_last() =~= s.tasks.push(TaskView::Discard).push(c));
    assert(s2.tasks.last() == c);
    assert(!at_instruction(s2));
    let n = s2.values.len();
    assert(s2.values.subrange(n - 1, n as int) =~= seq![v]);
    assert(s2.values.subrange(0, n - 1) =~= s.values);
    assert(s2.tasks.drop_last() =~= s.tasks.push(TaskView::Discard));
    reveal_strlit("numprintln");
    reveal_strlit("numprint");
    reveal_strlit("print");
    assert("print"@.len() == 5);
    assert("numprint"@.len() == 8);
    assert("numprintln"@.len() == 10);
    assert("print"@ != "numprintln"@);
    assert("print"@ != "numprint"@);
    assert(intrinsic_named(name@) == Some(crate::intrinsics::Intrinsic::Print));
    assert(seq![v].drop_last() =~= Seq::<u32>::empty());
    reveal_with_fuel(crate::intrinsics::number_lines, 2);
    assert(crate::intrinsics::number_lines(seq![v]) =~= decimal(v as nat) + seq!['\n']);
    assert(crate::intrinsics::count_accepted(
        crate::intrinsics::expected_counts(crate::intrinsics::Intrinsic::Print),
        1,
    )) by {
        assert(seq![1usize][0] as int == 1);
    }
}

/// Reachability is transitive.
pub proof fn lemma_reachable_trans(p: Program, a: State, b: State, c: State)
    requires
        reachable(p, a, b),
        reachable(p, b, c),
    ensures
        reachable(p, a, c),
{
    let n1 = choose|n: nat| reaches(p, a, b, n);
    let n2 = choose|n: nat| reaches(p, b, c, n);
    lemma_reaches_trans(p, a, b, c, n1, n2);
    assert(reaches(p, a, c, n1 + n2));
}

/// The word round trip as output: `[addr] := value` followed by
/// `print([a])`, where `a` is the address the store used, writes the decimal
/// text of the stored value.
pub proof fn lemma_word_store_prints_back(
    p: Program,
    s: State,
    addr: Expr,
    value: Expr,
    name: String,
    args: Vec<Expr>,
)
    requires
        at_instruction(s),
        p.ir().len() <= usize::MAX,
        s.ip + 1 < p.ir().len(),
        p.ir()[s.ip as int] == IrLine::Assign(AssignTarget::Addr(addr), value),
        call_free(addr),
        call_free(value),
        store_operands(s, addr, value) is Some,
        word_in_bounds(
            store_operands(s, addr, value)->Some_0.2.len(),
            store_operands(s, addr, value)->Some_0.1 as int,
        ),
        name@ == "print"@,
        args@ == seq![Expr::Deref(Box::new(Expr::Literal(store_operands(s, addr, value)->Some_0.1)))],
        p.ir()[s.ip + 1] == IrLine::Expr(Expr::FunCall(name, args)),
    ensures
        exists|s1: State|
            #[trigger] reachable(p, s, s1) && forall|s2: State, r: Result<Event, Error>|
                #[trigger] step_post(p, s1, s2, r) ==> (r matches Ok(
                    Event::Perform(Effect::Output(t)),
                ) && t@ == decimal(store_operands(s, addr, value)->Some_0.0 as nat) + seq!['\n']),
{
    let (v, a, m, vs) = store_operands(s, addr, value)->Some_0;
    let e = Expr::Deref(Box::new(Expr::Literal(a)));
    lemma_word_store_reads_back(p, s, addr, value);
    let m2 = write_word(m, a as int, v);
    let mid = moved_on(s, m2, vs);
    assert(at_instruction(mid));
    assert(mid.ip == s.ip + 1);
    reveal_with_fuel(call_free, 2);
    assert(call_free(e));
    lemma_print_writes_value(p, mid, name, args, e);
    let s1 = choose|s1: State|
        #[trigger] reachable(p, mid, s1) && s1.memory == m2 && s1.vars == vs && s1.ip == mid.ip
            && forall|s2: State, r: Result<Event, Error>|
            #[trigger] step_post(p, s1, s2, r) ==> (r matches Ok(Event::Perform(Effect::Output(t)))
                && t@ == decimal(v as nat) + seq!['\n'] && s2.values == mid.values.push(0u32)
                && s2.tasks == mid.tasks.push(TaskView::Discard));
    lemma_reachable_trans(p, s, mid, s1);
}

/// Structured interpretation of a block of call-free assignments, `if`s,
/// `while`s and `for`s: memory and variables afterwards, or `None` when a
/// statement is of another kind, an evaluation fails, or more than `fuel`
/// loop passes would be needed.
pub open spec fn run_block(mem: Seq<u8>, vars: Map<Seq<char>, usize>, b: Seq<LineData>, fuel: nat) -> Option<
    (Seq<u8>, Map<Seq<char>, usize>),
>
    decreases fuel, b,
{
    if b.len() == 0 {
        Some((mem, vars))
    } else {
        match run_block(mem, vars, b.subrange(0, b.len() - 1), fuel) {
            Some((m, v)) => run_line(m, v, b[b.len() - 1].line, fuel),
            None => None,
        }
    }
}

/// Structured interpretation of one statement (see `run_block`).
pub open spec fn run_line(mem: Seq<u8>, vars: Map<Seq<char>, usize>, l: Line, fuel: nat) -> Option<
    (Seq<u8>, Map<Seq<char>, usize>),
>
    decreases fuel, l,
{
    match l {
        Line::Assign(AssignTarget::Var(x), e) => if call_free(e) {
            match eval_pure(mem, vars, e) {
                Some((v, m, vs)) => store_var(m, vs, x@, v),
                None => None,
            }
        } else {
            None
        },
        Line::If(c, t, eb) => if call_free(c) {
            match eval_pure(mem, vars, c) {
                Some((v, m, vs)) => if v != 0 {
                    run_block(m, vs, t@, fuel)
                } else {
                    match eb {
                        Some(e) => run_block(m, vs, e@, fuel),
                        None => Some((m, vs)),
                    }
                },
                None => None,
            }
        } else {
            None
        },
        Line::While(c, body) => if call_free(c) && fuel > 0 {
            match eval_pure(mem, vars, c) {
                Some((v, m, vs)) => if v == 0 {
                    Some((m, vs))
                } else {
                    match run_block(m, vs, body@, fuel) {
                        Some((m2, vs2)) => run_line(m2, vs2, Line::While(c, body), (fuel - 1) as nat),
                        None => None,
                    }
                },
                None => None,
            }
        } else {
            None
        },
        Line::For(x, start, end, body) => if call_free(start) && call_free(end) {
            match eval_pure(mem, vars, start) {
                Some((v, m, vs)) => match store_var(m, vs, x@, v) {
                    Some((m1, vs1)) => run_for(m1, vs1, x, end, body, fuel),
                    None => None,
                },
                None => None,
            }
        } else {
            None
        },
        _ => None,
    }
}

/// The passes of a `for` loop with counter `x` up to `end`: test, body,
/// increment, again.
pub open spec fn run_for(
    mem: Seq<u8>,
    vars: Map<Seq<char>, usize>,
    x: String,
    end: Expr,
    body: Block,
    fuel: nat,
) -> Option<(Seq<u8>, Map<Seq<char>, usize>)>
    decreases fuel, body,
{
    if fuel == 0 {
        None
    } else {
        let test = Expr::Lt(Box::new(Expr::Var(x)), Box::new(end));
        let step = Expr::Add(Box::new(Expr::Var(x)), Box::new(Expr::Literal(1)));
        match eval_pure(mem, vars, test) {
            Some((c, m, vs)) => if c == 0 {
                Some((m, vs))
            } else {
                match run_block(m, vs, body@, fuel) {
                    Some((m2, vs2)) => match eval_pure(m2, vs2, step) {
                        Some((n, m3, vs3)) => match store_var(m3, vs3, x@, n) {
                            Some((m4, vs4)) => run_for(m4, vs4, x, end, body, (fuel - 1) as nat),
                            None => None,
                        },
                        None => None,
                    },
                    None => None,
                }
            },
            None => None,
        }
    }
}

/// A part of lowered code placed at `i` is placed at `i` plus its offset.
proof fn lemma_placed_part(ir: Seq<IrLine>, i: int, w: Seq<IrLine>, off: int, part: Seq<IrLine>)
    requires
        0 <= i,
        i + w.len() <= ir.len(),
        ir.subrange(i, i + w.len()) == w,
        0 <= off,
        off + part.len() <= w.len(),
        w.subrange(off, off + part.len()) == part,
    ensures
        ir.subrange(i + off, i + off + part.len()) == part,
        forall|k: int| 0 <= k < part.len() ==> ir[i + off + k] == #[trigger] part[k],
{
    assert forall|k: int| 0 <= k < part.len() implies ir[i + off + k] == #[trigger] part[k] by {
        assert(ir.subrange(i, i + w.len())[off + k] == w[off + k]);
        assert(w.subrange(off, off + part.len())[k] == w[off + k]);
    }
    assert(ir.subrange(i + off, i + off + part.len()) =~= part);
}

/// Lowered code of a block, placed at the instruction pointer, runs as the
/// block's structured interpretation: it reaches the instruction after the
/// code with the same memory and variables.
proof fn lemma_run_block(p: Program, s: State, b: Seq<LineData>, c: u64, fuel: nat)
    requires
        p.wf(),
        p.ir().len() <= usize::MAX,
        at_instruction(s),
        s.ip + lower_block(b, c).0.len() <= p.ir().len(),
        p.ir().subrange(s.ip as int, s.ip + lower_block(b, c).0.len()) == lower_block(b, c).0,
        run_block(s.memory, s.vars, b, fuel) is Some,
    ensures
        ({
            let (m, vs) = run_block(s.memory, s.vars, b, fuel)->Some_0;
            reachable(p, s, moved(s, s.ip + lower_block(b, c).0.len(), m, vs))
        }),
    decreases fuel, b, 1nat,
{
    let i = s.ip as int;
    if b.len() == 0 {
        assert(moved(s, i + lower_block(b, c).0.len(), s.memory, s.vars) == s);
        assert(reaches(p, s, s, 0));
    } else {
        let front = b.subrange(0, b.len() - 1);
        let last = b[b.len() - 1].line;
        assert(decreases_to!(b => b[b.len() - 1]));
        let f = lower_block(front, c);
        let l = lower_line(last, f.1);
        let w = lower_block(b, c).0;
        assert(w == f.0 + l.0);
        assert(w.subrange(0, f.0.len() as int) =~= f.0);
        assert(w.subrange(f.0.len() as int, (f.0.len() + l.0.len()) as int) =~= l.0);
        lemma_placed_part(p.ir(), i, w, 0, f.0);
        lemma_placed_part(p.ir(), i, w, f.0.len() as int, l.0);
        lemma_run_block(p, s, front, c, fuel);
        let (m1, vs1) = run_block(s.memory, s.vars, front, fuel)->Some_0;
        let mid = moved(s, i + f.0.len(), m1, vs1);
        lemma_run_line(p, mid, last, f.1, fuel);
        let (m, vs) = run_line(m1, vs1, last, fuel)->Some_0;
        assert(moved(mid, mid.ip + l.0.len(), m, vs) == moved(s, i + w.len(), m, vs));
        lemma_reachable_trans(p, s, mid, moved(s, i + w.len(), m, vs));
    }
}

/// Lowered code of a statement, placed at the instruction pointer, runs as the
/// statement's structured interpretation.
proof fn lemma_run_line(p: Program, s: State, l: Line, c: u64, fuel: nat)
    requires
        p.wf(),
        p.ir().len() <= usize::MAX,
        at_instruction(s),
        s.ip + lower_line(l, c).0.len() <= p.ir().len(),
        p.ir().subrange(s.ip as int, s.ip + lower_line(l, c).0.len()) == lower_line(l, c).0,
        run_line(s.memory, s.vars, l, fuel) is Some,
    ensures
        ({
            let (m, vs) = run_line(s.memory, s.vars, l, fuel)->Some_0;
            reachable(p, s, moved(s, s.ip + lower_line(l, c).0.len(), m, vs))
        }),
    decreases fuel, l, 3nat,
{
    let i = s.ip as int;
    let w = lower_line(l, c).0;
    let (m, vs) = run_line(s.memory, s.vars, l, fuel)->Some_0;
    let end = moved(s, i + w.len(), m, vs);
    match l {
        Line::Assign(AssignTarget::Var(x), e) => {
            assert(w.subrange(0, w.len() as int) =~= w);
            lemma_placed_part(p.ir(), i, w, 0, w);
            assert(p.ir()[i] == w[0]);
            lemma_assign_var(p, s, x, e);
            assert(end == moved_on(s, m, vs));
        },
        Line::While(_, _) => lemma_run_while(p, s, l, c, fuel),
        Line::If(_, _, _) => lemma_run_if(p, s, l, c, fuel),
        Line::For(x, start, fin, body) => {
            lemma_for_structure(p, i, x, start, fin, body, c, s);
            let (v, m0, vs0) = eval_pure(s.memory, s.vars, start)->Some_0;
            let (m1, vs1) = store_var(m0, vs0, x@, v)->Some_0;
            let s1 = moved(s, i + 1, m1, vs1);
            lemma_run_for(p, s1, i, x, start, fin, body, c, fuel);
            lemma_reachable_trans(p, s, s1, end);
        },
        _ => {},
    }
}

/// The lowered code of a `while` loop runs as its structured interpretation.
proof fn lemma_run_while(p: Program, s: State, l: Line, c: u64, fuel: nat)
    requires
        l is While,
        p.wf(),
        p.ir().len() <= usize::MAX,
        at_instruction(s),
        s.ip + lower_line(l, c).0.len() <= p.ir().len(),
        p.ir().subrange(s.ip as int, s.ip + lower_line(l, c).0.len()) == lower_line(l, c).0,
        run_line(s.memory, s.vars, l, fuel) is Some,
    ensures
        ({
            let (m, vs) = run_line(s.memory, s.vars, l, fuel)->Some_0;
            reachable(p, s, moved(s, s.ip + lower_line(l, c).0.len(), m, vs))
        }),
    decreases fuel, l, 2nat,
{
    let i = s.ip as int;
    let w = lower_line(l, c).0;
    let (m, vs) = run_line(s.memory, s.vars, l, fuel)->Some_0;
    let end = moved(s, i + w.len(), m, vs);
    match l {
        Line::While(cond, body) => {
            let bc = next_count(next_count(c));
            let bb = lower_block(body@, bc).0;
            lemma_while_structure(p, i, cond, body, c, s);
            let (v, m1, vs1) = eval_pure(s.memory, s.vars, cond)->Some_0;
            if v != 0 {
                assert(w.subrange(2, 2 + bb.len() as int) =~= bb);
                lemma_placed_part(p.ir(), i, w, 2, bb);
                let s1 = moved(s, i + 2, m1, vs1);
                lemma_run_block(p, s1, body@, bc, fuel);
                let (m2, vs2) = run_block(m1, vs1, body@, fuel)->Some_0;
                let s2 = moved(s, i + 2 + bb.len(), m2, vs2);
                assert(moved(s1, s1.ip + bb.len(), m2, vs2) == s2);
                lemma_while_structure(p, i, cond, body, c, s2);
                let s3 = moved(s, i, m2, vs2);
                assert(moved(s2, i, s2.memory, s2.vars) == s3);
                assert(reachable(p, s2, s3));
                lemma_run_line(p, s3, l, c, (fuel - 1) as nat);
                assert(moved(s3, s3.ip + w.len(), m, vs) == end);
                lemma_reachable_trans(p, s, s1, s2);
                lemma_reachable_trans(p, s, s2, s3);
                lemma_reachable_trans(p, s, s3, end);
            }
        },
        _ => {},
    }
}

/// The lowered code of an `if` runs as its structured interpretation.
proof fn lemma_run_if(p: Program, s: State, l: Line, c: u64, fuel: nat)
    requires
        l is If,
        p.wf(),
        p.ir().len() <= usize::MAX,
        at_instruction(s),
        s.ip + lower_line(l, c).0.len() <= p.ir().len(),
        p.ir().subrange(s.ip as int, s.ip + lower_line(l, c).0.len()) == lower_line(l, c).0,
        run_line(s.memory, s.vars, l, fuel) is Some,
    ensures
        ({
            let (m, vs) = run_line(s.memory, s.vars, l, fuel)->Some_0;
            reachable(p, s, moved(s, s.ip + lower_line(l, c).0.len(), m, vs))
        }),
    decreases fuel, l, 2nat,
{
    let i = s.ip as int;
    let w = lower_line(l, c).0;
    let (m, vs) = run_line(s.memory, s.vars, l, fuel)->Some_0;
    let end = moved(s, i + w.len(), m, vs);
    match l {
        Line::If(cond, then_block, else_block) => {
            let t = lower_block(then_block@, next_count(c));
            let tl = t.0.len() as int;
            lemma_if_structure(p, i, cond, then_block, else_block, c, s);
            let (v, m1, vs1) = eval_pure(s.memory, s.vars, cond)->Some_0;
            if v != 0 {
                assert(w.subrange(1, 1 + tl) =~= t.0);
                lemma_placed_part(p.ir(), i, w, 1, t.0);
                let s1 = moved(s, i + 1, m1, vs1);
                assert(moved_on(s, m1, vs1) == s1);
                lemma_run_block(p, s1, then_block@, next_count(c), fuel);
                let s2 = moved(s, i + 1 + tl, m, vs);
                assert(moved(s1, s1.ip + tl, m, vs) == s2);
                lemma_reachable_trans(p, s, s1, s2);
                match else_block {
                    Some(_) => {
                        lemma_if_structure(p, i, cond, then_block, else_block, c, s2);
                        assert(moved(s2, i + w.len(), s2.memory, s2.vars) == end);
                        lemma_reachable_trans(p, s, s2, end);
                    },
                    None => {
                        assert(w.len() == tl + 2);
                        assert(w.subrange(0, w.len() as int) =~= w);
            lemma_placed_part(p.ir(), i, w, 0, w);
                        assert(p.ir()[i + tl + 1] == w[tl + 1]);
                        lemma_label_step(p, s2, internal_label(c));
                        assert(moved(s2, s2.ip + 1, s2.memory, s2.vars) == end);
                        assert(reaches(p, s2, end, 1));
                        lemma_reachable_trans(p, s, s2, end);
                    },
                }
            } else {
                match else_block {
                    Some(eb) => {
                        assert(decreases_to!(l => eb));
                        let ec = next_count(t.1);
                        let e = lower_block(eb@, ec).0;
                        assert(w.subrange(tl + 3, tl + 3 + e.len()) =~= e);
                        lemma_placed_part(p.ir(), i, w, tl + 3, e);
                        let s1 = moved(s, i + tl + 3, m1, vs1);
                        lemma_run_block(p, s1, eb@, ec, fuel);
                        let s2 = moved(s, i + tl + 3 + e.len(), m, vs);
                        assert(moved(s1, s1.ip + e.len(), m, vs) == s2);
                        lemma_reachable_trans(p, s, s1, s2);
                        assert(w.subrange(0, w.len() as int) =~= w);
            lemma_placed_part(p.ir(), i, w, 0, w);
                        assert(w.len() == tl + 4 + e.len());
                        assert(p.ir()[i + tl + 3 + e.len()] == w[tl + 3 + e.len()]);
                        lemma_label_step(p, s2, internal_label(t.1));
                        assert(moved(s2, s2.ip + 1, s2.memory, s2.vars) == end);
                        assert(reaches(p, s2, end, 1));
                        lemma_reachable_trans(p, s, s2, end);
                    },
                    None => {},
                }
            }
        },
        _ => {},
    }
}

/// The passes of a lowered `for` loop, from its head, run as the loop's
/// structured interpretation.
proof fn lemma_run_for(
    p: Program,
    s: State,
    i: int,
    x: String,
    start: Expr,
    fin: Expr,
    body: Block,
    c: u64,
    fuel: nat,
)
    requires
        p.wf(),
        p.ir().len() <= usize::MAX,
        at_instruction(s),
        0 <= i,
        s.ip == i + 1,
        i + lower_line(Line::For(x, start, fin, body), c).0.len() <= p.ir().len(),
        p.ir().subrange(i, i + lower_line(Line::For(x, start, fin, body), c).0.len()) == lower_line(
            Line::For(x, start, fin, body),
            c,
        ).0,
        call_free(start),
        call_free(fin),
        run_for(s.memory, s.vars, x, fin, body, fuel) is Some,
    ensures
        ({
            let (m, vs) = run_for(s.memory, s.vars, x, fin, body, fuel)->Some_0;
            reachable(
                p,
                s,
                moved(s, i + lower_line(Line::For(x, start, fin, body), c).0.len(), m, vs),
            )
        }),
    decreases fuel, body, 2nat,
{
    let l = Line::For(x, start, fin, body);
    let w = lower_line(l, c).0;
    let (m, vs) = run_for(s.memory, s.vars, x, fin, body, fuel)->Some_0;
    let end = moved(s, i + w.len(), m, vs);
    let test = Expr::Lt(Box::new(Expr::Var(x)), Box::new(fin));
    let step = Expr::Add(Box::new(Expr::Var(x)), Box::new(Expr::Literal(1)));
    lemma_for_structure(p, i, x, start, fin, body, c, s);
    let (cv, m1, vs1) = eval_pure(s.memory, s.vars, test)->Some_0;
    if cv != 0 {
        let bc = next_count(next_count(c));
        let bb = lower_block(body@, bc).0;
        assert(w.subrange(3, 3 + bb.len() as int) =~= bb);
        lemma_placed_part(p.ir(), i, w, 3, bb);
        let s1 = moved(s, i + 3, m1, vs1);
        lemma_run_block(p, s1, body@, bc, fuel);
        let (m2, vs2) = run_block(m1, vs1, body@, fuel)->Some_0;
        let s2 = moved(s, i + 3 + bb.len(), m2, vs2);
        assert(moved(s1, s1.ip + bb.len(), m2, vs2) == s2);
        lemma_for_structure(p, i, x, start, fin, body, c, s2);
        let (n, m3, vs3) = eval_pure(m2, vs2, step)->Some_0;
        let (m4, vs4) = store_var(m3, vs3, x@, n)->Some_0;
        let s3 = moved(s, i + 1, m4, vs4);
        assert(moved(s2, i + 1, m4, vs4) == s3);
        lemma_run_for(p, s3, i, x, start, fin, body, c, (fuel - 1) as nat);
        assert(moved(s3, i + w.len(), m, vs) == end);
        lemma_reachable_trans(p, s, s1, s2);
        lemma_reachable_trans(p, s, s2, s3);
        lemma_reachable_trans(p, s, s3, end);
    }
}

/// Lowering preserves structure over a whole block: in a loaded program that
/// holds the lowered code of a block of call-free assignments, `if`s,
/// `while`s and `for`s, running from the code's first instruction reaches the
/// instruction after it with the memory and variables that structured
/// interpretation of the block gives, whenever that interpretation succeeds.
/// Each body thus runs as many times, and in the same order, as structured
/// interpretation runs it.
pub proof fn lemma_lowering_preserves_structure(
    p: Program,
    s: State,
    b: Seq<LineData>,
    c: u64,
    fuel: nat,
)
    requires
        p.wf(),
        p.ir().len() <= usize::MAX,
        at_instruction(s),
        s.ip + lower_block(b, c).0.len() <= p.ir().len(),
        p.ir().subrange(s.ip as int, s.ip + lower_block(b, c).0.len()) == lower_block(b, c).0,
        run_block(s.memory, s.vars, b, fuel) is Some,
    ensures
        ({
            let (m, vs) = run_block(s.memory, s.vars, b, fuel)->Some_0;
            reachable(p, s, moved(s, s.ip + lower_block(b, c).0.len(), m, vs))
        }),
{
    lemma_run_block(p, s, b, c, fuel);
}

} // verus!
