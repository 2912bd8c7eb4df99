//! The execution engine. It runs a program one small step at a time over an
//! explicit stack of pending work, so that a step never waits on the outside
//! world: a step that needs the outside (output, graphics, input) hands back
//! what it needs, and the caller performs it.
//!
//! There is no call stack of frames: a call of a user function saves the
//! instruction pointer, binds the parameters as global variables, and runs the
//! body until a function-return marker; its value is the variable `ans`.
use vstd::prelude::*;

use crate::ast::{AssignTarget, Expr};
use crate::error::Error;
use crate::intermediate_repr::{IntermediateLine, IrLine};
use crate::interpreter::{lemma_label_map, Program};
use crate::intrinsics::{
    count_accepted, expected_counts, intrinsic_named, intrinsic_outcome, try_execute_intrinsic, Effect,
};
use crate::memory::{load_word, low_byte, read_word, store_word, word_in_bounds, write_word};
use crate::name_table::NameTable;

verus! {

/// A binary operator.
#[derive(Debug, Clone, Copy, PartialEq, Eq, Structural)]
pub enum BinOp {
    Add,
    Sub,
    Mul,
    Div,
    Mod,
    Lt,
    Gt,
    Leq,
    Geq,
    Eq,
    Neq,
    BitAnd,
    BitOr,
    BitXor,
    Shl,
    Shr,
}

/// The value of `l op r` on 32-bit words; `None` for a division by zero.
/// Arithmetic wraps around; a shift by 32 or more gives `0`; a comparison gives `1` or `0`.
pub open spec fn binop_value(op: BinOp, l: u32, r: u32) -> Option<u32> {
    match op {
        BinOp::Add => Some(l.wrapping_add(r)),
        BinOp::Sub => Some(l.wrapping_sub(r)),
        BinOp::Mul => Some(l.wrapping_mul(r)),
        BinOp::Div => if r == 0 {
            None
        } else {
            Some(l / r)
        },
        BinOp::Mod => if r == 0 {
            None
        } else {
            Some(l % r)
        },
        BinOp::Lt => Some(if l < r { 1u32 } else { 0u32 }),
        BinOp::Gt => Some(if l > r { 1u32 } else { 0u32 }),
        BinOp::Leq => Some(if l <= r { 1u32 } else { 0u32 }),
        BinOp::Geq => Some(if l >= r { 1u32 } else { 0u32 }),
        BinOp::Eq => Some(if l == r { 1u32 } else { 0u32 }),
        BinOp::Neq => Some(if l != r { 1u32 } else { 0u32 }),
        BinOp::BitAnd => Some(l & r),
        BinOp::BitOr => Some(l | r),
        BinOp::BitXor => Some(l ^ r),
        BinOp::Shl => Some(if r < 32 { l << r } else { 0u32 }),
        BinOp::Shr => Some(if r < 32 { l >> r } else { 0u32 }),
    }
}

/// The operator is one of `< > <= >= == !=`.
pub open spec fn is_comparison(op: BinOp) -> bool {
    match op {
        BinOp::Lt | BinOp::Gt | BinOp::Leq | BinOp::Geq | BinOp::Eq | BinOp::Neq => true,
        _ => false,
    }
}

/// A comparison always yields exactly `0` or `1`, whatever its operands.
pub proof fn lemma_comparison_is_boolean(op: BinOp, l: u32, r: u32)
    requires
        is_comparison(op),
    ensures
        binop_value(op, l, r) == Some(0u32) || binop_value(op, l, r) == Some(1u32),
{
}

/// Computes `l op r`; `None` for a division by zero.
pub fn apply_binop(op: BinOp, l: u32, r: u32) -> (res: Option<u32>)
    ensures
        res == binop_value(op, l, r),
{
    match op {
        BinOp::Add => Some(l.wrapping_add(r)),
        BinOp::Sub => Some(l.wrapping_sub(r)),
        BinOp::Mul => Some(l.wrapping_mul(r)),
        BinOp::Div => if r == 0 {
            None
        } else {
            Some(l / r)
        },
        BinOp::Mod => if r == 0 {
            None
        } else {
            Some(l % r)
        },
        BinOp::Lt => Some(if l < r { 1u32 } else { 0u32 }),
        BinOp::Gt => Some(if l > r { 1u32 } else { 0u32 }),
        BinOp::Leq => Some(if l <= r { 1u32 } else { 0u32 }),
        BinOp::Geq => Some(if l >= r { 1u32 } else { 0u32 }),
        BinOp::Eq => Some(if l == r { 1u32 } else { 0u32 }),
        BinOp::Neq => Some(if l != r { 1u32 } else { 0u32 }),
        BinOp::BitAnd => Some(l & r),
        BinOp::BitOr => Some(l | r),
        BinOp::BitXor => Some(l ^ r),
        BinOp::Shl => Some(if r < 32 { l << r } else { 0u32 }),
        BinOp::Shr => Some(if r < 32 { l >> r } else { 0u32 }),
    }
}

/// The operator and operands of a binary expression.
pub open spec fn binary_parts(e: Expr) -> Option<(BinOp, Expr, Expr)> {
    match e {
        Expr::Add(l, r) => Some((BinOp::Add, *l, *r)),
        Expr::Sub(l, r) => Some((BinOp::Sub, *l, *r)),
        Expr::Mul(l, r) => Some((BinOp::Mul, *l, *r)),
        Expr::Div(l, r) => Some((BinOp::Div, *l, *r)),
        Expr::Mod(l, r) => Some((BinOp::Mod, *l, *r)),
        Expr::Lt(l, r) => Some((BinOp::Lt, *l, *r)),
        Expr::Gt(l, r) => Some((BinOp::Gt, *l, *r)),
        Expr::Leq(l, r) => Some((BinOp::Leq, *l, *r)),
        Expr::Geq(l, r) => Some((BinOp::Geq, *l, *r)),
        Expr::Eq(l, r) => Some((BinOp::Eq, *l, *r)),
        Expr::Neq(l, r) => Some((BinOp::Neq, *l, *r)),
        Expr::BitAnd(l, r) => Some((BinOp::BitAnd, *l, *r)),
        Expr::BitOr(l, r) => Some((BinOp::BitOr, *l, *r)),
        Expr::BitXor(l, r) => Some((BinOp::BitXor, *l, *r)),
        Expr::Shl(l, r) => Some((BinOp::Shl, *l, *r)),
        Expr::Shr(l, r) => Some((BinOp::Shr, *l, *r)),
        _ => None,
    }
}

/// A pending piece of work. Expressions and names are borrowed from the program.
#[derive(Debug, Clone, Copy)]
pub enum Task<'a> {
    /// Evaluate the expression and push its value.
    Eval(&'a Expr),
    /// Pop a value, push its bitwise complement.
    Invert,
    /// Pop the right operand, then the left, push the result.
    Binary(BinOp),
    /// Pop an address, push the word there.
    LoadWord,
    /// Pop an address, push the byte there.
    LoadByte,
    /// Pop this many arguments (the last on top) and call the named function.
    Call(&'a String, usize),
    /// Pop a value into the variable; the instruction is done.
    StoreVar(&'a String),
    /// Pop an address, then a value, and store the word; the instruction is done.
    StoreWord,
    /// Pop an address, then a value, and store its low byte; the instruction is done.
    StoreByte,
    /// Pop a value and drop it; the instruction is done.
    Discard,
    /// Pop a value and jump to the label when it is zero; the instruction is done.
    JumpIfFalse(&'a String),
    /// A user function is running; at its return marker, go back to this
    /// instruction and push the value of `ans`.
    Return(usize),
}

/// A pending piece of work, with names seen as character sequences.
pub enum TaskView {
    Eval(Expr),
    Invert,
    Binary(BinOp),
    LoadWord,
    LoadByte,
    Call(Seq<char>, usize),
    StoreVar(Seq<char>),
    StoreWord,
    StoreByte,
    Discard,
    JumpIfFalse(Seq<char>),
    Return(usize),
}

impl<'a> View for Task<'a> {
    type V = TaskView;

    open spec fn view(&self) -> TaskView {
        match *self {
            Task::Eval(e) => TaskView::Eval(*e),
            Task::Invert => TaskView::Invert,
            Task::Binary(op) => TaskView::Binary(op),
            Task::LoadWord => TaskView::LoadWord,
            Task::LoadByte => TaskView::LoadByte,
            Task::Call(n, k) => TaskView::Call(n@, k),
            Task::StoreVar(n) => TaskView::StoreVar(n@),
            Task::StoreWord => TaskView::StoreWord,
            Task::StoreByte => TaskView::StoreByte,
            Task::Discard => TaskView::Discard,
            Task::JumpIfFalse(n) => TaskView::JumpIfFalse(n@),
            Task::Return(i) => TaskView::Return(i),
        }
    }
}

/// How many values a task takes from the value stack.
pub open spec fn pops(t: TaskView) -> nat {
    match t {
        TaskView::Eval(_) | TaskView::Return(_) => 0,
        TaskView::Invert | TaskView::LoadWord | TaskView::LoadByte | TaskView::StoreVar(_)
        | TaskView::Discard | TaskView::JumpIfFalse(_) => 1,
        TaskView::Binary(_) | TaskView::StoreWord | TaskView::StoreByte => 2,
        TaskView::Call(_, k) => k as nat,
    }
}

/// How many values a task, once done, has left on the value stack.
pub open spec fn pushes(t: TaskView) -> nat {
    match t {
        TaskView::StoreVar(_) | TaskView::StoreWord | TaskView::StoreByte | TaskView::Discard
        | TaskView::JumpIfFalse(_) => 0,
        _ => 1,
    }
}

/// Working through `ts` from the top, with `n` values available, no task
/// ever lacks a value.
pub open spec fn fits(ts: Seq<TaskView>, n: nat) -> bool
    decreases ts.len(),
{
    if ts.len() == 0 {
        true
    } else {
        pops(ts.last()) <= n && fits(ts.drop_last(), (n - pops(ts.last()) + pushes(ts.last())) as nat)
    }
}

/// The interpreter's state, seen as mathematical values.
pub struct State {
    /// The byte memory: the data segment, then one 4-byte slot per variable.
    pub memory: Seq<u8>,
    /// Each variable's offset into memory.
    pub vars: Map<Seq<char>, usize>,
    /// The index of the current instruction.
    pub ip: usize,
    /// Pending work; the last is done first.
    pub tasks: Seq<TaskView>,
    /// Values computed and not yet used; the last is on top.
    pub values: Seq<u32>,
    /// A call waits for its value from the outside.
    pub awaiting: bool,
}

/// The slot of variable `x`: memory and variable table after the lookup, and
/// the offset. A name seen for the first time gets four fresh zero bytes at the
/// end of memory.
pub open spec fn var_slot(mem: Seq<u8>, vars: Map<Seq<char>, usize>, x: Seq<char>) -> (
    Seq<u8>,
    Map<Seq<char>, usize>,
    usize,
) {
    if vars.contains_key(x) {
        (mem, vars, vars[x])
    } else {
        (mem + seq![0u8, 0u8, 0u8, 0u8], vars.insert(x, mem.len() as usize), mem.len() as usize)
    }
}

/// The name of the variable that carries a function's result.
pub open spec fn return_var() -> Seq<char> {
    seq!['a', 'n', 's']
}

/// The instruction after `ip`, never past the end.
pub open spec fn next_ip(ip: usize, len: nat) -> usize {
    if ip < len {
        (ip + 1) as usize
    } else {
        ip
    }
}

/// Memory and variables after binding each parameter to its argument, in
/// order; a parameter without an argument gets `0`. `None` when a slot lies
/// outside memory.
pub open spec fn bind_params(
    mem: Seq<u8>,
    vars: Map<Seq<char>, usize>,
    params: Seq<String>,
    args: Seq<u32>,
) -> Option<(Seq<u8>, Map<Seq<char>, usize>)>
    decreases params.len(),
{
    if params.len() == 0 {
        Some((mem, vars))
    } else {
        match bind_params(mem, vars, params.drop_last(), args) {
            None => None,
            Some((m, v)) => {
                let i = params.len() - 1;
                let value = if i < args.len() {
                    args[i]
                } else {
                    0u32
                };
                let slot = var_slot(m, v, params[i]@);
                if word_in_bounds(slot.0.len(), slot.2 as int) {
                    Some((write_word(slot.0, slot.2 as int, value), slot.1))
                } else {
                    None
                }
            },
        }
    }
}

/// The tasks that evaluate the arguments, the first one on top.
pub open spec fn arg_tasks(args: Seq<Expr>) -> Seq<TaskView> {
    Seq::new(args.len(), |i: int| TaskView::Eval(args[args.len() - 1 - i]))
}

/// What a step reports.
#[derive(Debug)]
pub enum Event {
    /// The step was internal.
    Continue,
    /// The instruction pointer is past the last instruction.
    Finished,
    /// The outside world must do this. For output and graphics the call's
    /// value (`0`) is already in place; for a key query or a sprite the caller
    /// hands the value back with `resume`; after `Exit` the run ends.
    Perform(Effect),
}

/// The state is one a run of `p` can be in: the instruction pointer and every
/// saved one are at most the number of instructions, and the pending tasks
/// never lack a value.
pub open spec fn state_wf(p: Program, s: State) -> bool {
    &&& s.ip <= p.ir().len()
    &&& saved_in_range(s.tasks, p.ir().len())
    &&& fits(s.tasks, s.values.len() + if s.awaiting {
        1nat
    } else {
        0nat
    })
}

/// The next instruction is fetched: no task is pending, or only a running call's.
pub open spec fn at_instruction(s: State) -> bool {
    s.tasks.len() == 0 || s.tasks.last() is Return
}

/// A jump to label `l`.
pub open spec fn jump_post(p: Program, s: State, l: Seq<char>, s2: State, r: Result<Event, Error>) -> bool {
    if p.labels().contains_key(l) {
        r == Ok::<Event, Error>(Event::Continue) && s2 == State { ip: p.labels()[l], ..s }
    } else {
        r matches Err(Error::LabelNotFound(n)) && n@ == l
    }
}

/// Fetching the instruction at `s.ip`.
pub open spec fn fetch_post(p: Program, s: State, s2: State, r: Result<Event, Error>) -> bool {
    let ir = p.ir();
    let cont = r == Ok::<Event, Error>(Event::Continue);
    if s.ip >= ir.len() {
        r == Ok::<Event, Error>(Event::Finished) && s2 == s
    } else {
        match ir[s.ip as int] {
            IrLine::Assign(AssignTarget::Var(x), e) => cont && s2 == State {
                tasks: s.tasks.push(TaskView::StoreVar(x@)).push(TaskView::Eval(e)),
                ..s
            },
            IrLine::Assign(AssignTarget::Addr(a), e) => cont && s2 == State {
                tasks: s.tasks.push(TaskView::StoreWord).push(TaskView::Eval(a)).push(
                    TaskView::Eval(e),
                ),
                ..s
            },
            IrLine::Assign(AssignTarget::ByteAddr(a), e) => cont && s2 == State {
                tasks: s.tasks.push(TaskView::StoreByte).push(TaskView::Eval(a)).push(
                    TaskView::Eval(e),
                ),
                ..s
            },
            IrLine::Goto(l) => jump_post(p, s, l, s2, r),
            IrLine::JumpFalse(e, l) => cont && s2 == State {
                tasks: s.tasks.push(TaskView::JumpIfFalse(l)).push(TaskView::Eval(e)),
                ..s
            },
            IrLine::Label(_) | IrLine::FunDeclaration(_, _) => cont && s2 == State {
                ip: (s.ip + 1) as usize,
                ..s
            },
            IrLine::FunReturn => match s.tasks.last() {
                TaskView::Return(saved) if s.tasks.len() > 0 => {
                    let slot = var_slot(s.memory, s.vars, return_var());
                    if word_in_bounds(slot.0.len(), slot.2 as int) {
                        cont && s2 == State {
                            memory: slot.0,
                            vars: slot.1,
                            ip: saved,
                            tasks: s.tasks.drop_last(),
                            values: s.values.push(read_word(slot.0, slot.2 as int)),
                            ..s
                        }
                    } else {
                        r == Err::<Event, Error>(
                            Error::U32OutOfBounds {
                                u32_read_index: slot.2,
                                memory_length: slot.0.len() as usize,
                            },
                        )
                    }
                },
                _ => cont && s2 == State { ip: (s.ip + 1) as usize, ..s },
            },
            IrLine::Expr(e) => cont && s2 == State {
                tasks: s.tasks.push(TaskView::Discard).push(TaskView::Eval(e)),
                ..s
            },
        }
    }
}

/// Working on `Eval(e)`, the top task.
pub open spec fn eval_post(s: State, e: Expr, s2: State, r: Result<Event, Error>) -> bool {
    let rest = s.tasks.drop_last();
    let cont = r == Ok::<Event, Error>(Event::Continue);
    match e {
        Expr::Literal(n) => cont && s2 == State { tasks: rest, values: s.values.push(n), ..s },
        Expr::Var(x) => {
            let slot = var_slot(s.memory, s.vars, x@);
            if word_in_bounds(slot.0.len(), slot.2 as int) {
                cont && s2 == State {
                    memory: slot.0,
                    vars: slot.1,
                    tasks: rest,
                    values: s.values.push(read_word(slot.0, slot.2 as int)),
                    ..s
                }
            } else {
                r == Err::<Event, Error>(
                    Error::U32OutOfBounds {
                        u32_read_index: slot.2,
                        memory_length: slot.0.len() as usize,
                    },
                )
            }
        },
        Expr::VarAddress(x) => {
            let slot = var_slot(s.memory, s.vars, x@);
            cont && s2 == State {
                memory: slot.0,
                vars: slot.1,
                tasks: rest,
                values: s.values.push(slot.2 as u32),
                ..s
            }
        },
        Expr::Deref(inner) => cont && s2 == State {
            tasks: rest.push(TaskView::LoadWord).push(TaskView::Eval(*inner)),
            ..s
        },
        Expr::DerefByte(inner) => cont && s2 == State {
            tasks: rest.push(TaskView::LoadByte).push(TaskView::Eval(*inner)),
            ..s
        },
        Expr::Invert(inner) => cont && s2 == State {
            tasks: rest.push(TaskView::Invert).push(TaskView::Eval(*inner)),
            ..s
        },
        Expr::FunCall(name, args) => cont && s2 == State {
            tasks: rest.push(TaskView::Call(name@, args@.len() as usize)) + arg_tasks(args@),
            ..s
        },
        _ => match binary_parts(e) {
            Some((op, l, rr)) => cont && s2 == State {
                tasks: rest.push(TaskView::Binary(op)).push(TaskView::Eval(rr)).push(
                    TaskView::Eval(l),
                ),
                ..s
            },
            None => false,
        },
    }
}

/// After an intrinsic amounted to `res`: `rest` are the tasks below the call,
/// `base` the values below its arguments.
pub open spec fn effect_post(
    s: State,
    rest: Seq<TaskView>,
    base: Seq<u32>,
    res: Result<Effect, Error>,
    s2: State,
    r: Result<Event, Error>,
) -> bool {
    match res {
        Err(e) => r == Err::<Event, Error>(e),
        Ok(eff) => match eff {
            Effect::Value(v) => r == Ok::<Event, Error>(Event::Continue) && s2 == State {
                tasks: rest,
                values: base.push(v),
                ..s
            },
            Effect::Output(_) | Effect::Graphics(_) | Effect::Exit => r == Ok::<Event, Error>(
                Event::Perform(eff),
            ) && s2 == State { tasks: rest, values: base.push(0u32), ..s },
            Effect::KeyPressed(_) | Effect::CreateMonoSprite { .. } => r == Ok::<Event, Error>(
                Event::Perform(eff),
            ) && s2 == State { tasks: rest, values: base, awaiting: true, ..s },
        },
    }
}

/// Working on `Call(name, k)`, the top task: an intrinsic of that name runs on
/// the `k` arguments; otherwise the user function of that name is entered.
pub open spec fn call_post(p: Program, s: State, name: Seq<char>, k: usize, s2: State, r: Result<Event, Error>) -> bool {
    let n = s.values.len();
    let args = s.values.subrange(n - k, n as int);
    let base = s.values.subrange(0, n - k);
    let rest = s.tasks.drop_last();
    match intrinsic_named(name) {
        Some(kind) => if count_accepted(expected_counts(kind), k as nat) {
            exists|res: Result<Effect, Error>|
                intrinsic_outcome(kind, args, s.memory, res) && effect_post(s, rest, base, res, s2, r)
        } else {
            r matches Err(Error::IntrinsicArgumentMismatch { expected, got, func_name })
                && expected_counts(kind) == Some(expected@) && got
                == k && func_name@ == name
        },
        None => if !p.labels().contains_key(name) {
            r matches Err(Error::FunctionNotFound(f)) && f@ == name
        } else {
            let entry = p.labels()[name];
            match p.ir()[entry as int] {
                IrLine::FunDeclaration(_, params) => match bind_params(s.memory, s.vars, params@, args) {
                    Some((m, v)) => r == Ok::<Event, Error>(Event::Continue) && s2 == State {
                        memory: m,
                        vars: v,
                        ip: entry,
                        tasks: rest.push(TaskView::Return(s.ip)),
                        values: base,
                        ..s
                    },
                    None => r is Err && r->Err_0 is U32OutOfBounds,
                },
                _ => r matches Err(Error::NameIsNotFunction(f)) && f@ == name,
            }
        },
    }
}

/// Working on the top task `t`, which is no `Eval`.
pub open spec fn task_post(p: Program, s: State, t: TaskView, s2: State, r: Result<Event, Error>) -> bool {
    let rest = s.tasks.drop_last();
    let n = s.values.len();
    let top = s.values.last();
    let below = s.values[n - 2];
    let popped = s.values.drop_last();
    let len = s.memory.len();
    let cont = r == Ok::<Event, Error>(Event::Continue);
    match t {
        TaskView::Invert => cont && s2 == State { tasks: rest, values: popped.push(!top), ..s },
        TaskView::Binary(op) => match binop_value(op, below, top) {
            Some(x) => cont && s2 == State {
                tasks: rest,
                values: popped.drop_last().push(x),
                ..s
            },
            None => r == Err::<Event, Error>(Error::DivisionByZero),
        },
        TaskView::LoadWord => if word_in_bounds(len, top as int) {
            cont && s2 == State {
                tasks: rest,
                values: popped.push(read_word(s.memory, top as int)),
                ..s
            }
        } else {
            r == Err::<Event, Error>(
                Error::U32OutOfBounds { u32_read_index: top as usize, memory_length: len as usize },
            )
        },
        TaskView::LoadByte => if (top as int) < len {
            cont && s2 == State {
                tasks: rest,
                values: popped.push(s.memory[top as int] as u32),
                ..s
            }
        } else {
            r == Err::<Event, Error>(
                Error::U8OutOfBounds { u8_read_index: top as usize, memory_length: len as usize },
            )
        },
        TaskView::Call(name, k) => call_post(p, s, name, k, s2, r),
        TaskView::StoreVar(x) => {
            let slot = var_slot(s.memory, s.vars, x);
            if word_in_bounds(slot.0.len(), slot.2 as int) {
                cont && s2 == State {
                    memory: write_word(slot.0, slot.2 as int, top),
                    vars: slot.1,
                    ip: next_ip(s.ip, p.ir().len()),
                    tasks: rest,
                    values: popped,
                    ..s
                }
            } else {
                r == Err::<Event, Error>(
                    Error::U32OutOfBounds {
                        u32_read_index: slot.2,
                        memory_length: slot.0.len() as usize,
                    },
                )
            }
        },
        TaskView::StoreWord => if word_in_bounds(len, top as int) {
            cont && s2 == State {
                memory: write_word(s.memory, top as int, below),
                ip: next_ip(s.ip, p.ir().len()),
                tasks: rest,
                values: popped.drop_last(),
                ..s
            }
        } else {
            r == Err::<Event, Error>(
                Error::U32OutOfBounds { u32_read_index: top as usize, memory_length: len as usize },
            )
        },
        TaskView::StoreByte => if (top as int) < len {
            cont && s2 == State {
                memory: s.memory.update(top as int, low_byte(below)),
                ip: next_ip(s.ip, p.ir().len()),
                tasks: rest,
                values: popped.drop_last(),
                ..s
            }
        } else {
            r == Err::<Event, Error>(
                Error::U8OutOfBounds { u8_read_index: top as usize, memory_length: len as usize },
            )
        },
        TaskView::Discard => cont && s2 == State {
            ip: next_ip(s.ip, p.ir().len()),
            tasks: rest,
            values: popped,
            ..s
        },
        TaskView::JumpIfFalse(l) => if top == 0 {
            jump_post(p, State { tasks: rest, values: popped, ..s }, l, s2, r)
        } else {
            cont && s2 == State { ip: next_ip(s.ip, p.ir().len()), tasks: rest, values: popped, ..s }
        },
        _ => false,
    }
}

/// One step from `s` to `s2`, reporting `r`.
pub open spec fn step_post(p: Program, s: State, s2: State, r: Result<Event, Error>) -> bool {
    if at_instruction(s) {
        fetch_post(p, s, s2, r)
    } else {
        match s.tasks.last() {
            TaskView::Eval(e) => eval_post(s, e, s2, r),
            t => task_post(p, s, t, s2, r),
        }
    }
}

/// The tasks seen as `TaskView`s.
pub open spec fn tasks_view<'a>(ts: Seq<Task<'a>>) -> Seq<TaskView> {
    ts.map_values(|t: Task<'a>| t@)
}

proof fn lemma_tasks_view_push<'a>(ts: Seq<Task<'a>>, t: Task<'a>)
    ensures
        tasks_view(ts.push(t)) == tasks_view(ts).push(t@),
{
    assert(tasks_view(ts.push(t)) =~= tasks_view(ts).push(t@));
}

proof fn lemma_tasks_view_pop<'a>(ts: Seq<Task<'a>>)
    requires
        ts.len() > 0,
    ensures
        tasks_view(ts.subrange(0, ts.len() - 1)) == tasks_view(ts).drop_last(),
        tasks_view(ts).last() == ts.last()@,
{
    assert(tasks_view(ts.subrange(0, ts.len() - 1)) =~= tasks_view(ts).drop_last());
}

/// Evaluating arguments leaves one value each: working through `ts` and the
/// argument tasks above it with `n` values is working through `ts` with `n`
/// and one more value per argument.
proof fn lemma_fits_args(ts: Seq<TaskView>, args: Seq<Expr>, n: nat)
    ensures
        fits(ts + arg_tasks(args), n) == fits(ts, n + args.len()),
    decreases args.len(),
{
    if args.len() > 0 {
        let rest = args.subrange(1, args.len() as int);
        let whole = ts + arg_tasks(args);
        assert(whole.drop_last() =~= ts + arg_tasks(rest));
        assert(whole.last() == TaskView::Eval(args[0]));
        lemma_fits_args(ts, rest, n + 1);
    } else {
        assert(ts + arg_tasks(args) =~= ts);
    }
}

/// Once binding a prefix of the parameters fails, binding them all fails.
proof fn lemma_bind_fails(
    mem: Seq<u8>,
    vars: Map<Seq<char>, usize>,
    params: Seq<String>,
    args: Seq<u32>,
    i: int,
)
    requires
        0 <= i <= params.len(),
        bind_params(mem, vars, params.subrange(0, i), args) is None,
    ensures
        bind_params(mem, vars, params, args) is None,
    decreases params.len() - i,
{
    if i < params.len() {
        let next = params.subrange(0, i + 1);
        assert(next.drop_last() =~= params.subrange(0, i));
        lemma_bind_fails(mem, vars, params, args, i + 1);
    } else {
        assert(params.subrange(0, i) =~= params);
    }
}

/// The operator and operands of a binary expression.
fn binary_operands(e: &Expr) -> (r: Option<(BinOp, &Expr, &Expr)>)
    ensures
        r matches Some((op, l, rr)) ==> binary_parts(*e) == Some((op, *l, *rr)),
        r is None ==> binary_parts(*e) is None,
{
    match e {
        Expr::Add(l, r) => Some((BinOp::Add, &**l, &**r)),
        Expr::Sub(l, r) => Some((BinOp::Sub, &**l, &**r)),
        Expr::Mul(l, r) => Some((BinOp::Mul, &**l, &**r)),
        Expr::Div(l, r) => Some((BinOp::Div, &**l, &**r)),
        Expr::Mod(l, r) => Some((BinOp::Mod, &**l, &**r)),
        Expr::Lt(l, r) => Some((BinOp::Lt, &**l, &**r)),
        Expr::Gt(l, r) => Some((BinOp::Gt, &**l, &**r)),
        Expr::Leq(l, r) => Some((BinOp::Leq, &**l, &**r)),
        Expr::Geq(l, r) => Some((BinOp::Geq, &**l, &**r)),
        Expr::Eq(l, r) => Some((BinOp::Eq, &**l, &**r)),
        Expr::Neq(l, r) => Some((BinOp::Neq, &**l, &**r)),
        Expr::BitAnd(l, r) => Some((BinOp::BitAnd, &**l, &**r)),
        Expr::BitOr(l, r) => Some((BinOp::BitOr, &**l, &**r)),
        Expr::BitXor(l, r) => Some((BinOp::BitXor, &**l, &**r)),
        Expr::Shl(l, r) => Some((BinOp::Shl, &**l, &**r)),
        Expr::Shr(l, r) => Some((BinOp::Shr, &**l, &**r)),
        _ => None,
    }
}

/// Every saved instruction pointer among the tasks is at most `len`.
pub open spec fn saved_in_range(ts: Seq<TaskView>, len: nat) -> bool {
    forall|i: int| #![trigger ts[i]]
        0 <= i < ts.len() ==> (ts[i] matches TaskView::Return(saved) ==> saved <= len)
}

proof fn lemma_saved_push(ts: Seq<TaskView>, t: TaskView, len: nat)
    requires
        saved_in_range(ts, len),
        t matches TaskView::Return(saved) ==> saved <= len,
    ensures
        saved_in_range(ts.push(t), len),
        ts.push(t).drop_last() == ts,
        ts.push(t).last() == t,
{
    assert(ts.push(t).drop_last() =~= ts);
    assert forall|i: int| #![trigger ts.push(t)[i]] 0 <= i < ts.push(t).len() implies (ts.push(
        t,
    )[i] matches TaskView::Return(saved) ==> saved <= len) by {
        if i < ts.len() {
            assert(ts.push(t)[i] == ts[i]);
        }
    }
}

proof fn lemma_saved_pop(ts: Seq<TaskView>, len: nat)
    requires
        saved_in_range(ts, len),
        ts.len() > 0,
    ensures
        saved_in_range(ts.drop_last(), len),
        ts.last() matches TaskView::Return(saved) ==> saved <= len,
{
    assert forall|i: int| #![trigger ts.drop_last()[i]] 0 <= i < ts.drop_last().len() implies (
    ts.drop_last()[i] matches TaskView::Return(saved) ==> saved <= len) by {
        assert(ts.drop_last()[i] == ts[i]);
    }
}

/// Working on an `Eval` task keeps the state one a run can be in.
proof fn lemma_eval_wf(p: Program, s: State, e: Expr, s2: State, r: Result<Event, Error>)
    requires
        state_wf(p, s),
        !s.awaiting,
        s.tasks.len() > 0,
        s.tasks.last() == TaskView::Eval(e),
        eval_post(s, e, s2, r),
        r is Ok,
        e matches Expr::FunCall(_, args) ==> args@.len() <= usize::MAX,
    ensures
        state_wf(p, s2),
{
    reveal_with_fuel(fits, 4);
    let len = p.ir().len();
    let rest = s.tasks.drop_last();
    let n = s.values.len();
    assert(s.tasks =~= rest.push(TaskView::Eval(e)));
    assert(saved_in_range(s.tasks, len));
    lemma_saved_pop(s.tasks, len);
    assert(fits(rest, n + 1));
    match e {
        Expr::Deref(inner) => {
            lemma_saved_push(rest, TaskView::LoadWord, len);
            lemma_saved_push(rest.push(TaskView::LoadWord), TaskView::Eval(*inner), len);
        },
        Expr::DerefByte(inner) => {
            lemma_saved_push(rest, TaskView::LoadByte, len);
            lemma_saved_push(rest.push(TaskView::LoadByte), TaskView::Eval(*inner), len);
        },
        Expr::Invert(inner) => {
            lemma_saved_push(rest, TaskView::Invert, len);
            lemma_saved_push(rest.push(TaskView::Invert), TaskView::Eval(*inner), len);
        },
        Expr::FunCall(name, args) => {
            let c = TaskView::Call(name@, args@.len() as usize);
            lemma_saved_push(rest, c, len);
            lemma_fits_args(rest.push(c), args@, n);
            let whole = rest.push(c) + arg_tasks(args@);
            assert forall|i: int| #![trigger whole[i]] 0 <= i < whole.len() implies (
            whole[i] matches TaskView::Return(saved) ==> saved <= len) by {
                if i < rest.len() + 1 {
                    assert(whole[i] == rest.push(c)[i]);
                }
            }
        },
        Expr::Literal(_) | Expr::Var(_) | Expr::VarAddress(_) => {},
        _ => {
            let (op, l, rr) = binary_parts(e)->Some_0;
            lemma_saved_push(rest, TaskView::Binary(op), len);
            lemma_saved_push(rest.push(TaskView::Binary(op)), TaskView::Eval(rr), len);
            lemma_saved_push(
                rest.push(TaskView::Binary(op)).push(TaskView::Eval(rr)),
                TaskView::Eval(l),
                len,
            );
        },
    }
}

/// Starting an instruction keeps the state one a run can be in.
proof fn lemma_fetch_wf(p: Program, s: State, s2: State, r: Result<Event, Error>)
    requires
        state_wf(p, s),
        p.wf(),
        p.ir().len() <= usize::MAX,
        !s.awaiting,
        at_instruction(s),
        fetch_post(p, s, s2, r),
        r is Ok,
    ensures
        state_wf(p, s2),
{
    reveal_with_fuel(fits, 4);
    let len = p.ir().len();
    let n = s.values.len();
    lemma_label_map(p.ir());
    p.lemma_wf();
    if s.ip < len {
        match p.ir()[s.ip as int] {
            IrLine::Assign(AssignTarget::Var(x), e) => {
                lemma_saved_push(s.tasks, TaskView::StoreVar(x@), len);
                lemma_saved_push(s.tasks.push(TaskView::StoreVar(x@)), TaskView::Eval(e), len);
            },
            IrLine::Assign(AssignTarget::Addr(a), e) => {
                lemma_saved_push(s.tasks, TaskView::StoreWord, len);
                lemma_saved_push(s.tasks.push(TaskView::StoreWord), TaskView::Eval(a), len);
                lemma_saved_push(
                    s.tasks.push(TaskView::StoreWord).push(TaskView::Eval(a)),
                    TaskView::Eval(e),
                    len,
                );
            },
            IrLine::Assign(AssignTarget::ByteAddr(a), e) => {
                lemma_saved_push(s.tasks, TaskView::StoreByte, len);
                lemma_saved_push(s.tasks.push(TaskView::StoreByte), TaskView::Eval(a), len);
                lemma_saved_push(
                    s.tasks.push(TaskView::StoreByte).push(TaskView::Eval(a)),
                    TaskView::Eval(e),
                    len,
                );
            },
            IrLine::JumpFalse(e, l) => {
                lemma_saved_push(s.tasks, TaskView::JumpIfFalse(l), len);
                lemma_saved_push(s.tasks.push(TaskView::JumpIfFalse(l)), TaskView::Eval(e), len);
            },
            IrLine::Expr(e) => {
                lemma_saved_push(s.tasks, TaskView::Discard, len);
                lemma_saved_push(s.tasks.push(TaskView::Discard), TaskView::Eval(e), len);
            },
            IrLine::FunReturn => {
                if s.tasks.len() > 0 {
                    lemma_saved_pop(s.tasks, len);
                    assert(s.tasks =~= s.tasks.drop_last().push(s.tasks.last()));
                }
            },
            _ => {},
        }
    }
}

/// Working on a task that uses values keeps the state one a run can be in.
proof fn lemma_task_wf(p: Program, s: State, t: TaskView, s2: State, r: Result<Event, Error>)
    requires
        state_wf(p, s),
        p.wf(),
        p.ir().len() <= usize::MAX,
        !s.awaiting,
        s.tasks.len() > 0,
        s.tasks.last() == t,
        !(t is Eval),
        !(t is Call),
        task_post(p, s, t, s2, r),
        r is Ok,
    ensures
        state_wf(p, s2),
{
    reveal_with_fuel(fits, 2);
    let len = p.ir().len();
    lemma_label_map(p.ir());
    p.lemma_wf();
    lemma_saved_pop(s.tasks, len);
    assert(s.tasks =~= s.tasks.drop_last().push(t));
}

/// Working on a call keeps the state one a run can be in.
proof fn lemma_call_wf(p: Program, s: State, name: Seq<char>, k: usize, s2: State, r: Result<Event, Error>)
    requires
        state_wf(p, s),
        p.wf(),
        p.ir().len() <= usize::MAX,
        !s.awaiting,
        s.tasks.len() > 0,
        s.tasks.last() == TaskView::Call(name, k),
        call_post(p, s, name, k, s2, r),
        r is Ok,
    ensures
        state_wf(p, s2),
{
    reveal_with_fuel(fits, 2);
    let len = p.ir().len();
    lemma_label_map(p.ir());
    p.lemma_wf();
    lemma_saved_pop(s.tasks, len);
    let rest = s.tasks.drop_last();
    assert(s.tasks =~= rest.push(TaskView::Call(name, k)));
    if intrinsic_named(name) is None {
        lemma_saved_push(rest, TaskView::Return(s.ip), len);
    }
}

/// The interpreter's working state for one run of a program: memory (the
/// data segment followed by the variables' slots), the variable table, the
/// instruction pointer, and the pending tasks and values.
pub struct Interpreter<'a> {
    memory: Vec<u8>,
    vars: NameTable,
    ip: usize,
    tasks: Vec<Task<'a>>,
    values: Vec<u32>,
    awaiting: bool,
}

impl<'a> View for Interpreter<'a> {
    type V = State;

    closed spec fn view(&self) -> State {
        State {
            memory: self.memory@,
            vars: self.vars@,
            ip: self.ip,
            tasks: tasks_view(self.tasks@),
            values: self.values@,
            awaiting: self.awaiting,
        }
    }
}

impl<'a> Interpreter<'a> {
    /// The variable table is well formed.
    pub closed spec fn inv(&self) -> bool {
        self.vars.wf()
    }

    /// The interpreter is in a state a run of `p` can be in.
    pub open spec fn wf(&self, p: Program) -> bool {
        self.inv() && state_wf(p, self@)
    }

    /// A fresh interpreter for `program`: memory is a copy of the data, each
    /// data label is a variable at its offset, and the first instruction is next.
    pub fn new(program: &'a Program) -> (r: Interpreter<'a>)
        requires
            program.wf(),
        ensures
            r.wf(*program),
            r@ == (State {
                memory: program.data(),
                vars: program.data_labels(),
                ip: 0,
                tasks: Seq::empty(),
                values: Seq::empty(),
                awaiting: false,
            }),
    {
        let data = program.data_bytes();
        let mut memory: Vec<u8> = Vec::new();
        let mut i: usize = 0;
        while i < data.len()
            invariant
                i <= data@.len(),
                memory@ == data@.subrange(0, i as int),
            decreases data@.len() - i,
        {
            memory.push(data[i]);
            i = i + 1;
            proof {
                assert(memory@ =~= data@.subrange(0, i as int));
            }
        }
        proof {
            assert(data@.subrange(0, data@.len() as int) =~= data@);
        }
        let vars = program.data_label_table().duplicate();
        let r = Interpreter {
            memory,
            vars,
            ip: 0,
            tasks: Vec::new(),
            values: Vec::new(),
            awaiting: false,
        };
        proof {
            assert(tasks_view(r.tasks@) =~= Seq::<TaskView>::empty());
        }
        r
    }

    /// The index of the instruction being run.
    pub fn instruction_pointer(&self) -> (r: usize)
        ensures
            r == self@.ip,
    {
        self.ip
    }

    /// Whether a call waits for its value from the outside (see `resume`).
    pub fn is_awaiting(&self) -> (r: bool)
        ensures
            r == self@.awaiting,
    {
        self.awaiting
    }

    /// The memory.
    pub fn memory(&self) -> (r: &Vec<u8>)
        ensures
            r@ == self@.memory,
    {
        &self.memory
    }

    /// The value of variable `name`, when it has a slot inside memory.
    pub fn variable(&self, name: &String) -> (r: Option<u32>)
        requires
            self.inv(),
        ensures
            r == (if self@.vars.contains_key(name@) && word_in_bounds(
                self@.memory.len(),
                self@.vars[name@] as int,
            ) {
                Some(read_word(self@.memory, self@.vars[name@] as int))
            } else {
                None
            }),
    {
        match self.vars.get(name) {
            Some(a) => {
                let len = self.memory.len();
                if a <= len && len - a >= 4 {
                    Some(load_word(&self.memory, a))
                } else {
                    None
                }
            },
            None => None,
        }
    }

    /// Hands a call that waits on the outside its value.
    pub fn resume(&mut self, value: u32)
        requires
            old(self).inv(),
            old(self)@.awaiting,
        ensures
            final(self).inv(),
            final(self)@ == (State {
                values: old(self)@.values.push(value),
                awaiting: false,
                ..old(self)@
            }),
    {
        self.values.push(value);
        self.awaiting = false;
    }

    /// Hands a key query its value: `1` when the key is held, `0` otherwise.
    pub fn resume_key(&mut self, pressed: bool)
        requires
            old(self).inv(),
            old(self)@.awaiting,
        ensures
            final(self).inv(),
            final(self)@ == (State {
                values: old(self)@.values.push(if pressed { 1u32 } else { 0u32 }),
                awaiting: false,
                ..old(self)@
            }),
    {
        self.resume(if pressed { 1 } else { 0 });
    }

    /// The offset of variable `name`, giving it a fresh zeroed slot at the end
    /// of memory when it has none.
    fn slot_of(&mut self, name: &String) -> (a: usize)
        requires
            old(self).inv(),
        ensures
            final(self).inv(),
            var_slot(old(self)@.memory, old(self)@.vars, name@) == (
                final(self)@.memory,
                final(self)@.vars,
                a,
            ),
            final(self)@ == (State {
                memory: final(self)@.memory,
                vars: final(self)@.vars,
                ..old(self)@
            }),
    {
        match self.vars.get(name) {
            Some(a) => a,
            None => {
                let a = self.memory.len();
                self.memory.push(0);
                self.memory.push(0);
                self.memory.push(0);
                self.memory.push(0);
                self.vars.insert(name.clone(), a);
                proof {
                    assert(self.memory@ =~= old(self).memory@ + seq![0u8, 0u8, 0u8, 0u8]);
                }
                a
            },
        }
    }

    /// Pushes tasks that evaluate `l`, then `r`, then apply `op`.
    fn push_binary(&mut self, op: BinOp, l: &'a Expr, r: &'a Expr)
        ensures
            final(self)@ == (State {
                tasks: old(self)@.tasks.push(TaskView::Binary(op)).push(TaskView::Eval(*r)).push(
                    TaskView::Eval(*l),
                ),
                ..old(self)@
            }),
            final(self).inv() == old(self).inv(),
    {
        proof {
            lemma_tasks_view_push(self.tasks@, Task::Binary(op));
            lemma_tasks_view_push(self.tasks@.push(Task::Binary(op)), Task::Eval(r));
            lemma_tasks_view_push(
                self.tasks@.push(Task::Binary(op)).push(Task::Eval(r)),
                Task::Eval(l),
            );
        }
        self.tasks.push(Task::Binary(op));
        self.tasks.push(Task::Eval(r));
        self.tasks.push(Task::Eval(l));
    }

    /// Pushes a task, then a task that evaluates `e` above it.
    fn push_then_eval(&mut self, t: Task<'a>, e: &'a Expr)
        ensures
            final(self)@ == (State {
                tasks: old(self)@.tasks.push(t@).push(TaskView::Eval(*e)),
                ..old(self)@
            }),
            final(self).inv() == old(self).inv(),
    {
        proof {
            lemma_tasks_view_push(self.tasks@, t);
            lemma_tasks_view_push(self.tasks@.push(t), Task::Eval(e));
        }
        self.tasks.push(t);
        self.tasks.push(Task::Eval(e));
    }

    /// Works on the top task, `Eval(e)`.
    fn eval_top(&mut self, program: &'a Program, e: &'a Expr) -> (r: Result<Event, Error>)
        requires
            old(self).wf(*program),
            !old(self)@.awaiting,
            old(self)@.tasks.len() > 0,
            old(self)@.tasks.last() == TaskView::Eval(*e),
        ensures
            final(self).inv(),
            eval_post(old(self)@, *e, final(self)@, r),
            r is Ok ==> final(self).wf(*program),
    {
        let ghost s0 = self@;
        proof {
            lemma_tasks_view_pop(self.tasks@);
        }
        self.tasks.pop();
        let ghost s1 = self@;
        assert(s1 == State { tasks: s0.tasks.drop_last(), ..s0 });
        let r = match e {
            Expr::Literal(n) => {
                self.values.push(*n);
                Ok(Event::Continue)
            },
            Expr::Var(x) => {
                let a = self.slot_of(x);
                let len = self.memory.len();
                if a <= len && len - a >= 4 {
                    let v = load_word(&self.memory, a);
                    self.values.push(v);
                    Ok(Event::Continue)
                } else {
                    Err(Error::U32OutOfBounds { u32_read_index: a, memory_length: len })
                }
            },
            Expr::VarAddress(x) => {
                let a = self.slot_of(x);
                self.values.push(a as u32);
                Ok(Event::Continue)
            },
            Expr::Deref(inner) => {
                self.push_then_eval(Task::LoadWord, &**inner);
                Ok(Event::Continue)
            },
            Expr::DerefByte(inner) => {
                self.push_then_eval(Task::LoadByte, &**inner);
                Ok(Event::Continue)
            },
            Expr::Invert(inner) => {
                self.push_then_eval(Task::Invert, &**inner);
                Ok(Event::Continue)
            },
            Expr::FunCall(name, args) => {
                proof {
                    lemma_tasks_view_push(self.tasks@, Task::Call(name, args.len()));
                }
                self.tasks.push(Task::Call(name, args.len()));
                let ghost base = self@.tasks;
                let mut i: usize = args.len();
                while i > 0
                    invariant
                        i <= args@.len(),
                        self@ == (State {
                            tasks: base + arg_tasks(args@.subrange(i as int, args@.len() as int)),
                            ..s1
                        }),
                        self.inv(),
                    decreases i,
                {
                    i = i - 1;
                    proof {
                        lemma_tasks_view_push(self.tasks@, Task::Eval(&args[i as int]));
                        assert(base + arg_tasks(args@.subrange(i as int, args@.len() as int)) =~= (
                        base + arg_tasks(args@.subrange(i + 1, args@.len() as int))).push(
                            TaskView::Eval(args@[i as int]),
                        ));
                    }
                    self.tasks.push(Task::Eval(&args[i]));
                }
                proof {
                    assert(args@.subrange(0, args@.len() as int) =~= args@);
                }
                Ok(Event::Continue)
            },
            _ => {
                match binary_operands(e) {
                    Some((op, l, r)) => {
                        self.push_binary(op, l, r);
                        Ok(Event::Continue)
                    },
                    None => {
                        proof {
                            assert(false);
                        }
                        Ok(Event::Continue)
                    },
                }
            },
        };
        proof {
            if r is Ok {
                lemma_eval_wf(*program, s0, *e, self@, r);
            }
        }
        r
    }

    /// Pushes a task.
    fn push_task(&mut self, t: Task<'a>)
        ensures
            final(self)@ == (State { tasks: old(self)@.tasks.push(t@), ..old(self)@ }),
            final(self).inv() == old(self).inv(),
    {
        proof {
            lemma_tasks_view_push(self.tasks@, t);
        }
        self.tasks.push(t);
    }

    /// Jumps to label `l`.
    fn jump(&mut self, program: &'a Program, l: &String) -> (r: Result<Event, Error>)
        requires
            program.wf(),
        ensures
            jump_post(*program, old(self)@, l@, final(self)@, r),
            final(self).inv() == old(self).inv(),
    {
        let table = program.label_table();
        match table.get(l) {
            Some(i) => {
                self.ip = i;
                Ok(Event::Continue)
            },
            None => Err(Error::LabelNotFound(l.clone())),
        }
    }

    /// Fetches the instruction at the instruction pointer and starts it.
    fn fetch(&mut self, program: &'a Program) -> (r: Result<Event, Error>)
        requires
            old(self).wf(*program),
            program.wf(),
            !old(self)@.awaiting,
            at_instruction(old(self)@),
        ensures
            final(self).inv(),
            fetch_post(*program, old(self)@, final(self)@, r),
            r is Ok ==> final(self).wf(*program),
    {
        let ghost s0 = self@;
        let len = program.len();
        if self.ip >= len {
            return Ok(Event::Finished);
        }
        let r = match program.line(self.ip) {
            IntermediateLine::Assign(target, e) => {
                match target {
                    AssignTarget::Var(x) => self.push_then_eval(Task::StoreVar(x), e),
                    AssignTarget::Addr(a) => {
                        self.push_task(Task::StoreWord);
                        self.push_then_eval(Task::Eval(a), e);
                    },
                    AssignTarget::ByteAddr(a) => {
                        self.push_task(Task::StoreByte);
                        self.push_then_eval(Task::Eval(a), e);
                    },
                }
                Ok(Event::Continue)
            },
            IntermediateLine::Goto(l) => self.jump(program, l),
            IntermediateLine::JumpFalse(e, l) => {
                self.push_then_eval(Task::JumpIfFalse(l), e);
                Ok(Event::Continue)
            },
            IntermediateLine::Label(_) | IntermediateLine::FunDeclaration(_, _) => {
                self.ip = self.ip + 1;
                Ok(Event::Continue)
            },
            IntermediateLine::FunReturn => {
                let n = self.tasks.len();
                if n > 0 {
                    match self.tasks[n - 1] {
                        Task::Return(saved) => {
                            proof {
                                lemma_tasks_view_pop(self.tasks@);
                            }
                            self.tasks.pop();
                            self.ip = saved;
                            let ans = String::from_str("ans");
                            proof {
                                reveal_strlit("ans");
                                assert(ans@ =~= return_var());
                            }
                            let a = self.slot_of(&ans);
                            let mem_len = self.memory.len();
                            if a <= mem_len && mem_len - a >= 4 {
                                let v = load_word(&self.memory, a);
                                self.values.push(v);
                                Ok(Event::Continue)
                            } else {
                                Err(Error::U32OutOfBounds { u32_read_index: a, memory_length: mem_len })
                            }
                        },
                        _ => {
                            proof {
                                lemma_tasks_view_pop(self.tasks@);
                                assert(false);
                            }
                            Ok(Event::Continue)
                        },
                    }
                } else {
                    self.ip = self.ip + 1;
                    Ok(Event::Continue)
                }
            },
            IntermediateLine::Expr(e) => {
                self.push_then_eval(Task::Discard, e);
                Ok(Event::Continue)
            },
        };
        proof {
            if r is Ok {
                lemma_fetch_wf(*program, s0, self@, r);
            }
        }
        r
    }

    /// Pops the top value.
    fn pop_value(&mut self) -> (v: u32)
        requires
            old(self)@.values.len() > 0,
        ensures
            v == old(self)@.values.last(),
            final(self)@ == (State { values: old(self)@.values.drop_last(), ..old(self)@ }),
            final(self).inv() == old(self).inv(),
    {
        self.values.pop().unwrap()
    }

    /// Works on the top task `t`: one that uses values and is no call.
    fn run_task(&mut self, program: &'a Program, t: Task<'a>) -> (r: Result<Event, Error>)
        requires
            old(self).wf(*program),
            program.wf(),
            !old(self)@.awaiting,
            old(self)@.tasks.len() > 0,
            old(self)@.tasks.last() == t@,
            !(t is Eval),
            !(t is Call),
            !(t is Return),
        ensures
            final(self).inv(),
            task_post(*program, old(self)@, t@, final(self)@, r),
            r is Ok ==> final(self).wf(*program),
    {
        let ghost s0 = self@;
        let len = program.len();
        proof {
            reveal_with_fuel(fits, 2);
            lemma_tasks_view_pop(self.tasks@);
            assert(s0.tasks =~= s0.tasks.drop_last().push(t@));
        }
        self.tasks.pop();
        let top = self.pop_value();
        let r = match t {
            Task::Invert => {
                self.values.push(!top);
                Ok(Event::Continue)
            },
            Task::Binary(op) => {
                let below = self.pop_value();
                match apply_binop(op, below, top) {
                    Some(x) => {
                        self.values.push(x);
                        Ok(Event::Continue)
                    },
                    None => Err(Error::DivisionByZero),
                }
            },
            Task::LoadWord => {
                let a = top as usize;
                let mem_len = self.memory.len();
                if a <= mem_len && mem_len - a >= 4 {
                    let v = load_word(&self.memory, a);
                    self.values.push(v);
                    Ok(Event::Continue)
                } else {
                    Err(Error::U32OutOfBounds { u32_read_index: a, memory_length: mem_len })
                }
            },
            Task::LoadByte => {
                let a = top as usize;
                let mem_len = self.memory.len();
                if a < mem_len {
                    let v = self.memory[a] as u32;
                    self.values.push(v);
                    Ok(Event::Continue)
                } else {
                    Err(Error::U8OutOfBounds { u8_read_index: a, memory_length: mem_len })
                }
            },
            Task::StoreVar(x) => {
                let a = self.slot_of(x);
                let mem_len = self.memory.len();
                if a <= mem_len && mem_len - a >= 4 {
                    store_word(&mut self.memory, a, top);
                    self.advance(len);
                    Ok(Event::Continue)
                } else {
                    Err(Error::U32OutOfBounds { u32_read_index: a, memory_length: mem_len })
                }
            },
            Task::StoreWord => {
                let value = self.pop_value();
                let a = top as usize;
                let mem_len = self.memory.len();
                if a <= mem_len && mem_len - a >= 4 {
                    store_word(&mut self.memory, a, value);
                    self.advance(len);
                    Ok(Event::Continue)
                } else {
                    Err(Error::U32OutOfBounds { u32_read_index: a, memory_length: mem_len })
                }
            },
            Task::StoreByte => {
                let value = self.pop_value();
                let a = top as usize;
                let mem_len = self.memory.len();
                if a < mem_len {
                    self.memory.set(a, (value & 0xff) as u8);
                    self.advance(len);
                    Ok(Event::Continue)
                } else {
                    Err(Error::U8OutOfBounds { u8_read_index: a, memory_length: mem_len })
                }
            },
            Task::Discard => {
                self.advance(len);
                Ok(Event::Continue)
            },
            Task::JumpIfFalse(l) => {
                if top == 0 {
                    self.jump(program, l)
                } else {
                    self.advance(len);
                    Ok(Event::Continue)
                }
            },
            _ => {
                proof {
                    assert(false);
                }
                Ok(Event::Continue)
            },
        };
        proof {
            if r is Ok {
                lemma_task_wf(*program, s0, t@, self@, r);
            }
        }
        r
    }

    /// Moves to the next instruction, never past the end.
    fn advance(&mut self, len: usize)
        ensures
            final(self)@ == (State { ip: next_ip(old(self)@.ip, len as nat), ..old(self)@ }),
            final(self).inv() == old(self).inv(),
    {
        if self.ip < len {
            self.ip = self.ip + 1;
        }
    }

    /// Binds each parameter, in order, to its argument, or to `0` when the
    /// arguments run out; extra arguments are ignored.
    fn bind_arguments(&mut self, params: &Vec<String>, args: &Vec<u32>) -> (r: Result<(), Error>)
        requires
            old(self).inv(),
        ensures
            final(self).inv(),
            match bind_params(old(self)@.memory, old(self)@.vars, params@, args@) {
                Some((m, v)) => r is Ok && final(self)@ == (State {
                    memory: m,
                    vars: v,
                    ..old(self)@
                }),
                None => r is Err && r->Err_0 is U32OutOfBounds,
            },
    {
        let ghost s0 = self@;
        let mut i: usize = 0;
        proof {
            assert(params@.subrange(0, 0) =~= Seq::<String>::empty());
        }
        while i < params.len()
            invariant
                self.inv(),
                i <= params@.len(),
                bind_params(s0.memory, s0.vars, params@.subrange(0, i as int), args@) == Some(
                    (self@.memory, self@.vars),
                ),
                self@ == (State { memory: self@.memory, vars: self@.vars, ..s0 }),
                s0 == old(self)@,
            decreases params@.len() - i,
        {
            let ghost prefix = params@.subrange(0, i + 1);
            proof {
                assert(prefix.drop_last() =~= params@.subrange(0, i as int));
            }
            let value = if i < args.len() {
                args[i]
            } else {
                0u32
            };
            let ghost pre = self@;
            let a = self.slot_of(&params[i]);
            let mem_len = self.memory.len();
            proof {
                assert(prefix[i as int] == params@[i as int]);
                assert(var_slot(pre.memory, pre.vars, prefix[i as int]@) == (
                    self@.memory,
                    self@.vars,
                    a,
                ));
            }
            if a <= mem_len && mem_len - a >= 4 {
                store_word(&mut self.memory, a, value);
            } else {
                proof {
                    assert(bind_params(s0.memory, s0.vars, prefix, args@) is None);
                    lemma_bind_fails(s0.memory, s0.vars, params@, args@, i + 1);
                }
                return Err(Error::U32OutOfBounds { u32_read_index: a, memory_length: mem_len });
            }
            i = i + 1;
        }
        proof {
            assert(params@.subrange(0, params@.len() as int) =~= params@);
        }
        Ok(())
    }

    /// Enters the user function `name` with the given arguments: binds its
    /// parameters, saves the instruction pointer, and jumps to its entry.
    fn enter_function(&mut self, program: &'a Program, name: &'a String, args: &Vec<u32>) -> (r:
        Result<Event, Error>)
        requires
            old(self).inv(),
            program.wf(),
        ensures
            final(self).inv(),
            !program.labels().contains_key(name@) ==> (r matches Err(Error::FunctionNotFound(f))
                && f@ == name@),
            program.labels().contains_key(name@) ==> ({
                let entry = program.labels()[name@];
                &&& entry < program.ir().len()
                &&& match program.ir()[entry as int] {
                    IrLine::FunDeclaration(_, params) => match bind_params(
                        old(self)@.memory,
                        old(self)@.vars,
                        params@,
                        args@,
                    ) {
                        Some((m, v)) => r == Ok::<Event, Error>(Event::Continue) && final(self)@ == (
                        State {
                            memory: m,
                            vars: v,
                            ip: entry,
                            tasks: old(self)@.tasks.push(TaskView::Return(old(self)@.ip)),
                            ..old(self)@
                        }),
                        None => r is Err && r->Err_0 is U32OutOfBounds,
                    },
                    _ => r matches Err(Error::NameIsNotFunction(f)) && f@ == name@,
                }
            }),
    {
        let len = program.len();
        proof {
            lemma_label_map(program.ir());
            program.lemma_wf();
        }
        let table = program.label_table();
        match table.get(name) {
            None => Err(Error::FunctionNotFound(name.clone())),
            Some(entry) => {
                match program.line(entry) {
                    IntermediateLine::FunDeclaration(_, params) => {
                        match self.bind_arguments(params, args) {
                            Ok(()) => {
                                let saved = self.ip;
                                self.push_task(Task::Return(saved));
                                self.ip = entry;
                                Ok(Event::Continue)
                            },
                            Err(e) => Err(e),
                        }
                    },
                    _ => Err(Error::NameIsNotFunction(name.clone())),
                }
            },
        }
    }

    /// Works on the top task, `Call(name, k)`.
    fn call_task(&mut self, program: &'a Program, name: &'a String, k: usize) -> (r: Result<
        Event,
        Error,
    >)
        requires
            old(self).wf(*program),
            program.wf(),
            !old(self)@.awaiting,
            old(self)@.tasks.len() > 0,
            old(self)@.tasks.last() == TaskView::Call(name@, k),
        ensures
            final(self).inv(),
            call_post(*program, old(self)@, name@, k, final(self)@, r),
            r is Ok ==> final(self).wf(*program),
    {
        let ghost s0 = self@;
        let _ = program.len();
        proof {
            reveal_with_fuel(fits, 2);
            lemma_tasks_view_pop(self.tasks@);
            assert(s0.tasks =~= s0.tasks.drop_last().push(TaskView::Call(name@, k)));
        }
        self.tasks.pop();
        let n = self.values.len();
        let args = self.values.split_off(n - k);
        let ghost s1 = self@;
        let r = match try_execute_intrinsic(name, &args, &self.memory) {
            Some(res) => {
                let ghost outcome = res;
                let r = match res {
                    Ok(Effect::Value(v)) => {
                        self.values.push(v);
                        Ok(Event::Continue)
                    },
                    Ok(effect) => {
                        if matches!(effect, Effect::KeyPressed(_) | Effect::CreateMonoSprite { .. }) {
                            self.awaiting = true;
                        } else {
                            self.values.push(0);
                        }
                        Ok(Event::Perform(effect))
                    },
                    Err(e) => Err(e),
                };
                proof {
                    let kind = intrinsic_named(name@)->Some_0;
                    if count_accepted(expected_counts(kind), k as nat) {
                        assert(intrinsic_outcome(kind, args@, s0.memory, outcome));
                        assert(effect_post(s0, s1.tasks, s1.values, outcome, self@, r));
                    }
                }
                r
            },
            None => self.enter_function(program, name, &args),
        };
        proof {
            if r is Ok {
                lemma_call_wf(*program, s0, name@, k, self@, r);
            }
        }
        r
    }

    /// Runs one step: starts the next instruction, or works on the top task.
    /// Returns what the outside must do, `Finished` once the instruction
    /// pointer is past the end, or the error that stops the run.
    pub fn step(&mut self, program: &'a Program) -> (r: Result<Event, Error>)
        requires
            old(self).wf(*program),
            program.wf(),
            !old(self)@.awaiting,
        ensures
            final(self).inv(),
            step_post(*program, old(self)@, final(self)@, r),
            r is Ok ==> final(self).wf(*program),
    {
        let n = self.tasks.len();
        if n == 0 {
            return self.fetch(program);
        }
        let t = self.tasks[n - 1];
        proof {
            lemma_tasks_view_pop(self.tasks@);
        }
        match t {
            Task::Return(_) => self.fetch(program),
            Task::Eval(e) => self.eval_top(program, e),
            Task::Call(name, k) => self.call_task(program, name, k),
            _ => self.run_task(program, t),
        }
    }
}

/// The parameters have distinct names, and those that already are variables
/// have slots inside memory that do not overlap.
pub open spec fn params_separate(mem: Seq<u8>, vars: Map<Seq<char>, usize>, params: Seq<String>) -> bool {
    &&& forall|i: int, j: int| 0 <= i < j < params.len() ==> params[i]@ != params[j]@
    &&& forall|i: int| #![trigger params[i]]
        0 <= i < params.len() && vars.contains_key(params[i]@) ==> word_in_bounds(
            mem.len(),
            vars[params[i]@] as int,
        )
    &&& forall|i: int, j: int|
        #![trigger params[i], params[j]]
        0 <= i < params.len() && 0 <= j < params.len() && i != j && vars.contains_key(params[i]@)
            && vars.contains_key(params[j]@) ==> vars[params[i]@] + 4 <= vars[params[j]@]
            || vars[params[j]@] + 4 <= vars[params[i]@]
}

/// The value parameter `i` is bound to: its argument, or `0` past the last argument.
pub open spec fn param_value(args: Seq<u32>, i: int) -> u32 {
    if i < args.len() {
        args[i]
    } else {
        0u32
    }
}

/// Writing a word leaves a word elsewhere unchanged.
proof fn lemma_write_elsewhere(mem: Seq<u8>, a: int, v: u32, b: int)
    requires
        word_in_bounds(mem.len(), a),
        word_in_bounds(mem.len(), b),
        a + 4 <= b || b + 4 <= a,
    ensures
        read_word(write_word(mem, a, v), b) == read_word(mem, b),
        write_word(mem, a, v).len() == mem.len(),
{
    let w = write_word(mem, a, v);
    assert(w[b] == mem[b] && w[b + 1] == mem[b + 1] && w[b + 2] == mem[b + 2] && w[b + 3] == mem[
        b + 3]);
}

/// Binding the first `j` parameters: each reads its value, has a slot inside
/// memory, and the slot is its old one or lies past the old memory; the other
/// parameters keep their old slots.
proof fn lemma_bind_prefix(
    mem: Seq<u8>,
    vars: Map<Seq<char>, usize>,
    params: Seq<String>,
    args: Seq<u32>,
    j: int,
)
    requires
        params_separate(mem, vars, params),
        0 <= j <= params.len(),
        mem.len() + 4 * params.len() <= usize::MAX,
    ensures
        bind_params(mem, vars, params.subrange(0, j), args) is Some,
        ({
            let (m, v) = bind_params(mem, vars, params.subrange(0, j), args)->Some_0;
            &&& mem.len() <= m.len() <= mem.len() + 4 * j
            &&& forall|i: int| #![trigger params[i]]
                0 <= i < j ==> v.contains_key(params[i]@) && word_in_bounds(
                    m.len(),
                    v[params[i]@] as int,
                ) && read_word(m, v[params[i]@] as int) == param_value(args, i) && (if vars.contains_key(
                    params[i]@,
                ) {
                    v[params[i]@] == vars[params[i]@]
                } else {
                    v[params[i]@] >= mem.len()
                })
            &&& forall|i: int| #![trigger params[i]]
                j <= i < params.len() ==> (v.contains_key(params[i]@) == vars.contains_key(
                    params[i]@,
                ) && (vars.contains_key(params[i]@) ==> v[params[i]@] == vars[params[i]@]))
        }),
    decreases j,
{
    if j > 0 {
        let pre = params.subrange(0, j - 1);
        let cur = params.subrange(0, j);
        assert(cur.drop_last() =~= pre);
        lemma_bind_prefix(mem, vars, params, args, j - 1);
        let (m, v) = bind_params(mem, vars, pre, args)->Some_0;
        let k = j - 1;
        assert(cur[k] == params[k]);
        let slot = var_slot(m, v, params[k]@);
        let a = slot.2 as int;
        let m1 = slot.0;
        let v1 = slot.1;
        if !v.contains_key(params[k]@) {
            assert(a == m.len());
        }
        assert(word_in_bounds(m1.len(), a));
        let m2 = write_word(m1, a, param_value(args, k));
        assert(bind_params(mem, vars, cur, args) == Some((m2, v1)));
        crate::memory::lemma_word_round_trip(m1, a, param_value(args, k));
        assert forall|i: int| #![trigger params[i]] 0 <= i < j implies v1.contains_key(params[i]@)
            && word_in_bounds(m2.len(), v1[params[i]@] as int) && read_word(
            m2,
            v1[params[i]@] as int,
        ) == param_value(args, i) && (if vars.contains_key(params[i]@) {
            v1[params[i]@] == vars[params[i]@]
        } else {
            v1[params[i]@] >= mem.len()
        }) by {
            if i < k {
                assert(params[i]@ != params[k]@);
                let b = v[params[i]@] as int;
                assert(v1[params[i]@] == v[params[i]@]);
                if vars.contains_key(params[k]@) && vars.contains_key(params[i]@) {
                    assert(vars[params[i]@] + 4 <= vars[params[k]@] || vars[params[k]@] + 4
                        <= vars[params[i]@]);
                }
                assert(word_in_bounds(m1.len(), b));
                assert(read_word(m1, b) == read_word(m, b));
                lemma_write_elsewhere(m1, a, param_value(args, k), b);
            }
        }
        assert forall|i: int| #![trigger params[i]] j <= i < params.len() implies (v1.contains_key(
            params[i]@,
        ) == vars.contains_key(params[i]@) && (vars.contains_key(params[i]@) ==> v1[params[i]@]
            == vars[params[i]@])) by {
            assert(params[i]@ != params[k]@);
        }
    }
}

/// The call convention's binding: when a function is called, each parameter
/// is bound to its argument, and a parameter past the last argument to `0`;
/// arguments past the last parameter are not bound at all.
pub proof fn lemma_bind_params_values(
    mem: Seq<u8>,
    vars: Map<Seq<char>, usize>,
    params: Seq<String>,
    args: Seq<u32>,
)
    requires
        params_separate(mem, vars, params),
        mem.len() + 4 * params.len() <= usize::MAX,
    ensures
        bind_params(mem, vars, params, args) is Some,
        ({
            let (m, v) = bind_params(mem, vars, params, args)->Some_0;
            forall|i: int| #![trigger params[i]]
                0 <= i < params.len() ==> v.contains_key(params[i]@) && read_word(
                    m,
                    v[params[i]@] as int,
                ) == param_value(args, i)
        }),
{
    lemma_bind_prefix(mem, vars, params, args, params.len() as int);
    assert(params.subrange(0, params.len() as int) =~= params);
}

/// The call convention's result: at a function-return marker reached inside a
/// call, the step goes back to the calling instruction and the call's value is
/// what `ans` holds at that moment.
pub proof fn lemma_return_yields_ans(p: Program, s: State, s2: State, r: Result<Event, Error>)
    requires
        s.ip < p.ir().len(),
        p.ir()[s.ip as int] == IrLine::FunReturn,
        s.tasks.len() > 0,
        s.tasks.last() is Return,
        s.vars.contains_key(return_var()),
        word_in_bounds(s.memory.len(), s.vars[return_var()] as int),
        step_post(p, s, s2, r),
    ensures
        r == Ok::<Event, Error>(Event::Continue),
        s2.ip == s.tasks.last()->Return_0,
        s2.tasks == s.tasks.drop_last(),
        s2.values == s.values.push(read_word(s.memory, s.vars[return_var()] as int)),
        s2.memory == s.memory,
{
}

/// Calling a declared function: the step enters the function's entry, saves
/// the calling instruction, and binds each parameter to its argument, or to
/// `0` when the call has fewer arguments; extra arguments are ignored.
pub proof fn lemma_call_binds_arguments(
    p: Program,
    s: State,
    s2: State,
    r: Result<Event, Error>,
    name: Seq<char>,
    k: usize,
    params: Vec<String>,
)
    requires
        !at_instruction(s),
        s.tasks.last() == TaskView::Call(name, k),
        k <= s.values.len(),
        intrinsic_named(name) is None,
        p.labels().contains_key(name),
        p.ir()[p.labels()[name] as int] matches IrLine::FunDeclaration(_, ps) && ps == params,
        params_separate(s.memory, s.vars, params@),
        s.memory.len() + 4 * params@.len() <= usize::MAX,
        step_post(p, s, s2, r),
    ensures
        r == Ok::<Event, Error>(Event::Continue),
        s2.ip == p.labels()[name],
        s2.tasks == s.tasks.drop_last().push(TaskView::Return(s.ip)),
        forall|i: int| #![trigger params@[i]]
            0 <= i < params@.len() ==> s2.vars.contains_key(params@[i]@) && read_word(
                s2.memory,
                s2.vars[params@[i]@] as int,
            ) == param_value(s.values.subrange(s.values.len() - k, s.values.len() as int), i),
{
    let args = s.values.subrange(s.values.len() - k, s.values.len() as int);
    lemma_bind_params_values(s.memory, s.vars, params@, args);
}

} // verus!
