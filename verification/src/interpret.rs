//! The tree-walking interpreter: executes an instruction sequence against a
//! shared operand stack, recursing into conditional bodies, reading input
//! lines and writing display text through an explicit channel value, and
//! signalling process termination as a distinguished result rather than
//! exiting from inside the walk.

use vstd::prelude::*;
use crate::instruction::{Instr, InstrV, instr_model, body_model};
use crate::stackval::{StackVal, SpecVal, spec_render, spec_vals_eq, render};
use crate::numfmt::{spec_parse_i64, parse_chars_i64};
use crate::clock::format_local_now;

verus! {

broadcast use
    vstd::seq::axiom_seq_index_decreases,
    vstd::seq::axiom_seq_subrange_decreases,
    vstd::std_specs::vec::axiom_vec_decreases_to_view,
    vstd::std_specs::vec::axiom_vec_index_decreases;

/// The interpreter's channel to the world: lines waiting to be read, and the
/// text written so far by the printing instructions.
#[derive(Debug)]
pub struct Io {
    pub input: Vec<Vec<char>>,
    pub output: Vec<char>,
}

/// How a run ended when it did not fail: it ran off the end of the sequence,
/// or a terminator asked for the process to end with this status.
#[derive(Debug, PartialEq, Eq, Clone, Copy)]
pub enum Flow {
    Ran,
    Exited(i64),
}

/// The instruction named by an interpretation error.
#[derive(Debug, PartialEq, Eq, Clone, Copy)]
pub enum InstrTag {
    Print,
    PrintLn,
    Read,
    Div,
    Plus,
    Sub,
    Mul,
    GreaterThan,
    LessThan,
    Sum,
    ParseNum,
    Reverse,
    GenRange,
    FlipStack,
    Pop,
    PushStr,
    PushNum,
    Syscall,
    Time,
    TimeFmt,
    IfStmt,
    Eq,
    Not,
    ClearStack,
    PrintStack,
    PrintStackLn,
    ShowStack,
    Exit,
}

/// What went wrong with one instruction.
#[derive(Debug, PartialEq, Eq, Clone, Copy)]
pub enum ErrKind {
    /// Fewer elements on the stack than the instruction's arity.
    Underflow,
    /// An operand had to be a number and was not.
    NotANumber,
    /// An operand had to be a boolean and was not.
    NotABool,
    /// An operand had to be a text and was not.
    NotAString,
    /// The number-parsing instruction met malformed text.
    BadParse,
    /// An arithmetic result does not fit the number type, or a division by
    /// zero.
    Overflow,
    /// A syscall code other than the one defined.
    UnknownSyscall,
    /// A read with no input line left.
    NoInput,
    /// A time format pattern the formatter rejects.
    BadTimeFormat,
}

/// An interpretation error: the instruction, its 0-based index in the
/// sequence being executed, and what went wrong.
#[derive(Debug, PartialEq, Eq, Clone, Copy)]
pub struct InterpretError {
    pub index: usize,
    pub instr: InstrTag,
    pub kind: ErrKind,
}

// ---------------------------------------------------------------------------
// The mathematical state and one-step outcomes
// ---------------------------------------------------------------------------

/// The model of the interpreter's state: the operand stack (last element on
/// top), the input lines still unread, and the text written so far.
#[verifier::ext_equal]
pub struct StateV {
    pub stack: Seq<SpecVal>,
    pub input: Seq<Seq<char>>,
    pub output: Seq<char>,
}

/// The outcome of running zero or more instructions from a state.
#[verifier::ext_equal]
pub enum StepOut {
    /// Execution went through; this is the state after.
    Cont(StateV),
    /// A terminator asked to end the process with this status.
    Exit(StateV, i64),
    /// An instruction failed; the state is the one at the failure, the
    /// failing instruction having changed nothing.
    Fail(StateV, InterpretError),
}

pub open spec fn stack_model(s: Seq<StackVal>) -> Seq<SpecVal> {
    Seq::new(s.len(), |i: int| s[i]@)
}

pub open spec fn input_model(s: Seq<Vec<char>>) -> Seq<Seq<char>> {
    Seq::new(s.len(), |i: int| s[i]@)
}

pub open spec fn state_of(stack: Seq<StackVal>, input: Seq<Vec<char>>, output: Seq<char>) -> StateV {
    StateV { stack: stack_model(stack), input: input_model(input), output }
}

pub proof fn lemma_sm_push(s: Seq<StackVal>, x: StackVal)
    ensures
        stack_model(s.push(x)) == stack_model(s).push(x@),
{
    assert(stack_model(s.push(x)) =~= stack_model(s).push(x@));
}

pub proof fn lemma_sm_drop_last(s: Seq<StackVal>)
    requires
        s.len() > 0,
    ensures
        stack_model(s.drop_last()) == stack_model(s).drop_last(),
{
    assert(stack_model(s.drop_last()) =~= stack_model(s).drop_last());
}

pub open spec fn tag_of(i: InstrV) -> InstrTag {
    match i {
        InstrV::Print => InstrTag::Print,
        InstrV::PrintLn => InstrTag::PrintLn,
        InstrV::Read => InstrTag::Read,
        InstrV::Div => InstrTag::Div,
        InstrV::Plus => InstrTag::Plus,
        InstrV::Sub => InstrTag::Sub,
        InstrV::Mul => InstrTag::Mul,
        InstrV::GreaterThan => InstrTag::GreaterThan,
        InstrV::LessThan => InstrTag::LessThan,
        InstrV::Sum => InstrTag::Sum,
        InstrV::ParseNum => InstrTag::ParseNum,
        InstrV::Reverse => InstrTag::Reverse,
        InstrV::GenRange => InstrTag::GenRange,
        InstrV::FlipStack => InstrTag::FlipStack,
        InstrV::Pop => InstrTag::Pop,
        InstrV::PushStr(_) => InstrTag::PushStr,
        InstrV::PushNum(_) => InstrTag::PushNum,
        InstrV::Syscall => InstrTag::Syscall,
        InstrV::Time => InstrTag::Time,
        InstrV::TimeFmt => InstrTag::TimeFmt,
        InstrV::IfStmt(_) => InstrTag::IfStmt,
        InstrV::Eq => InstrTag::Eq,
        InstrV::Not => InstrTag::Not,
        InstrV::ClearStack => InstrTag::ClearStack,
        InstrV::PrintStack => InstrTag::PrintStack,
        InstrV::PrintStackLn => InstrTag::PrintStackLn,
        InstrV::ShowStack => InstrTag::ShowStack,
        InstrV::Exit => InstrTag::Exit,
    }
}

/// How many stack elements the instruction must observe before acting.
pub open spec fn arity(i: InstrV) -> int {
    match i {
        InstrV::Print => 1,
        InstrV::PrintLn => 1,
        InstrV::Div => 2,
        InstrV::Plus => 2,
        InstrV::Sub => 2,
        InstrV::Mul => 2,
        InstrV::GreaterThan => 2,
        InstrV::LessThan => 2,
        InstrV::Sum => 1,
        InstrV::ParseNum => 1,
        InstrV::Reverse => 1,
        InstrV::GenRange => 2,
        InstrV::Syscall => 2,
        InstrV::TimeFmt => 1,
        InstrV::IfStmt(_) => 1,
        InstrV::Eq => 2,
        InstrV::Not => 1,
        _ => 0,
    }
}

pub open spec fn fail_with(st: StateV, idx: int, i: InstrV, k: ErrKind) -> StepOut {
    StepOut::Fail(st, InterpretError { index: idx as usize, instr: tag_of(i), kind: k })
}

/// A checked binary arithmetic result: the mathematical result where it fits
/// the number type, else nothing (division by zero included).
pub open spec fn math_result(i: InstrV, a: i64, b: i64) -> Option<i64> {
    match i {
        InstrV::Plus => i64::checked_add(a, b),
        InstrV::Sub => i64::checked_sub(a, b),
        InstrV::Mul => i64::checked_mul(a, b),
        _ => i64::checked_div(a, b),
    }
}

/// The sum of the numeric elements of a stack, skipping the others.
pub open spec fn sum_nums(s: Seq<SpecVal>) -> int
    decreases s.len(),
{
    if s.len() == 0 {
        0
    } else {
        sum_nums(s.drop_last()) + (match s.last() {
            SpecVal::Num(n) => n as int,
            _ => 0,
        })
    }
}

pub open spec fn rev_seq<T>(s: Seq<T>) -> Seq<T> {
    Seq::new(s.len(), |i: int| s[s.len() - 1 - i])
}

/// The numbers `a` inclusive to `b` exclusive, ascending.
pub open spec fn range_seq(a: int, b: int) -> Seq<SpecVal> {
    Seq::new(
        if a < b {
            (b - a) as nat
        } else {
            0
        },
        |k: int| SpecVal::Num((a + k) as i64),
    )
}

/// Display text of the elements from the top down to index `downto`,
/// exclusive: what popping and printing until `downto` elements remain
/// writes.
pub open spec fn render_stack_desc(s: Seq<SpecVal>, downto: int) -> Seq<char>
    decreases s.len(),
{
    if s.len() <= downto || s.len() == 0 {
        Seq::empty()
    } else {
        spec_render(s.last()) + render_stack_desc(s.drop_last(), downto)
    }
}

/// Display text of all elements from the top down, one line each.
pub open spec fn render_stack_desc_ln(s: Seq<SpecVal>) -> Seq<char>
    decreases s.len(),
{
    if s.len() == 0 {
        Seq::empty()
    } else {
        spec_render(s.last()) + seq!['\n'] + render_stack_desc_ln(s.drop_last())
    }
}

/// Display text of all elements from the bottom up, one line each.
pub open spec fn render_stack_asc(s: Seq<SpecVal>) -> Seq<char>
    decreases s.len(),
{
    if s.len() == 0 {
        Seq::empty()
    } else {
        render_stack_asc(s.drop_last()) + spec_render(s.last()) + seq!['\n']
    }
}

/// What a clock reading does to the state: pushes the text the clock handed
/// back, or fails on a rejected pattern; `popped` says whether the pattern
/// operand leaves the stack first.
pub open spec fn time_out(
    idx: int,
    i: InstrV,
    st: StateV,
    popped: bool,
    r: Option<Seq<char>>,
) -> StepOut {
    match r {
        Some(s) => StepOut::Cont(
            StateV {
                stack: (if popped {
                    st.stack.drop_last()
                } else {
                    st.stack
                }).push(SpecVal::Str(s)),
                ..st
            },
        ),
        None => fail_with(st, idx, i, ErrKind::BadTimeFormat),
    }
}

// ---------------------------------------------------------------------------
// The execution relation
// ---------------------------------------------------------------------------

/// What one instruction at index `idx` may do to the state. Deterministic
/// except for the two clock instructions, whose pushed text may be any
/// reading of the clock.
pub open spec fn step_ok(idx: int, i: InstrV, st: StateV, out: StepOut) -> bool
    decreases i, 0int, 0int,
{
    let len = st.stack.len() as int;
    if len < arity(i) {
        out == fail_with(st, idx, i, ErrKind::Underflow)
    } else {
        match i {
            InstrV::PushNum(n) => out == StepOut::Cont(
                StateV { stack: st.stack.push(SpecVal::Num(n)), ..st },
            ),
            InstrV::PushStr(s) => out == StepOut::Cont(
                StateV { stack: st.stack.push(SpecVal::Str(s)), ..st },
            ),
            InstrV::Print => out == StepOut::Cont(
                StateV {
                    stack: st.stack.drop_last(),
                    input: st.input,
                    output: st.output + spec_render(st.stack.last()),
                },
            ),
            InstrV::PrintLn => out == StepOut::Cont(
                StateV {
                    stack: st.stack.drop_last(),
                    input: st.input,
                    output: st.output + spec_render(st.stack.last()) + seq!['\n'],
                },
            ),
            InstrV::Plus | InstrV::Sub | InstrV::Mul | InstrV::Div => {
                match (st.stack[len - 1], st.stack[len - 2]) {
                    (SpecVal::Num(a), SpecVal::Num(b)) => match math_result(i, a, b) {
                        Some(v) => out == StepOut::Cont(
                            StateV {
                                stack: st.stack.take(len - 2).push(SpecVal::Num(v)),
                                ..st
                            },
                        ),
                        None => out == fail_with(st, idx, i, ErrKind::Overflow),
                    },
                    (SpecVal::Num(_), _) => out == fail_with(st, idx, i, ErrKind::NotANumber),
                    _ => out == fail_with(st, idx, i, ErrKind::NotANumber),
                }
            },
            InstrV::GreaterThan => match (st.stack[len - 1], st.stack[len - 2]) {
                (SpecVal::Num(a), SpecVal::Num(b)) => out == StepOut::Cont(
                    StateV { stack: st.stack.take(len - 2).push(SpecVal::Bool(a > b)), ..st },
                ),
                _ => out == fail_with(st, idx, i, ErrKind::NotANumber),
            },
            InstrV::LessThan => match (st.stack[len - 1], st.stack[len - 2]) {
                (SpecVal::Num(a), SpecVal::Num(b)) => out == StepOut::Cont(
                    StateV { stack: st.stack.take(len - 2).push(SpecVal::Bool(a < b)), ..st },
                ),
                _ => out == fail_with(st, idx, i, ErrKind::NotANumber),
            },
            InstrV::Sum => {
                let total = sum_nums(st.stack);
                if i64::MIN <= total <= i64::MAX {
                    out == StepOut::Cont(
                        StateV { stack: seq![SpecVal::Num(total as i64)], ..st },
                    )
                } else {
                    out == fail_with(st, idx, i, ErrKind::Overflow)
                }
            },
            InstrV::Read => {
                if st.input.len() == 0 {
                    out == fail_with(st, idx, i, ErrKind::NoInput)
                } else {
                    out == StepOut::Cont(
                        StateV {
                            stack: st.stack.push(SpecVal::Str(st.input[0])),
                            input: st.input.drop_first(),
                            output: st.output,
                        },
                    )
                }
            },
            InstrV::ParseNum => match st.stack.last() {
                SpecVal::Num(n) => out == StepOut::Cont(
                    StateV { stack: st.stack.drop_last().push(SpecVal::Num(n)), ..st },
                ),
                SpecVal::Str(s) => match spec_parse_i64(s) {
                    Some(v) => out == StepOut::Cont(
                        StateV { stack: st.stack.drop_last().push(SpecVal::Num(v)), ..st },
                    ),
                    None => out == fail_with(st, idx, i, ErrKind::BadParse),
                },
                SpecVal::Bool(b) => out == StepOut::Cont(
                    StateV {
                        stack: st.stack.drop_last().push(
                            SpecVal::Num(
                                if b {
                                    1
                                } else {
                                    0
                                },
                            ),
                        ),
                        ..st
                    },
                ),
            },
            InstrV::Eq => out == StepOut::Cont(
                StateV {
                    stack: st.stack.take(len - 2).push(
                        SpecVal::Bool(spec_vals_eq(st.stack[len - 1], st.stack[len - 2])),
                    ),
                    ..st
                },
            ),
            InstrV::Not => match st.stack.last() {
                SpecVal::Bool(b) => out == StepOut::Cont(
                    StateV { stack: st.stack.drop_last().push(SpecVal::Bool(!b)), ..st },
                ),
                _ => out == fail_with(st, idx, i, ErrKind::NotABool),
            },
            InstrV::Reverse => match st.stack.last() {
                SpecVal::Str(s) => out == StepOut::Cont(
                    StateV { stack: st.stack.drop_last().push(SpecVal::Str(rev_seq(s))), ..st },
                ),
                _ => out == fail_with(st, idx, i, ErrKind::NotAString),
            },
            InstrV::GenRange => match (st.stack[len - 1], st.stack[len - 2]) {
                (SpecVal::Num(a), SpecVal::Num(b)) => out == StepOut::Cont(
                    StateV { stack: st.stack.take(len - 2) + range_seq(a as int, b as int), ..st },
                ),
                _ => out == fail_with(st, idx, i, ErrKind::NotANumber),
            },
            InstrV::FlipStack => out == StepOut::Cont(
                StateV { stack: rev_seq(st.stack), ..st },
            ),
            InstrV::Pop => {
                if len >= 1 {
                    out == StepOut::Cont(StateV { stack: st.stack.drop_last(), ..st })
                } else {
                    out == StepOut::Cont(st)
                }
            },
            InstrV::Syscall => match st.stack[len - 1] {
                SpecVal::Num(code) => {
                    if code == 0 {
                        match st.stack[len - 2] {
                            SpecVal::Num(status) => out == StepOut::Exit(
                                StateV { stack: st.stack.take(len - 2), ..st },
                                status,
                            ),
                            _ => out == fail_with(st, idx, i, ErrKind::NotANumber),
                        }
                    } else {
                        out == fail_with(st, idx, i, ErrKind::UnknownSyscall)
                    }
                },
                _ => out == fail_with(st, idx, i, ErrKind::NotANumber),
            },
            InstrV::Time => exists|ro: Option<Seq<char>>|
                #[trigger] time_out(idx, i, st, false, ro) == out,
            InstrV::TimeFmt => match st.stack.last() {
                SpecVal::Str(_) => exists|ro: Option<Seq<char>>|
                    #[trigger] time_out(idx, i, st, true, ro) == out,
                _ => out == fail_with(st, idx, i, ErrKind::NotAString),
            },
            InstrV::IfStmt(body) => match st.stack.last() {
                SpecVal::Bool(b) => {
                    if b {
                        exec_from(body, 0, StateV { stack: st.stack.drop_last(), ..st }, out)
                    } else {
                        out == StepOut::Cont(StateV { stack: st.stack.drop_last(), ..st })
                    }
                },
                _ => out == fail_with(st, idx, i, ErrKind::NotABool),
            },
            InstrV::ClearStack => out == StepOut::Cont(
                StateV { stack: Seq::empty(), ..st },
            ),
            InstrV::PrintStack => {
                if len == 0 {
                    out == StepOut::Cont(st)
                } else {
                    out == StepOut::Cont(
                        StateV {
                            stack: st.stack.take(1),
                            input: st.input,
                            output: st.output + render_stack_desc(st.stack, 1) + seq!['\n'],
                        },
                    )
                }
            },
            InstrV::PrintStackLn => {
                if len == 0 {
                    out == StepOut::Cont(st)
                } else {
                    out == StepOut::Cont(
                        StateV {
                            stack: Seq::empty(),
                            input: st.input,
                            output: st.output + render_stack_desc_ln(st.stack),
                        },
                    )
                }
            },
            InstrV::ShowStack => out == StepOut::Cont(
                StateV {
                    stack: st.stack,
                    input: st.input,
                    output: st.output + render_stack_asc(st.stack),
                },
            ),
            InstrV::Exit => out == StepOut::Exit(st, 0),
        }
    }
}

/// Running the instructions from index `k` onward: either every remaining
/// instruction stepped through, or the first terminator or failure is the
/// outcome and nothing after it ran.
pub open spec fn exec_from(instrs: Seq<InstrV>, k: int, st: StateV, out: StepOut) -> bool
    decreases instrs, instrs.len() - k, 1int,
{
    if k < 0 || k > instrs.len() {
        false
    } else if k == instrs.len() {
        out == StepOut::Cont(st)
    } else {
        ||| (step_ok(k, instrs[k], st, out) && !(out is Cont))
        ||| steps_on(instrs, k, st, out)
    }
}

/// The outcome of a step that went through to this state.
pub open spec fn cont_of(nxt: StateV) -> StepOut {
    StepOut::Cont(nxt)
}

/// Some successful step at `k` leads on to `out`.
pub open spec fn steps_on(instrs: Seq<InstrV>, k: int, st: StateV, out: StepOut) -> bool
    decreases instrs, instrs.len() - k, 0int,
{
    if 0 <= k < instrs.len() {
        exists|nxt: StateV|
            step_ok(k, instrs[k], st, #[trigger] cont_of(nxt)) && exec_from(
                instrs,
                k + 1,
                nxt,
                out,
            )
    } else {
        false
    }
}

/// The executable result and final state, as a one-step outcome.
pub open spec fn outcome_of(r: Result<Flow, InterpretError>, st: StateV) -> StepOut {
    match r {
        Ok(Flow::Ran) => StepOut::Cont(st),
        Ok(Flow::Exited(c)) => StepOut::Exit(st, c),
        Err(e) => StepOut::Fail(st, e),
    }
}


/// Arity law: an instruction facing a stack with fewer elements than its
/// arity fails with an underflow error at its own index, and the state —
/// stack included — is unchanged.
pub proof fn lemma_arity_underflow(idx: int, i: InstrV, st: StateV, out: StepOut)
    requires
        step_ok(idx, i, st, out),
        st.stack.len() < arity(i),
    ensures
        out == fail_with(st, idx, i, ErrKind::Underflow),
{
}

// ---------------------------------------------------------------------------
// Stepping one instruction, executably
// ---------------------------------------------------------------------------

/// What one executed instruction reported back.
enum StepRes {
    Cont,
    Exited(i64),
    Failed(InterpretError),
}

spec fn stepres_model(r: StepRes, st: StateV) -> StepOut {
    match r {
        StepRes::Cont => StepOut::Cont(st),
        StepRes::Exited(c) => StepOut::Exit(st, c),
        StepRes::Failed(e) => StepOut::Fail(st, e),
    }
}

fn instr_tag(inst: &Instr) -> (t: InstrTag)
    ensures
        t == tag_of(instr_model(*inst)),
{
    match inst {
        Instr::Print => InstrTag::Print,
        Instr::PrintLn => InstrTag::PrintLn,
        Instr::Read => InstrTag::Read,
        Instr::Div => InstrTag::Div,
        Instr::Plus => InstrTag::Plus,
        Instr::Sub => InstrTag::Sub,
        Instr::Mul => InstrTag::Mul,
        Instr::GreaterThan => InstrTag::GreaterThan,
        Instr::LessThan => InstrTag::LessThan,
        Instr::Sum => InstrTag::Sum,
        Instr::ParseNum => InstrTag::ParseNum,
        Instr::Reverse => InstrTag::Reverse,
        Instr::GenRange => InstrTag::GenRange,
        Instr::FlipStack => InstrTag::FlipStack,
        Instr::Pop => InstrTag::Pop,
        Instr::PushStr(_) => InstrTag::PushStr,
        Instr::PushNum(_) => InstrTag::PushNum,
        Instr::Syscall => InstrTag::Syscall,
        Instr::Time => InstrTag::Time,
        Instr::TimeFmt => InstrTag::TimeFmt,
        Instr::IfStmt(_) => InstrTag::IfStmt,
        Instr::Eq => InstrTag::Eq,
        Instr::Not => InstrTag::Not,
        Instr::ClearStack => InstrTag::ClearStack,
        Instr::PrintStack => InstrTag::PrintStack,
        Instr::PrintStackLn => InstrTag::PrintStackLn,
        Instr::ShowStack => InstrTag::ShowStack,
        Instr::Exit => InstrTag::Exit,
    }
}

fn arity_of(inst: &Instr) -> (n: usize)
    ensures
        n as int == arity(instr_model(*inst)),
{
    match inst {
        Instr::Print => 1,
        Instr::PrintLn => 1,
        Instr::Div => 2,
        Instr::Plus => 2,
        Instr::Sub => 2,
        Instr::Mul => 2,
        Instr::GreaterThan => 2,
        Instr::LessThan => 2,
        Instr::Sum => 1,
        Instr::ParseNum => 1,
        Instr::Reverse => 1,
        Instr::GenRange => 2,
        Instr::Syscall => 2,
        Instr::TimeFmt => 1,
        Instr::IfStmt(_) => 1,
        Instr::Eq => 2,
        Instr::Not => 1,
        _ => 0,
    }
}

/// Appends `src` to `dst`.
fn append_chars(dst: &mut Vec<char>, src: &Vec<char>)
    ensures
        final(dst)@ == old(dst)@ + src@,
{
    let mut i: usize = 0;
    while i < src.len()
        invariant
            0 <= i <= src@.len(),
            dst@ == old(dst)@ + src@.take(i as int),
        decreases src@.len() - i,
    {
        dst.push(src[i]);
        proof {
            assert(dst@ =~= old(dst)@ + src@.take(i as int + 1));
        }
        i = i + 1;
    }
    proof {
        assert(old(dst)@ + src@.take(src@.len() as int) =~= old(dst)@ + src@);
    }
}

fn num_at(stack: &Vec<StackVal>, i: usize) -> (r: Option<i64>)
    requires
        i < stack@.len(),
    ensures
        match r {
            Some(v) => stack_model(stack@)[i as int] == SpecVal::Num(v),
            None => !(stack_model(stack@)[i as int] is Num),
        },
{
    match &stack[i] {
        StackVal::Num(n) => Some(*n),
        _ => None,
    }
}

/// The sum of the numeric stack elements, if it fits the number type.
fn sum_stack(stack: &Vec<StackVal>) -> (r: Option<i64>)
    ensures
        ({
            let total = sum_nums(stack_model(stack@));
            match r {
                Some(v) => i64::MIN <= total <= i64::MAX && v as int == total,
                None => !(i64::MIN <= total <= i64::MAX),
            }
        }),
{
    let ghost m = stack_model(stack@);
    let len = stack.len();
    proof {
        assert((len as int) < 0x1_0000_0000_0000_0000int);
        assert(m.take(0).len() == 0);
    }
    let mut total: i128 = 0;
    let mut i: usize = 0;
    while i < len
        invariant
            0 <= i <= len,
            len == stack@.len(),
            len < 0x1_0000_0000_0000_0000int,
            m == stack_model(stack@),
            total as int == sum_nums(m.take(i as int)),
            -(i as int) * 0x8000_0000_0000_0000int <= total as int <= (i as int)
                * 0x8000_0000_0000_0000int,
        decreases len - i,
    {
        let v = num_at(stack, i);
        proof {
            assert(m.take(i as int + 1).drop_last() =~= m.take(i as int));
            assert(m.take(i as int + 1).last() == m[i as int]);
        }
        match v {
            Some(n) => {
                total = total + (n as i128);
            },
            None => {
                proof {
                    assert(sum_nums(m.take(i as int + 1)) == sum_nums(m.take(i as int)));
                }
            },
        }
        i = i + 1;
    }
    proof {
        assert(m.take(len as int) =~= m);
    }
    if total >= i64::MIN as i128 && total <= i64::MAX as i128 {
        Some(total as i64)
    } else {
        None
    }
}

/// Reverses a character vector.
fn reverse_chars(s: &Vec<char>) -> (r: Vec<char>)
    ensures
        r@ == rev_seq(s@),
{
    let len = s.len();
    let mut out: Vec<char> = Vec::new();
    let mut i: usize = 0;
    while i < len
        invariant
            0 <= i <= len,
            len == s@.len(),
            out@.len() == i,
            forall|j: int| 0 <= j < i ==> out@[j] == s@[len - 1 - j],
        decreases len - i,
    {
        out.push(s[len - 1 - i]);
        i = i + 1;
    }
    proof {
        assert(out@ =~= rev_seq(s@));
    }
    out
}

/// Reverses the whole stack in place: bottom becomes top.
fn flip_stack(stack: &mut Vec<StackVal>)
    ensures
        stack_model(final(stack)@) == rev_seq(stack_model(old(stack)@)),
{
    let ghost m0 = stack_model(old(stack)@);
    let mut flipped: Vec<StackVal> = Vec::new();
    proof {
        assert(stack_model(flipped@).len() == 0);
    }
    while stack.len() > 0
        invariant
            m0 == stack_model(old(stack)@),
            stack@.len() + flipped@.len() == m0.len(),
            forall|j: int| 0 <= j < stack@.len() ==> stack_model(stack@)[j] == m0[j],
            forall|j: int|
                0 <= j < flipped@.len() ==> stack_model(flipped@)[j] == m0[m0.len() - 1 - j],
        decreases stack@.len(),
    {
        let ghost s0 = stack@;
        let ghost f0 = flipped@;
        let v = stack.pop().unwrap();
        proof {
            assert(v@ == stack_model(s0)[s0.len() - 1]);
            assert(v@ == m0[s0.len() - 1]);
        }
        flipped.push(v);
        proof {
            assert forall|j: int|
                0 <= j < flipped@.len() implies stack_model(flipped@)[j] == m0[m0.len() - 1
                - j] by {
                if j < f0.len() {
                    assert(flipped@[j] == f0[j]);
                    assert(stack_model(f0)[j] == m0[m0.len() - 1 - j]);
                } else {
                    assert(flipped@[j] == v);
                    assert(m0.len() - 1 - j == s0.len() - 1);
                }
            }
        }
    }
    let mut swapped = flipped;
    core::mem::swap(stack, &mut swapped);
    proof {
        assert(stack_model(stack@) =~= rev_seq(m0));
    }
}

/// Pushes the numbers `a` inclusive to `b` exclusive, ascending.
fn push_range(stack: &mut Vec<StackVal>, a: i64, b: i64)
    ensures
        stack_model(final(stack)@) == stack_model(old(stack)@) + range_seq(a as int, b as int),
{
    let ghost m0 = stack_model(old(stack)@);
    if a >= b {
        proof {
            assert(stack_model(stack@) =~= m0 + range_seq(a as int, b as int));
        }
        return ;
    }
    let mut iv: i64 = a;
    while iv < b
        invariant
            a <= iv <= b,
            m0 == stack_model(old(stack)@),
            stack_model(stack@) =~= m0 + range_seq(a as int, iv as int),
        decreases b - iv,
    {
        let ghost pre = stack@;
        stack.push(StackVal::Num(iv));
        proof {
            lemma_sm_push(pre, StackVal::Num(iv));
            assert(stack_model(pre).push(SpecVal::Num(iv)) =~= m0 + range_seq(
                a as int,
                iv as int + 1,
            ));
        }
        iv = iv + 1;
    }
    proof {
        assert(stack_model(stack@) =~= m0 + range_seq(a as int, b as int));
    }
}

/// Pops and writes every element above the bottom one, then one newline.
fn print_stack_down(stack: &mut Vec<StackVal>, out: &mut Vec<char>)
    requires
        old(stack)@.len() >= 1,
    ensures
        stack_model(final(stack)@) == stack_model(old(stack)@).take(1),
        final(out)@ == old(out)@ + render_stack_desc(stack_model(old(stack)@), 1) + seq!['\n'],
{
    let ghost m0 = stack_model(old(stack)@);
    while stack.len() > 1
        invariant
            stack@.len() >= 1,
            stack@.len() <= m0.len(),
            m0 == stack_model(old(stack)@),
            stack_model(stack@) =~= m0.take(stack@.len() as int),
            out@ + render_stack_desc(stack_model(stack@), 1) == old(out)@ + render_stack_desc(
                m0,
                1,
            ),
        decreases stack@.len(),
    {
        let ghost pre = stack@;
        let ghost cur = stack_model(stack@);
        let v = stack.pop().unwrap();
        let txt = render(&v);
        append_chars(out, &txt);
        proof {
            lemma_sm_drop_last(pre);
            assert(v@ == cur.last());
            assert(stack_model(stack@) == cur.drop_last());
            assert(cur.drop_last() =~= m0.take(stack@.len() as int));
            assert(render_stack_desc(cur, 1) == spec_render(cur.last()) + render_stack_desc(
                cur.drop_last(),
                1,
            ));
            assert(out@ + render_stack_desc(stack_model(stack@), 1) =~= old(out)@
                + render_stack_desc(m0, 1));
        }
    }
    out.push('\n');
    proof {
        assert(render_stack_desc(stack_model(stack@), 1) =~= Seq::<char>::empty());
        assert(out@ =~= old(out)@ + render_stack_desc(m0, 1) + seq!['\n']);
    }
}

/// Pops and writes every element, one line each, draining the stack.
fn print_stack_lines(stack: &mut Vec<StackVal>, out: &mut Vec<char>)
    ensures
        final(stack)@.len() == 0,
        final(out)@ == old(out)@ + render_stack_desc_ln(stack_model(old(stack)@)),
{
    let ghost m0 = stack_model(old(stack)@);
    while stack.len() > 0
        invariant
            m0 == stack_model(old(stack)@),
            stack@.len() <= m0.len(),
            stack_model(stack@) =~= m0.take(stack@.len() as int),
            out@ + render_stack_desc_ln(stack_model(stack@)) == old(out)@ + render_stack_desc_ln(
                m0,
            ),
        decreases stack@.len(),
    {
        let ghost pre = stack@;
        let ghost cur = stack_model(stack@);
        let v = stack.pop().unwrap();
        let txt = render(&v);
        append_chars(out, &txt);
        out.push('\n');
        proof {
            lemma_sm_drop_last(pre);
            assert(v@ == cur.last());
            assert(stack_model(stack@) == cur.drop_last());
            assert(cur.drop_last() =~= m0.take(stack@.len() as int));
            assert(out@ + render_stack_desc_ln(stack_model(stack@)) =~= old(out)@
                + render_stack_desc_ln(m0));
        }
    }
    proof {
        assert(render_stack_desc_ln(stack_model(stack@)) =~= Seq::<char>::empty());
        assert(out@ =~= old(out)@ + render_stack_desc_ln(m0));
    }
}

/// Copies a character vector.
fn copy_chars(s: &Vec<char>) -> (r: Vec<char>)
    ensures
        r@ == s@,
{
    let len = s.len();
    let mut out: Vec<char> = Vec::new();
    let mut i: usize = 0;
    while i < len
        invariant
            0 <= i <= len,
            len == s@.len(),
            out@ == s@.take(i as int),
        decreases len - i,
    {
        out.push(s[i]);
        proof {
            assert(out@ =~= s@.take(i as int + 1));
        }
        i = i + 1;
    }
    proof {
        assert(s@.take(len as int) =~= s@);
    }
    out
}

/// Writes every element bottom to top, one line each, consuming none.
fn show_stack(stack: &Vec<StackVal>, out: &mut Vec<char>)
    ensures
        final(out)@ == old(out)@ + render_stack_asc(stack_model(stack@)),
{
    let ghost m = stack_model(stack@);
    let len = stack.len();
    let mut i: usize = 0;
    while i < len
        invariant
            0 <= i <= len,
            len == stack@.len(),
            m == stack_model(stack@),
            out@ == old(out)@ + render_stack_asc(m.take(i as int)),
        decreases len - i,
    {
        let txt = render(&stack[i]);
        append_chars(out, &txt);
        out.push('\n');
        proof {
            assert(m.take(i as int + 1).drop_last() =~= m.take(i as int));
            assert(m.take(i as int + 1).last() == m[i as int]);
            assert(out@ =~= old(out)@ + render_stack_asc(m.take(i as int + 1)));
        }
        i = i + 1;
    }
    proof {
        assert(m.take(len as int) =~= m);
    }
}

// ---------------------------------------------------------------------------
// One instruction, executed
// ---------------------------------------------------------------------------

#[verifier::rlimit(100)]
fn step_literals(idx: usize, inst: &Instr, stack: &mut Vec<StackVal>, io: &mut Io) -> (r: StepRes)
    requires
        instr_model(*inst) is PushNum || instr_model(*inst) is PushStr || instr_model(*inst) is Print || instr_model(*inst) is PrintLn || instr_model(*inst) is Read,
        old(stack)@.len() >= arity(instr_model(*inst)),
    ensures
        step_ok(
            idx as int,
            instr_model(*inst),
            state_of(old(stack)@, old(io).input@, old(io).output@),
            stepres_model(r, state_of(final(stack)@, final(io).input@, final(io).output@)),
        ),
{
    let ghost st0 = state_of(old(stack)@, old(io).input@, old(io).output@);
    let ghost im = instr_model(*inst);
    let len = stack.len();
    match inst {
                Instr::PushNum(n) => {
            let ghost pre = stack@;
            stack.push(StackVal::Num(*n));
            proof {
                lemma_sm_push(pre, StackVal::Num(*n));
                assert(state_of(stack@, io.input@, io.output@) =~= StateV {
                    stack: st0.stack.push(SpecVal::Num(*n)),
                    ..st0
                });
            }
            StepRes::Cont
        },
                Instr::PushStr(s) => {
            let text = copy_chars(s);
            let ghost pre = stack@;
            stack.push(StackVal::Str(text));
            proof {
                lemma_sm_push(pre, StackVal::Str(text));
                assert(state_of(stack@, io.input@, io.output@) =~= StateV {
                    stack: st0.stack.push(SpecVal::Str(s@)),
                    ..st0
                });
            }
            StepRes::Cont
        },
                Instr::Print => {
            let ghost pre = stack@;
            let v = stack.pop().unwrap();
            let txt = render(&v);
            append_chars(&mut io.output, &txt);
            proof {
                lemma_sm_drop_last(pre);
                assert(v@ == st0.stack.last());
                assert(state_of(stack@, io.input@, io.output@) =~= StateV {
                    stack: st0.stack.drop_last(),
                    input: st0.input,
                    output: st0.output + spec_render(st0.stack.last()),
                });
            }
            StepRes::Cont
        },
                Instr::PrintLn => {
            let ghost pre = stack@;
            let v = stack.pop().unwrap();
            let txt = render(&v);
            append_chars(&mut io.output, &txt);
            io.output.push('\n');
            proof {
                lemma_sm_drop_last(pre);
                assert(v@ == st0.stack.last());
                assert(state_of(stack@, io.input@, io.output@) =~= StateV {
                    stack: st0.stack.drop_last(),
                    input: st0.input,
                    output: st0.output + spec_render(st0.stack.last()) + seq!['\n'],
                });
            }
            StepRes::Cont
        },
                Instr::Read => {
            if io.input.len() == 0 {
                let e = InterpretError {
                    index: idx,
                    instr: instr_tag(inst),
                    kind: ErrKind::NoInput,
                };
                StepRes::Failed(e)
            } else {
                let ghost in0 = io.input@;
                let line = io.input.remove(0);
                let ghost pre = stack@;
                stack.push(StackVal::Str(line));
                proof {
                    lemma_sm_push(pre, StackVal::Str(line));
                    assert(line@ == st0.input[0]);
                    assert(input_model(io.input@) =~= st0.input.drop_first());
                    assert(state_of(stack@, io.input@, io.output@) =~= StateV {
                        stack: st0.stack.push(SpecVal::Str(st0.input[0])),
                        input: st0.input.drop_first(),
                        output: st0.output,
                    });
                }
                StepRes::Cont
            }
        },
        _ => {
            proof {
                assert(false);
            }
            StepRes::Cont
        },
    }
}

#[verifier::rlimit(100)]
fn step_math(idx: usize, inst: &Instr, stack: &mut Vec<StackVal>, io: &mut Io) -> (r: StepRes)
    requires
        instr_model(*inst) is Plus || instr_model(*inst) is Sub || instr_model(*inst) is Mul || instr_model(*inst) is Div || instr_model(*inst) is GreaterThan || instr_model(*inst) is LessThan || instr_model(*inst) is Sum,
        old(stack)@.len() >= arity(instr_model(*inst)),
    ensures
        step_ok(
            idx as int,
            instr_model(*inst),
            state_of(old(stack)@, old(io).input@, old(io).output@),
            stepres_model(r, state_of(final(stack)@, final(io).input@, final(io).output@)),
        ),
{
    let ghost st0 = state_of(old(stack)@, old(io).input@, old(io).output@);
    let ghost im = instr_model(*inst);
    let len = stack.len();
    match inst {
                Instr::Plus | Instr::Sub | Instr::Mul | Instr::Div => {
            let xo = num_at(stack, len - 1);
            let yo = num_at(stack, len - 2);
            match (xo, yo) {
                (Some(x), Some(y)) => {
                    let m = match inst {
                        Instr::Plus => x.checked_add(y),
                        Instr::Sub => x.checked_sub(y),
                        Instr::Mul => x.checked_mul(y),
                        _ => x.checked_div(y),
                    };
                    proof {
                        assert(m == math_result(im, x, y));
                    }
                    match m {
                        Some(v) => {
                            let ghost pre = stack@;
                            let _ = stack.pop();
                            let _ = stack.pop();
                            stack.push(StackVal::Num(v));
                            proof {
                                assert(stack_model(stack@) =~= st0.stack.take(len - 2).push(
                                    SpecVal::Num(v),
                                ));
                                assert(state_of(stack@, io.input@, io.output@) =~= StateV {
                                    stack: st0.stack.take(len - 2).push(SpecVal::Num(v)),
                                    ..st0
                                });
                            }
                            StepRes::Cont
                        },
                        None => {
                            let e = InterpretError {
                                index: idx,
                                instr: instr_tag(inst),
                                kind: ErrKind::Overflow,
                            };
                            StepRes::Failed(e)
                        },
                    }
                },
                _ => {
                    let e = InterpretError {
                        index: idx,
                        instr: instr_tag(inst),
                        kind: ErrKind::NotANumber,
                    };
                    StepRes::Failed(e)
                },
            }
        },
                Instr::GreaterThan | Instr::LessThan => {
            let xo = num_at(stack, len - 1);
            let yo = num_at(stack, len - 2);
            match (xo, yo) {
                (Some(x), Some(y)) => {
                    let b = match inst {
                        Instr::GreaterThan => x > y,
                        _ => x < y,
                    };
                    let _ = stack.pop();
                    let _ = stack.pop();
                    stack.push(StackVal::Bool(b));
                    proof {
                        assert(stack_model(stack@) =~= st0.stack.take(len - 2).push(
                            SpecVal::Bool(b),
                        ));
                        assert(state_of(stack@, io.input@, io.output@) =~= StateV {
                            stack: st0.stack.take(len - 2).push(SpecVal::Bool(b)),
                            ..st0
                        });
                    }
                    StepRes::Cont
                },
                _ => {
                    let e = InterpretError {
                        index: idx,
                        instr: instr_tag(inst),
                        kind: ErrKind::NotANumber,
                    };
                    StepRes::Failed(e)
                },
            }
        },
                Instr::Sum => {
            match sum_stack(stack) {
                Some(v) => {
                    stack.clear();
                    stack.push(StackVal::Num(v));
                    proof {
                        assert(stack_model(stack@) =~= seq![SpecVal::Num(v)]);
                        assert(state_of(stack@, io.input@, io.output@) =~= StateV {
                            stack: seq![SpecVal::Num(v)],
                            ..st0
                        });
                    }
                    StepRes::Cont
                },
                None => {
                    let e = InterpretError {
                        index: idx,
                        instr: instr_tag(inst),
                        kind: ErrKind::Overflow,
                    };
                    StepRes::Failed(e)
                },
            }
        },
        _ => {
            proof {
                assert(false);
            }
            StepRes::Cont
        },
    }
}

#[verifier::rlimit(100)]
fn step_values(idx: usize, inst: &Instr, stack: &mut Vec<StackVal>, io: &mut Io) -> (r: StepRes)
    requires
        instr_model(*inst) is ParseNum || instr_model(*inst) is Eq || instr_model(*inst) is Not || instr_model(*inst) is Reverse || instr_model(*inst) is GenRange || instr_model(*inst) is FlipStack || instr_model(*inst) is Pop,
        old(stack)@.len() >= arity(instr_model(*inst)),
    ensures
        step_ok(
            idx as int,
            instr_model(*inst),
            state_of(old(stack)@, old(io).input@, old(io).output@),
            stepres_model(r, state_of(final(stack)@, final(io).input@, final(io).output@)),
        ),
{
    let ghost st0 = state_of(old(stack)@, old(io).input@, old(io).output@);
    let ghost im = instr_model(*inst);
    let len = stack.len();
    match inst {
                Instr::ParseNum => {
            let outcome: Result<Option<i64>, ErrKind> = match &stack[len - 1] {
                StackVal::Num(_) => Ok(None),
                StackVal::Str(sv) => match parse_chars_i64(sv) {
                    Some(v) => Ok(Some(v)),
                    None => Err(ErrKind::BadParse),
                },
                StackVal::Bool(b) => Ok(Some(if *b { 1 } else { 0 })),
            };
            match outcome {
                Ok(None) => {
                    proof {
                        assert(st0.stack =~= st0.stack.drop_last().push(st0.stack.last()));
                        assert(state_of(stack@, io.input@, io.output@) =~= st0);
                    }
                    StepRes::Cont
                },
                Ok(Some(v)) => {
                    let ghost pre = stack@;
                    let _ = stack.pop();
                    stack.push(StackVal::Num(v));
                    proof {
                        lemma_sm_drop_last(pre);
                        assert(stack_model(stack@) =~= st0.stack.drop_last().push(
                            SpecVal::Num(v),
                        ));
                        assert(state_of(stack@, io.input@, io.output@) =~= StateV {
                            stack: st0.stack.drop_last().push(SpecVal::Num(v)),
                            ..st0
                        });
                    }
                    StepRes::Cont
                },
                Err(k) => {
                    let e = InterpretError { index: idx, instr: instr_tag(inst), kind: k };
                    StepRes::Failed(e)
                },
            }
        },
                Instr::Eq => {
            let x = stack.pop().unwrap();
            let y = stack.pop().unwrap();
            let b = x == y;
            stack.push(StackVal::Bool(b));
            proof {
                assert(x@ == st0.stack[len - 1]);
                assert(y@ == st0.stack[len - 2]);
                assert(stack_model(stack@) =~= st0.stack.take(len - 2).push(
                    SpecVal::Bool(spec_vals_eq(st0.stack[len - 1], st0.stack[len - 2])),
                ));
                assert(state_of(stack@, io.input@, io.output@) =~= StateV {
                    stack: st0.stack.take(len - 2).push(
                        SpecVal::Bool(spec_vals_eq(st0.stack[len - 1], st0.stack[len - 2])),
                    ),
                    ..st0
                });
            }
            StepRes::Cont
        },
                Instr::Not => {
            match &stack[len - 1] {
                StackVal::Bool(b) => {
                    let nb = !*b;
                    let ghost pre = stack@;
                    let _ = stack.pop();
                    stack.push(StackVal::Bool(nb));
                    proof {
                        lemma_sm_drop_last(pre);
                        assert(stack_model(stack@) =~= st0.stack.drop_last().push(
                            SpecVal::Bool(nb),
                        ));
                        assert(state_of(stack@, io.input@, io.output@) =~= StateV {
                            stack: st0.stack.drop_last().push(SpecVal::Bool(nb)),
                            ..st0
                        });
                    }
                    StepRes::Cont
                },
                _ => {
                    let e = InterpretError {
                        index: idx,
                        instr: instr_tag(inst),
                        kind: ErrKind::NotABool,
                    };
                    StepRes::Failed(e)
                },
            }
        },
                Instr::Reverse => {
            let flipped: Option<Vec<char>> = match &stack[len - 1] {
                StackVal::Str(sv) => Some(reverse_chars(sv)),
                _ => None,
            };
            match flipped {
                Some(rv) => {
                    let ghost pre = stack@;
                    let ghost rs = rv@;
                    let _ = stack.pop();
                    stack.push(StackVal::Str(rv));
                    proof {
                        lemma_sm_drop_last(pre);
                        assert(stack_model(stack@) =~= st0.stack.drop_last().push(
                            SpecVal::Str(rs),
                        ));
                        assert(state_of(stack@, io.input@, io.output@) =~= StateV {
                            stack: st0.stack.drop_last().push(SpecVal::Str(rs)),
                            ..st0
                        });
                    }
                    StepRes::Cont
                },
                None => {
                    let e = InterpretError {
                        index: idx,
                        instr: instr_tag(inst),
                        kind: ErrKind::NotAString,
                    };
                    StepRes::Failed(e)
                },
            }
        },
                Instr::GenRange => {
            let xo = num_at(stack, len - 1);
            let yo = num_at(stack, len - 2);
            match (xo, yo) {
                (Some(x), Some(y)) => {
                    let _ = stack.pop();
                    let _ = stack.pop();
                    proof {
                        assert(stack_model(stack@) =~= st0.stack.take(len - 2));
                    }
                    push_range(stack, x, y);
                    proof {
                        assert(state_of(stack@, io.input@, io.output@) =~= StateV {
                            stack: st0.stack.take(len - 2) + range_seq(x as int, y as int),
                            ..st0
                        });
                    }
                    StepRes::Cont
                },
                _ => {
                    let e = InterpretError {
                        index: idx,
                        instr: instr_tag(inst),
                        kind: ErrKind::NotANumber,
                    };
                    StepRes::Failed(e)
                },
            }
        },
                Instr::FlipStack => {
            flip_stack(stack);
            proof {
                assert(state_of(stack@, io.input@, io.output@) =~= StateV {
                    stack: rev_seq(st0.stack),
                    ..st0
                });
            }
            StepRes::Cont
        },
                Instr::Pop => {
            if stack.len() >= 1 {
                let ghost pre = stack@;
                let _ = stack.pop();
                proof {
                    lemma_sm_drop_last(pre);
                    assert(state_of(stack@, io.input@, io.output@) =~= StateV {
                        stack: st0.stack.drop_last(),
                        ..st0
                    });
                }
            }
            StepRes::Cont
        },
        _ => {
            proof {
                assert(false);
            }
            StepRes::Cont
        },
    }
}

#[verifier::rlimit(100)]
fn step_control(idx: usize, inst: &Instr, stack: &mut Vec<StackVal>, io: &mut Io) -> (r: StepRes)
    requires
        instr_model(*inst) is Syscall || instr_model(*inst) is Time || instr_model(*inst) is TimeFmt || instr_model(*inst) is ClearStack || instr_model(*inst) is PrintStack || instr_model(*inst) is PrintStackLn || instr_model(*inst) is ShowStack || instr_model(*inst) is Exit,
        old(stack)@.len() >= arity(instr_model(*inst)),
    ensures
        step_ok(
            idx as int,
            instr_model(*inst),
            state_of(old(stack)@, old(io).input@, old(io).output@),
            stepres_model(r, state_of(final(stack)@, final(io).input@, final(io).output@)),
        ),
{
    let ghost st0 = state_of(old(stack)@, old(io).input@, old(io).output@);
    let ghost im = instr_model(*inst);
    let len = stack.len();
    match inst {
                Instr::Syscall => {
            let co = num_at(stack, len - 1);
            match co {
                Some(code) => {
                    if code == 0 {
                        let ao = num_at(stack, len - 2);
                        match ao {
                            Some(status) => {
                                let _ = stack.pop();
                                let _ = stack.pop();
                                proof {
                                    assert(stack_model(stack@) =~= st0.stack.take(len - 2));
                                    assert(state_of(stack@, io.input@, io.output@) =~= StateV {
                                        stack: st0.stack.take(len - 2),
                                        ..st0
                                    });
                                }
                                StepRes::Exited(status)
                            },
                            None => {
                                let e = InterpretError {
                                    index: idx,
                                    instr: instr_tag(inst),
                                    kind: ErrKind::NotANumber,
                                };
                                StepRes::Failed(e)
                            },
                        }
                    } else {
                        let e = InterpretError {
                            index: idx,
                            instr: instr_tag(inst),
                            kind: ErrKind::UnknownSyscall,
                        };
                        StepRes::Failed(e)
                    }
                },
                None => {
                    let e = InterpretError {
                        index: idx,
                        instr: instr_tag(inst),
                        kind: ErrKind::NotANumber,
                    };
                    StepRes::Failed(e)
                },
            }
        },
                Instr::Time => {
            let fmtv: Vec<char> = vec!['%', 'd', '-', '%', 'm', '-', '%', 'Y'];
            match format_local_now(&fmtv) {
                Some(text) => {
                    let ghost w: Option<Seq<char>> = Some(text@);
                    let ghost pre = stack@;
                    stack.push(StackVal::Str(text));
                    proof {
                        lemma_sm_push(pre, old(stack)@[0]);
                        assert(stack_model(stack@) =~= st0.stack.push(SpecVal::Str(w->0)));
                        assert(time_out(idx as int, im, st0, false, w) == stepres_model(
                            StepRes::Cont,
                            state_of(stack@, io.input@, io.output@),
                        ));
                    }
                    StepRes::Cont
                },
                None => {
                    let e = InterpretError {
                        index: idx,
                        instr: instr_tag(inst),
                        kind: ErrKind::BadTimeFormat,
                    };
                    proof {
                        let w: Option<Seq<char>> = None;
                        assert(time_out(idx as int, im, st0, false, w) == stepres_model(
                            StepRes::Failed(e),
                            state_of(stack@, io.input@, io.output@),
                        ));
                    }
                    StepRes::Failed(e)
                },
            }
        },
                Instr::TimeFmt => {
            let formatted: Option<Option<Vec<char>>> = match &stack[len - 1] {
                StackVal::Str(fv) => Some(format_local_now(fv)),
                _ => None,
            };
            match formatted {
                Some(Some(text)) => {
                    let ghost w: Option<Seq<char>> = Some(text@);
                    let ghost pre = stack@;
                    let _ = stack.pop();
                    stack.push(StackVal::Str(text));
                    proof {
                        lemma_sm_drop_last(pre);
                        assert(stack_model(stack@) =~= st0.stack.drop_last().push(
                            SpecVal::Str(w->0),
                        ));
                        assert(time_out(idx as int, im, st0, true, w) == stepres_model(
                            StepRes::Cont,
                            state_of(stack@, io.input@, io.output@),
                        ));
                    }
                    StepRes::Cont
                },
                Some(None) => {
                    let e = InterpretError {
                        index: idx,
                        instr: instr_tag(inst),
                        kind: ErrKind::BadTimeFormat,
                    };
                    proof {
                        let w: Option<Seq<char>> = None;
                        assert(time_out(idx as int, im, st0, true, w) == stepres_model(
                            StepRes::Failed(e),
                            state_of(stack@, io.input@, io.output@),
                        ));
                    }
                    StepRes::Failed(e)
                },
                None => {
                    let e = InterpretError {
                        index: idx,
                        instr: instr_tag(inst),
                        kind: ErrKind::NotAString,
                    };
                    StepRes::Failed(e)
                },
            }
        },
                Instr::ClearStack => {
            stack.clear();
            proof {
                assert(stack_model(stack@) =~= Seq::<SpecVal>::empty());
                assert(state_of(stack@, io.input@, io.output@) =~= StateV {
                    stack: Seq::empty(),
                    ..st0
                });
            }
            StepRes::Cont
        },
                Instr::PrintStack => {
            if stack.len() > 0 {
                print_stack_down(stack, &mut io.output);
                proof {
                    assert(state_of(stack@, io.input@, io.output@) =~= StateV {
                        stack: st0.stack.take(1),
                        input: st0.input,
                        output: st0.output + render_stack_desc(st0.stack, 1) + seq!['\n'],
                    });
                }
            }
            StepRes::Cont
        },
                Instr::PrintStackLn => {
            if stack.len() > 0 {
                print_stack_lines(stack, &mut io.output);
                proof {
                    assert(stack_model(stack@) =~= Seq::<SpecVal>::empty());
                    assert(state_of(stack@, io.input@, io.output@) =~= StateV {
                        stack: Seq::empty(),
                        input: st0.input,
                        output: st0.output + render_stack_desc_ln(st0.stack),
                    });
                }
            }
            StepRes::Cont
        },
                Instr::ShowStack => {
            show_stack(stack, &mut io.output);
            proof {
                assert(state_of(stack@, io.input@, io.output@) =~= StateV {
                    stack: st0.stack,
                    input: st0.input,
                    output: st0.output + render_stack_asc(st0.stack),
                });
            }
            StepRes::Cont
        },
                Instr::Exit => StepRes::Exited(0),
        _ => {
            proof {
                assert(false);
            }
            StepRes::Cont
        },
    }
}

/// Executes one non-conditional instruction at index `idx` of the current
/// sequence against the stack and the channel.
fn step_instr(idx: usize, inst: &Instr, stack: &mut Vec<StackVal>, io: &mut Io) -> (r: StepRes)
    requires
        !(instr_model(*inst) is IfStmt),
    ensures
        step_ok(
            idx as int,
            instr_model(*inst),
            state_of(old(stack)@, old(io).input@, old(io).output@),
            stepres_model(r, state_of(final(stack)@, final(io).input@, final(io).output@)),
        ),
{
    let len = stack.len();
    let need = arity_of(inst);
    if len < need {
        let e = InterpretError { index: idx, instr: instr_tag(inst), kind: ErrKind::Underflow };
        return StepRes::Failed(e);
    }
    match inst {
        Instr::PushNum(_) | Instr::PushStr(_) | Instr::Print | Instr::PrintLn | Instr::Read => {
            step_literals(idx, inst, stack, io)
        },
        Instr::Plus | Instr::Sub | Instr::Mul | Instr::Div | Instr::GreaterThan
        | Instr::LessThan | Instr::Sum => step_math(idx, inst, stack, io),
        Instr::ParseNum | Instr::Eq | Instr::Not | Instr::Reverse | Instr::GenRange
        | Instr::FlipStack | Instr::Pop => step_values(idx, inst, stack, io),
        Instr::Syscall | Instr::Time | Instr::TimeFmt | Instr::ClearStack | Instr::PrintStack
        | Instr::PrintStackLn | Instr::ShowStack | Instr::Exit => step_control(
            idx,
            inst,
            stack,
            io,
        ),
        Instr::IfStmt(_) => {
            proof {
                assert(false);
            }
            StepRes::Cont
        },
    }
}

// ---------------------------------------------------------------------------
// The interpreter
// ---------------------------------------------------------------------------

proof fn lemma_step_cont(m: Seq<InstrV>, i: int, st0: StateV, pre: StateV, nxt: StateV)
    requires
        0 <= i < m.len(),
        forall|fin: StepOut| exec_from(m, i, pre, fin) ==> exec_from(m, 0, st0, fin),
        step_ok(i, m[i], pre, StepOut::Cont(nxt)),
    ensures
        forall|fin: StepOut| exec_from(m, i + 1, nxt, fin) ==> exec_from(m, 0, st0, fin),
{
    assert forall|fin: StepOut| exec_from(m, i + 1, nxt, fin) implies exec_from(
        m,
        0,
        st0,
        fin,
    ) by {
        assert(steps_on(m, i, pre, fin)) by {
            assert(step_ok(i, m[i], pre, cont_of(nxt)) && exec_from(m, i + 1, nxt, fin));
        }
        assert(exec_from(m, i, pre, fin));
    }
}

proof fn lemma_step_term(m: Seq<InstrV>, i: int, st0: StateV, pre: StateV, mid: StepOut)
    requires
        0 <= i < m.len(),
        forall|fin: StepOut| exec_from(m, i, pre, fin) ==> exec_from(m, 0, st0, fin),
        step_ok(i, m[i], pre, mid),
        !(mid is Cont),
    ensures
        exec_from(m, 0, st0, mid),
{
    assert(step_ok(i, m[i], pre, mid));
    assert(exec_from(m, i, pre, mid));
}

/// Executes the instructions in order against the stack, reading and writing
/// through `io`, recursing into conditional bodies against the same stack.
/// Returns how the run ended: ran through, asked to exit, or failed at the
/// first failing instruction, which changed nothing.
pub fn interpret_instructions(
    instructions: &Vec<Instr>,
    stack: &mut Vec<StackVal>,
    io: &mut Io,
) -> (r: Result<Flow, InterpretError>)
    ensures
        exec_from(
            body_model(instructions@),
            0,
            state_of(old(stack)@, old(io).input@, old(io).output@),
            outcome_of(r, state_of(final(stack)@, final(io).input@, final(io).output@)),
        ),
    decreases instructions,
{
    let ghost m = body_model(instructions@);
    let ghost st0 = state_of(old(stack)@, old(io).input@, old(io).output@);
    proof {
        crate::instruction::lemma_body_model_index(instructions@);
    }
    let len = instructions.len();
    let mut i: usize = 0;
    while i < len
        invariant
            0 <= i <= len,
            len == instructions@.len(),
            m == body_model(instructions@),
            m.len() == len,
            forall|j: int| 0 <= j < len ==> m[j] == instr_model(#[trigger] instructions@[j]),
            st0 == state_of(old(stack)@, old(io).input@, old(io).output@),
            forall|fin: StepOut|
                exec_from(m, i as int, state_of(stack@, io.input@, io.output@), fin)
                    ==> exec_from(m, 0, st0, fin),
        decreases len - i,
    {
        let ghost pre = state_of(stack@, io.input@, io.output@);
        let inst = &instructions[i];
        proof {
            assert(m[i as int] == instr_model(instructions@[i as int]));
        }
        match inst {
            Instr::IfStmt(body) => {
                if stack.len() < 1 {
                    let e = InterpretError {
                        index: i,
                        instr: InstrTag::IfStmt,
                        kind: ErrKind::Underflow,
                    };
                    proof {
                        let mid = StepOut::Fail(pre, e);
                        assert(step_ok(i as int, m[i as int], pre, mid));
                        lemma_step_term(m, i as int, st0, pre, mid);
                    }
                    return Err(e);
                }
                let cond: Option<bool> = match &stack[stack.len() - 1] {
                    StackVal::Bool(b) => Some(*b),
                    _ => None,
                };
                match cond {
                    None => {
                        let e = InterpretError {
                            index: i,
                            instr: InstrTag::IfStmt,
                            kind: ErrKind::NotABool,
                        };
                        proof {
                            let mid = StepOut::Fail(pre, e);
                            assert(step_ok(i as int, m[i as int], pre, mid));
                            lemma_step_term(m, i as int, st0, pre, mid);
                        }
                        return Err(e);
                    },
                    Some(false) => {
                        let ghost pstack = stack@;
                        let _ = stack.pop();
                        proof {
                            lemma_sm_drop_last(pstack);
                            let nxt = state_of(stack@, io.input@, io.output@);
                            assert(nxt =~= StateV { stack: pre.stack.drop_last(), ..pre });
                            assert(step_ok(i as int, m[i as int], pre, StepOut::Cont(nxt)));
                            lemma_step_cont(m, i as int, st0, pre, nxt);
                        }
                        i = i + 1;
                    },
                    Some(true) => {
                        let ghost pstack = stack@;
                        let _ = stack.pop();
                        let ghost entry = state_of(stack@, io.input@, io.output@);
                        proof {
                            lemma_sm_drop_last(pstack);
                            assert(entry =~= StateV { stack: pre.stack.drop_last(), ..pre });
                        }
                        let rr = interpret_instructions(body, stack, io);
                        let ghost post = state_of(stack@, io.input@, io.output@);
                        proof {
                            assert(m[i as int] == InstrV::IfStmt(body_model(body@)));
                            assert(step_ok(i as int, m[i as int], pre, outcome_of(rr, post)));
                        }
                        match rr {
                            Ok(Flow::Ran) => {
                                proof {
                                    lemma_step_cont(m, i as int, st0, pre, post);
                                }
                                i = i + 1;
                            },
                            Ok(Flow::Exited(c)) => {
                                proof {
                                    lemma_step_term(m, i as int, st0, pre, StepOut::Exit(post, c));
                                }
                                return Ok(Flow::Exited(c));
                            },
                            Err(e) => {
                                proof {
                                    lemma_step_term(m, i as int, st0, pre, StepOut::Fail(post, e));
                                }
                                return Err(e);
                            },
                        }
                    },
                }
            },
            other => {
                let res = step_instr(i, other, stack, io);
                let ghost post = state_of(stack@, io.input@, io.output@);
                match res {
                    StepRes::Cont => {
                        proof {
                            lemma_step_cont(m, i as int, st0, pre, post);
                        }
                        i = i + 1;
                    },
                    StepRes::Exited(c) => {
                        proof {
                            lemma_step_term(m, i as int, st0, pre, StepOut::Exit(post, c));
                        }
                        return Ok(Flow::Exited(c));
                    },
                    StepRes::Failed(e) => {
                        proof {
                            lemma_step_term(m, i as int, st0, pre, StepOut::Fail(post, e));
                        }
                        return Err(e);
                    },
                }
            },
        }
    }
    proof {
        let fin = StepOut::Cont(state_of(stack@, io.input@, io.output@));
        assert(exec_from(m, len as int, state_of(stack@, io.input@, io.output@), fin));
    }
    Ok(Flow::Ran)
}


} // verus!
