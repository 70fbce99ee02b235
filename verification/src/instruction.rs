//! The instruction set: a closed tagged variant, one member per opcode, with
//! the conditional carrying a nested instruction sequence as its body.

use vstd::prelude::*;

verus! {

broadcast use
    vstd::seq::axiom_seq_index_decreases,
    vstd::seq::axiom_seq_subrange_decreases,
    vstd::std_specs::vec::axiom_vec_decreases_to_view,
    vstd::std_specs::vec::axiom_vec_index_decreases;

/// One parsed instruction. The conditional carries its body; the two push
/// instructions carry their literal.
#[derive(Debug, PartialEq)]
pub enum Instr {
    Print,
    PrintLn,
    Read,
    Div,
    Plus,
    Sub,
    Mul,
    GreaterThan,
    LessThan,
    Sum,
    ParseNum,
    Reverse,
    GenRange,
    FlipStack,
    Pop,
    PushStr(Vec<char>),
    PushNum(i64),
    Syscall,
    Time,
    TimeFmt,
    IfStmt(Vec<Instr>),
    Eq,
    Not,
    ClearStack,
    PrintStack,
    PrintStackLn,
    ShowStack,
    Exit,
}

/// The mathematical model of an instruction: literals as sequences, the
/// conditional body as a sequence of models.
#[verifier::ext_equal]
pub enum InstrV {
    Print,
    PrintLn,
    Read,
    Div,
    Plus,
    Sub,
    Mul,
    GreaterThan,
    LessThan,
    Sum,
    ParseNum,
    Reverse,
    GenRange,
    FlipStack,
    Pop,
    PushStr(Seq<char>),
    PushNum(i64),
    Syscall,
    Time,
    TimeFmt,
    IfStmt(Seq<InstrV>),
    Eq,
    Not,
    ClearStack,
    PrintStack,
    PrintStackLn,
    ShowStack,
    Exit,
}

pub open spec fn instr_model(i: Instr) -> InstrV
    decreases i,
{
    match i {
        Instr::Print => InstrV::Print,
        Instr::PrintLn => InstrV::PrintLn,
        Instr::Read => InstrV::Read,
        Instr::Div => InstrV::Div,
        Instr::Plus => InstrV::Plus,
        Instr::Sub => InstrV::Sub,
        Instr::Mul => InstrV::Mul,
        Instr::GreaterThan => InstrV::GreaterThan,
        Instr::LessThan => InstrV::LessThan,
        Instr::Sum => InstrV::Sum,
        Instr::ParseNum => InstrV::ParseNum,
        Instr::Reverse => InstrV::Reverse,
        Instr::GenRange => InstrV::GenRange,
        Instr::FlipStack => InstrV::FlipStack,
        Instr::Pop => InstrV::Pop,
        Instr::PushStr(s) => InstrV::PushStr(s@),
        Instr::PushNum(n) => InstrV::PushNum(n),
        Instr::Syscall => InstrV::Syscall,
        Instr::Time => InstrV::Time,
        Instr::TimeFmt => InstrV::TimeFmt,
        Instr::IfStmt(body) => InstrV::IfStmt(body_model(body@)),
        Instr::Eq => InstrV::Eq,
        Instr::Not => InstrV::Not,
        Instr::ClearStack => InstrV::ClearStack,
        Instr::PrintStack => InstrV::PrintStack,
        Instr::PrintStackLn => InstrV::PrintStackLn,
        Instr::ShowStack => InstrV::ShowStack,
        Instr::Exit => InstrV::Exit,
    }
}

pub open spec fn body_model(s: Seq<Instr>) -> Seq<InstrV>
    decreases s,
{
    if s.len() == 0 {
        Seq::empty()
    } else {
        body_model(s.drop_last()).push(instr_model(s.last()))
    }
}

/// Whether the instruction reads a line, here or in a nested body.
pub open spec fn instr_has_read(i: InstrV) -> bool
    decreases i,
{
    match i {
        InstrV::Read => true,
        InstrV::IfStmt(body) => body_has_read(body),
        _ => false,
    }
}

pub open spec fn body_has_read(s: Seq<InstrV>) -> bool
    decreases s,
{
    if s.len() == 0 {
        false
    } else {
        body_has_read(s.drop_last()) || instr_has_read(s.last())
    }
}

/// Whether the program can ask for an input line anywhere.
pub fn contains_read(instrs: &Vec<Instr>) -> (r: bool)
    ensures
        r == body_has_read(body_model(instrs@)),
    decreases instrs,
{
    let ghost m = body_model(instrs@);
    proof {
        lemma_body_model_index(instrs@);
    }
    let len = instrs.len();
    let mut i: usize = 0;
    while i < len
        invariant
            0 <= i <= len,
            len == instrs@.len(),
            m == body_model(instrs@),
            m.len() == len,
            forall|j: int| 0 <= j < len ==> m[j] == instr_model(#[trigger] instrs@[j]),
            !body_has_read(m.take(i as int)),
        decreases len - i,
    {
        proof {
            assert(m.take(i as int + 1).drop_last() =~= m.take(i as int));
            assert(m.take(i as int + 1).last() == m[i as int]);
        }
        match &instrs[i] {
            Instr::Read => {
                proof {
                    lemma_body_has_read_prefix(m, i as int);
                }
                return true;
            },
            Instr::IfStmt(body) => {
                if contains_read(body) {
                    proof {
                        lemma_body_has_read_prefix(m, i as int);
                    }
                    return true;
                }
                proof {
                    assert(m[i as int] == InstrV::IfStmt(body_model(body@)));
                    assert(!instr_has_read(m[i as int]));
                }
            },
            _ => {
                proof {
                    assert(!instr_has_read(m[i as int]));
                }
            },
        }
        proof {
            assert(!body_has_read(m.take(i as int + 1)));
        }
        i = i + 1;
    }
    proof {
        assert(m.take(len as int) =~= m);
    }
    false
}

/// A read anywhere in the sequence is a read of the whole sequence.
proof fn lemma_body_has_read_prefix(s: Seq<InstrV>, k: int)
    requires
        0 <= k < s.len(),
        instr_has_read(s[k]),
    ensures
        body_has_read(s),
    decreases s.len(),
{
    if k < s.len() - 1 {
        assert(s.drop_last()[k] == s[k]);
        lemma_body_has_read_prefix(s.drop_last(), k);
    }
}

/// The model of a sequence is the model of its members, in order.
pub proof fn lemma_body_model_index(s: Seq<Instr>)
    ensures
        body_model(s).len() == s.len(),
        forall|j: int| 0 <= j < s.len() ==> body_model(s)[j] == instr_model(#[trigger] s[j]),
    decreases s.len(),
{
    if s.len() > 0 {
        lemma_body_model_index(s.drop_last());
        assert forall|j: int| 0 <= j < s.len() implies body_model(s)[j] == instr_model(
            #[trigger] s[j],
        ) by {
            if j < s.len() - 1 {
                assert(s.drop_last()[j] == s[j]);
                assert(body_model(s)[j] == body_model(s.drop_last())[j]);
            } else {
                assert(s.last() == s[j]);
            }
        }
    }
}

} // verus!
