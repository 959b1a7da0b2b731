//! x86-64 assembly: the instructions the back end produces, and their
//! AT&T-syntax text.
use vstd::prelude::*;

use crate::intern::Interned;

verus! {

/// A jump target, numbered per program.
#[derive(Clone, Copy, PartialEq, Eq, Debug, Structural)]
pub struct Label(pub u32);

/// Whether a symbol is visible outside its translation unit.
#[derive(Clone, Copy, PartialEq, Eq, Debug, Structural)]
pub enum Linkage {
    Internal,
    Global,
}

/// The registers the back end uses.
#[derive(Clone, Copy, PartialEq, Eq, Debug, Structural)]
pub enum Reg {
    AX,
    CX,
    DX,
    R10,
    R11,
}

/// An instruction operand. `Psuedo` names a temporary before it is given a
/// stack slot; `Stack(n)` is the slot `n` bytes below the stack pointer.
#[derive(Clone, Copy, Debug)]
pub enum Operand<'src> {
    Imm(i32),
    Reg(Reg),
    Psuedo(usize),
    Stack(usize),
    GlobalVar(Interned<'src>),
}

#[derive(Clone, Copy, PartialEq, Eq, Debug, Structural)]
pub enum UnaryOp {
    Neg,
    Not,
}

#[derive(Clone, Copy, PartialEq, Eq, Debug, Structural)]
pub enum BinaryOp {
    Add,
    Sub,
    IMul,
    Shl,
    Sar,
    And,
    Or,
    Xor,
}

#[derive(Clone, Copy, PartialEq, Eq, Debug, Structural)]
pub enum CompareOp {
    E,
    NE,
    L,
    LE,
    G,
    GE,
}

/// An assembly instruction. Two-operand instructions are (source,
/// destination), as in AT&T syntax.
#[derive(Clone, Copy, Debug)]
pub enum Inst<'src> {
    Unary(UnaryOp, Operand<'src>),
    Binary(BinaryOp, Operand<'src>, Operand<'src>),
    Label(Label),
    Jump(Label),
    JumpCC(CompareOp, Label),
    Cmp(Operand<'src>, Operand<'src>),
    SetCC(CompareOp, Operand<'src>),
    Cdq,
    Mov(Operand<'src>, Operand<'src>),
    IDiv(Operand<'src>),
    AllocateStack(usize),
    Ret,
}

pub struct GlobalVar<'src> {
    pub name: Interned<'src>,
}

pub struct Function<'src> {
    pub name: Interned<'src>,
    pub insts: Vec<Inst<'src>>,
}

pub struct Program<'src> {
    pub functions: Vec<Function<'src>>,
    pub globals: Vec<GlobalVar<'src>>,
}

/// An operand in memory.
pub open spec fn is_mem(o: Operand) -> bool {
    o is Stack
}

/// Both operands are in memory, which no x86 instruction accepts.
pub open spec fn spec_is_mem_to_mem(a: Operand, b: Operand) -> bool {
    is_mem(a) && is_mem(b)
}

/// Both operands are in memory.
pub fn is_mem_to_mem(a: Operand, b: Operand) -> (r: bool)
    ensures
        r == spec_is_mem_to_mem(a, b),
{
    matches!(a, Operand::Stack(_)) && matches!(b, Operand::Stack(_))
}

} // verus!
verus! {

use crate::text::{decimal, push_decimal, push_str, string_from_chars};

/// An `i32` in decimal, with a leading `-` when negative.
pub open spec fn int_text(n: int) -> Seq<char> {
    if n < 0 {
        seq!['-'] + decimal((-n) as nat)
    } else {
        decimal(n as nat)
    }
}

/// Appends an `i32` in decimal.
pub fn push_int(out: &mut Vec<char>, n: i32)
    ensures
        final(out)@ == old(out)@ + int_text(n as int),
{
    if n < 0 {
        out.push('-');
        let m: u64 = (-(n as i64)) as u64;
        proof {
            assert(m <= 2147483648);
        }
        let ghost mid = out@;
        push_decimal(out, m as usize);
        proof {
            assert(final(out)@ =~= old(out)@ + int_text(n as int));
        }
    } else {
        push_decimal(out, n as usize);
    }
}

/// The name of a register at each width, in bytes.
pub open spec fn reg_name(r: Reg, width: nat) -> Seq<char> {
    match r {
        Reg::AX => if width == 1 { "al"@ } else if width == 2 { "ax"@ } else if width == 4 { "eax"@ } else { "rax"@ },
        Reg::CX => if width == 1 { "cl"@ } else if width == 2 { "cx"@ } else if width == 4 { "ecx"@ } else { "rcx"@ },
        Reg::DX => if width == 1 { "dl"@ } else if width == 2 { "dx"@ } else if width == 4 { "edx"@ } else { "rdx"@ },
        Reg::R10 => if width == 1 { "r10b"@ } else if width == 2 { "r10w"@ } else if width == 4 { "r10d"@ } else { "r10"@ },
        Reg::R11 => if width == 1 { "r11b"@ } else if width == 2 { "r11w"@ } else if width == 4 { "r11d"@ } else { "r11"@ },
    }
}

impl Reg {
    /// The one-byte register name.
    pub fn as_one_byte(self) -> (r: &'static str)
        ensures
            r@ == reg_name(self, 1),
    {
        match self {
            Reg::AX => "al",
            Reg::CX => "cl",
            Reg::DX => "dl",
            Reg::R10 => "r10b",
            Reg::R11 => "r11b",
        }
    }

    /// The two-byte register name.
    pub fn as_two_byte(self) -> (r: &'static str)
        ensures
            r@ == reg_name(self, 2),
    {
        match self {
            Reg::AX => "ax",
            Reg::CX => "cx",
            Reg::DX => "dx",
            Reg::R10 => "r10w",
            Reg::R11 => "r11w",
        }
    }

    /// The four-byte register name.
    pub fn as_four_byte(self) -> (r: &'static str)
        ensures
            r@ == reg_name(self, 4),
    {
        match self {
            Reg::AX => "eax",
            Reg::CX => "ecx",
            Reg::DX => "edx",
            Reg::R10 => "r10d",
            Reg::R11 => "r11d",
        }
    }

    /// The eight-byte register name.
    pub fn as_eight_byte(self) -> (r: &'static str)
        ensures
            r@ == reg_name(self, 8),
    {
        match self {
            Reg::AX => "rax",
            Reg::CX => "rcx",
            Reg::DX => "rdx",
            Reg::R10 => "r10",
            Reg::R11 => "r11",
        }
    }
}

/// An operand in AT&T syntax, registers at the given width.
pub open spec fn operand_text(o: Operand, width: nat) -> Seq<char> {
    match o {
        Operand::Imm(imm) => "$"@ + int_text(imm as int),
        Operand::Reg(r) => "%"@ + reg_name(r, width),
        Operand::Stack(offset) => "-"@ + decimal(offset as nat) + "(%rsp)"@,
        Operand::GlobalVar(name) => name.text(),
        Operand::Psuedo(_) => Seq::empty(),
    }
}

/// Appends an operand at the given width (1, 2, 4 or 8 bytes).
pub fn push_operand(out: &mut Vec<char>, o: Operand, width: usize)
    requires
        !(o is Psuedo),
        width == 1 || width == 2 || width == 4 || width == 8,
    ensures
        final(out)@ == old(out)@ + operand_text(o, width as nat),
{
    match o {
        Operand::Imm(imm) => {
            push_str(out, "$");
            push_int(out, imm);
            proof {
                assert(final(out)@ =~= old(out)@ + operand_text(o, width as nat));
            }
        },
        Operand::Reg(r) => {
            push_str(out, "%");
            let name = if width == 1 {
                r.as_one_byte()
            } else if width == 2 {
                r.as_two_byte()
            } else if width == 4 {
                r.as_four_byte()
            } else {
                r.as_eight_byte()
            };
            push_str(out, name);
            proof {
                assert(final(out)@ =~= old(out)@ + operand_text(o, width as nat));
            }
        },
        Operand::Stack(offset) => {
            push_str(out, "-");
            push_decimal(out, offset);
            push_str(out, "(%rsp)");
            proof {
                assert(final(out)@ =~= old(out)@ + operand_text(o, width as nat));
            }
        },
        Operand::GlobalVar(name) => {
            push_str(out, name.get());
        },
        Operand::Psuedo(_) => {},
    }
}

/// The mnemonic of a one-operand instruction.
pub open spec fn unary_op_text(op: UnaryOp) -> Seq<char> {
    match op {
        UnaryOp::Neg => "negl"@,
        UnaryOp::Not => "notl"@,
    }
}

/// The mnemonic of a two-operand instruction.
pub open spec fn binary_op_text(op: BinaryOp) -> Seq<char> {
    match op {
        BinaryOp::Add => "addl"@,
        BinaryOp::Sub => "subl"@,
        BinaryOp::IMul => "imull"@,
        BinaryOp::Shl => "shl"@,
        BinaryOp::Sar => "sar"@,
        BinaryOp::And => "andl"@,
        BinaryOp::Or => "orl"@,
        BinaryOp::Xor => "xorl"@,
    }
}

/// The condition suffix of `j..` and `set..`.
pub open spec fn compare_op_text(op: CompareOp) -> Seq<char> {
    match op {
        CompareOp::E => "e"@,
        CompareOp::NE => "ne"@,
        CompareOp::G => "g"@,
        CompareOp::GE => "ge"@,
        CompareOp::L => "l"@,
        CompareOp::LE => "le"@,
    }
}

impl UnaryOp {
    pub fn text(self) -> (r: &'static str)
        ensures
            r@ == unary_op_text(self),
    {
        match self {
            UnaryOp::Neg => "negl",
            UnaryOp::Not => "notl",
        }
    }
}

impl BinaryOp {
    pub fn text(self) -> (r: &'static str)
        ensures
            r@ == binary_op_text(self),
    {
        match self {
            BinaryOp::Add => "addl",
            BinaryOp::Sub => "subl",
            BinaryOp::IMul => "imull",
            BinaryOp::Shl => "shl",
            BinaryOp::Sar => "sar",
            BinaryOp::And => "andl",
            BinaryOp::Or => "orl",
            BinaryOp::Xor => "xorl",
        }
    }
}

impl CompareOp {
    pub fn text(self) -> (r: &'static str)
        ensures
            r@ == compare_op_text(self),
    {
        match self {
            CompareOp::E => "e",
            CompareOp::NE => "ne",
            CompareOp::G => "g",
            CompareOp::GE => "ge",
            CompareOp::L => "l",
            CompareOp::LE => "le",
        }
    }
}

/// A label as written: `.L` and its number.
pub open spec fn label_text(l: Label) -> Seq<char> {
    ".L"@ + decimal(l.0 as nat)
}

/// An instruction as one or more lines of AT&T syntax, without the final
/// newline; every line but a label's is indented by four spaces.
pub open spec fn inst_text(i: Inst) -> Seq<char> {
    match i {
        Inst::Label(l) => label_text(l) + ":"@,
        _ => "    "@ + match i {
            Inst::Unary(op, d) => unary_op_text(op) + " "@ + operand_text(d, 4),
            Inst::Binary(op, s, d) => binary_op_text(op) + " "@ + operand_text(s, if op == BinaryOp::Sar || op == BinaryOp::Shl { 1 } else { 4 }) + ", "@ + operand_text(d, 4),
            Inst::Jump(l) => "jmp "@ + label_text(l),
            Inst::JumpCC(cc, l) => "j"@ + compare_op_text(cc) + " "@ + label_text(l),
            Inst::IDiv(o) => "idivl "@ + operand_text(o, 4),
            Inst::Cmp(a, b) => "cmpl "@ + operand_text(a, 4) + ", "@ + operand_text(b, 4),
            Inst::SetCC(cc, d) => "set"@ + compare_op_text(cc) + " "@ + operand_text(d, 1),
            Inst::Cdq => "cdq"@,
            Inst::Mov(s, d) => "movl "@ + operand_text(s, 4) + ", "@ + operand_text(d, 4),
            Inst::AllocateStack(n) => "subq $"@ + decimal(n as nat) + ", %rsp"@,
            Inst::Ret => "movq %rbp, %rsp\n    popq %rbp\n    ret"@,
            Inst::Label(_) => Seq::empty(),
        },
    }
}

/// No operand of the instruction names a temporary.
pub open spec fn inst_printable(i: Inst) -> bool {
    match i {
        Inst::Unary(_, d) => !(d is Psuedo),
        Inst::Binary(_, s, d) => !(s is Psuedo) && !(d is Psuedo),
        Inst::Cmp(a, b) => !(a is Psuedo) && !(b is Psuedo),
        Inst::SetCC(_, d) => !(d is Psuedo),
        Inst::Mov(s, d) => !(s is Psuedo) && !(d is Psuedo),
        Inst::IDiv(o) => !(o is Psuedo),
        _ => true,
    }
}

pub fn push_label(out: &mut Vec<char>, l: Label)
    ensures
        final(out)@ == old(out)@ + label_text(l),
{
    push_str(out, ".L");
    push_decimal(out, l.0 as usize);
    proof {
        assert(final(out)@ =~= old(out)@ + label_text(l));
    }
}

/// Appends an instruction (without the final newline).
pub fn push_inst(out: &mut Vec<char>, i: &Inst)
    requires
        inst_printable(*i),
    ensures
        final(out)@ == old(out)@ + inst_text(*i),
{
    let ghost start = out@;
    match i {
        Inst::Label(l) => {
            push_label(out, *l);
            push_str(out, ":");
        },
        _ => {
            push_str(out, "    ");
            match i {
                Inst::Unary(op, d) => {
                    push_str(out, op.text());
                    push_str(out, " ");
                    push_operand(out, *d, 4);
                },
                Inst::Binary(op, s, d) => {
                    push_str(out, op.text());
                    push_str(out, " ");
                    let w: usize = if *op == BinaryOp::Sar || *op == BinaryOp::Shl { 1 } else { 4 };
                    push_operand(out, *s, w);
                    push_str(out, ", ");
                    push_operand(out, *d, 4);
                },
                Inst::Jump(l) => {
                    push_str(out, "jmp ");
                    push_label(out, *l);
                },
                Inst::JumpCC(cc, l) => {
                    push_str(out, "j");
                    push_str(out, cc.text());
                    push_str(out, " ");
                    push_label(out, *l);
                },
                Inst::IDiv(o) => {
                    push_str(out, "idivl ");
                    push_operand(out, *o, 4);
                },
                Inst::Cmp(a, b) => {
                    push_str(out, "cmpl ");
                    push_operand(out, *a, 4);
                    push_str(out, ", ");
                    push_operand(out, *b, 4);
                },
                Inst::SetCC(cc, d) => {
                    push_str(out, "set");
                    push_str(out, cc.text());
                    push_str(out, " ");
                    push_operand(out, *d, 1);
                },
                Inst::Cdq => push_str(out, "cdq"),
                Inst::Mov(s, d) => {
                    push_str(out, "movl ");
                    push_operand(out, *s, 4);
                    push_str(out, ", ");
                    push_operand(out, *d, 4);
                },
                Inst::AllocateStack(n) => {
                    push_str(out, "subq $");
                    push_decimal(out, *n);
                    push_str(out, ", %rsp");
                },
                Inst::Ret => push_str(out, "movq %rbp, %rsp\n    popq %rbp\n    ret"),
                Inst::Label(_) => {},
            }
        },
    }
    proof {
        assert(final(out)@ =~= old(out)@ + inst_text(*i));
    }
}

/// The instructions `k..` of a function, each followed by a newline.
pub open spec fn insts_text(insts: Seq<Inst>, k: int) -> Seq<char>
    decreases insts.len() - k,
{
    if k < 0 || k >= insts.len() {
        Seq::empty()
    } else {
        inst_text(insts[k]) + "\n"@ + insts_text(insts, k + 1)
    }
}

/// A function as assembly text: its global symbol, label, prologue and
/// instructions.
pub open spec fn function_text(f: Function) -> Seq<char> {
    "    .globl "@ + f.name.text() + "\n"@ + f.name.text() + ":\n    pushq %rbp\n    movq %rsp, %rbp\n"@ + insts_text(f.insts@, 0)
}

/// The functions `k..` of a program, each followed by a blank line.
pub open spec fn functions_text(fs: Seq<Function>, k: int) -> Seq<char>
    decreases fs.len() - k,
{
    if k < 0 || k >= fs.len() {
        Seq::empty()
    } else {
        function_text(fs[k]) + "\n"@ + functions_text(fs, k + 1)
    }
}

/// Every instruction of every function can be printed.
pub open spec fn program_printable(p: Program) -> bool {
    forall|i: int| 0 <= i < p.functions@.len() ==> forall|j: int|
        0 <= j < (#[trigger] p.functions@[i]).insts@.len() ==> inst_printable(#[trigger] p.functions@[i].insts@[j])
}

impl<'src> Function<'src> {
    /// Appends the function as assembly text.
    pub fn push_text(&self, out: &mut Vec<char>)
        requires
            forall|j: int| 0 <= j < self.insts@.len() ==> inst_printable(#[trigger] self.insts@[j]),
        ensures
            final(out)@ == old(out)@ + function_text(*self),
    {
        let ghost start = out@;
        push_str(out, "    .globl ");
        push_str(out, self.name.get());
        push_str(out, "\n");
        push_str(out, self.name.get());
        push_str(out, ":\n    pushq %rbp\n    movq %rsp, %rbp\n");
        let ghost head = out@;
        let mut k: usize = 0;
        while k < self.insts.len()
            invariant
                k <= self.insts@.len(),
                forall|j: int| 0 <= j < self.insts@.len() ==> inst_printable(#[trigger] self.insts@[j]),
                out@ + insts_text(self.insts@, k as int) == head + insts_text(self.insts@, 0),
            decreases self.insts@.len() - k,
        {
            let ghost before = out@;
            push_inst(out, &self.insts[k]);
            push_str(out, "\n");
            proof {
                assert(out@ + insts_text(self.insts@, k + 1) =~= before + insts_text(self.insts@, k as int));
            }
            k += 1;
        }
        proof {
            assert(out@ =~= head + insts_text(self.insts@, 0));
            assert(final(out)@ =~= old(out)@ + function_text(*self));
        }
    }
}

impl<'src> Program<'src> {
    /// The program as assembly text. Variables with static storage cannot
    /// be written out yet, so there must be none.
    pub fn to_text(&self) -> (r: String)
        requires
            self.globals@.len() == 0,
            program_printable(*self),
        ensures
            r@ == functions_text(self.functions@, 0),
    {
        let mut out: Vec<char> = Vec::new();
        let mut k: usize = 0;
        while k < self.functions.len()
            invariant
                k <= self.functions@.len(),
                program_printable(*self),
                out@ + functions_text(self.functions@, k as int) == functions_text(self.functions@, 0),
            decreases self.functions@.len() - k,
        {
            let ghost before = out@;
            let f = &self.functions[k];
            proof {
                assert forall|j: int| 0 <= j < f.insts@.len() implies inst_printable(#[trigger] f.insts@[j]) by {
                    assert(f.insts@[j] == self.functions@[k as int].insts@[j]);
                }
            }
            f.push_text(&mut out);
            push_str(&mut out, "\n");
            proof {
                assert(out@ + functions_text(self.functions@, k + 1) =~= before + functions_text(self.functions@, k as int));
            }
            k += 1;
        }
        proof {
            assert(out@ =~= functions_text(self.functions@, 0));
        }
        string_from_chars(&out)
    }
}

} // verus!
