//! Three-address code: the intermediate form between the checked tree and
//! assembly, and its lowering to assembly.
use vstd::prelude::*;

use crate::compiler::x86::Label;
use crate::intern::Interned;

pub mod pretty;

verus! {

/// A value an instruction reads or writes.
#[derive(Clone, Copy, Debug)]
pub enum Val<'src> {
    Const(i32),
    Temp(usize),
    Fn(Interned<'src>),
    GlobalVar(Interned<'src>),
    LocalStaticLoad(u32),
}

#[derive(Clone, Copy, PartialEq, Eq, Debug, Structural)]
pub enum UnaryOp {
    Compliment,
    Negate,
    Not,
}

#[derive(Clone, Copy, PartialEq, Eq, Debug, Structural)]
pub enum BinaryOp {
    Div,
    Mul,
    Rem,
    Add,
    Sub,
    L,
    LE,
    G,
    GE,
    E,
    NE,
    Shl,
    Sar,
    BitAnd,
    BitXor,
    BitOr,
}

pub enum Inst<'src> {
    Ret(Val<'src>),
    Copy { src: Val<'src>, dst: Val<'src> },
    Unary { op: UnaryOp, src: Val<'src>, dst: Val<'src> },
    Binary { op: BinaryOp, lhs: Val<'src>, rhs: Val<'src>, dst: Val<'src> },
    Jump(Label),
    JumpIfZero(Val<'src>, Label),
    JumpIfNotZero(Val<'src>, Label),
    Label(Label),
    Call { operand: Val<'src>, args: Vec<Val<'src>>, dst: Val<'src> },
}

/// A variable with static storage; `generation` tells apart static locals
/// that share a name.
pub struct GlobalVar<'src> {
    pub name: Interned<'src>,
    pub generation: Option<u32>,
    pub def: Option<i32>,
}

pub struct Function<'src> {
    pub name: Interned<'src>,
    pub insts: Vec<Inst<'src>>,
}

pub struct Program<'src> {
    pub functions: Vec<Function<'src>>,
    pub globals: Vec<GlobalVar<'src>>,
}

/// A value the assembly back end can place: a constant or a temporary.
pub open spec fn val_plain(v: Val) -> bool {
    v is Const || v is Temp
}

/// An instruction the assembly back end can lower: no call, and only plain
/// values.
pub open spec fn inst_plain(i: Inst) -> bool {
    match i {
        Inst::Ret(v) => val_plain(v),
        Inst::Copy { src, dst } => val_plain(src) && val_plain(dst),
        Inst::Unary { src, dst, .. } => val_plain(src) && val_plain(dst),
        Inst::Binary { lhs, rhs, dst, .. } => val_plain(lhs) && val_plain(rhs) && val_plain(dst),
        Inst::JumpIfZero(v, _) => val_plain(v),
        Inst::JumpIfNotZero(v, _) => val_plain(v),
        Inst::Call { .. } => false,
        _ => true,
    }
}

/// The instructions from position `k` on are plain.
pub open spec fn insts_plain_from(insts: Seq<Inst>, k: int) -> bool {
    forall|i: int| k <= i < insts.len() ==> inst_plain(#[trigger] insts[i])
}

/// Every function of a program has only plain instructions.
pub open spec fn program_plain(p: Program) -> bool {
    forall|i: int| 0 <= i < p.functions@.len() ==> insts_plain_from((#[trigger] p.functions@[i]).insts@, 0)
}

} // verus!
verus! {

use crate::compiler::x86::{self, CompareOp, Operand, Reg};

/// The operand for a plain value.
pub open spec fn spec_convert_val<'src>(v: Val<'src>) -> Operand<'src> {
    match v {
        Val::Const(imm) => Operand::Imm(imm),
        Val::Temp(id) => Operand::Psuedo(id),
        _ => Operand::Imm(0),
    }
}

/// The x86 operation for an arithmetic or bitwise operator.
pub open spec fn spec_asm_binary_op(op: BinaryOp) -> x86::BinaryOp {
    match op {
        BinaryOp::Add => x86::BinaryOp::Add,
        BinaryOp::Sub => x86::BinaryOp::Sub,
        BinaryOp::Mul => x86::BinaryOp::IMul,
        BinaryOp::Sar => x86::BinaryOp::Sar,
        BinaryOp::Shl => x86::BinaryOp::Shl,
        BinaryOp::BitAnd => x86::BinaryOp::And,
        BinaryOp::BitOr => x86::BinaryOp::Or,
        _ => x86::BinaryOp::Xor,
    }
}

/// The condition code for a comparison operator.
pub open spec fn spec_compare_op(op: BinaryOp) -> CompareOp {
    match op {
        BinaryOp::E => CompareOp::E,
        BinaryOp::NE => CompareOp::NE,
        BinaryOp::G => CompareOp::G,
        BinaryOp::GE => CompareOp::GE,
        BinaryOp::L => CompareOp::L,
        _ => CompareOp::LE,
    }
}

/// The instructions for `d = l op r`: arithmetic and bitwise operators
/// work in place on `d`, division goes through `eax` and `edx`, and a
/// comparison sets `d` from the flags.
pub open spec fn select_binary<'src>(op: BinaryOp, l: Operand<'src>, r: Operand<'src>, d: Operand<'src>) -> Seq<x86::Inst<'src>> {
    match op {
        BinaryOp::Add | BinaryOp::Mul | BinaryOp::Sub | BinaryOp::Sar | BinaryOp::Shl | BinaryOp::BitAnd
        | BinaryOp::BitOr | BinaryOp::BitXor => seq![x86::Inst::Mov(l, d), x86::Inst::Binary(spec_asm_binary_op(op), r, d)],
        BinaryOp::Div => seq![x86::Inst::Mov(l, Operand::Reg(Reg::AX)), x86::Inst::Cdq, x86::Inst::IDiv(r), x86::Inst::Mov(Operand::Reg(Reg::AX), d)],
        BinaryOp::Rem => seq![x86::Inst::Mov(l, Operand::Reg(Reg::AX)), x86::Inst::Cdq, x86::Inst::IDiv(r), x86::Inst::Mov(Operand::Reg(Reg::DX), d)],
        _ => seq![x86::Inst::Cmp(r, l), x86::Inst::Mov(Operand::Imm(0), d), x86::Inst::SetCC(spec_compare_op(op), d)],
    }
}

/// The instructions for `d = op s`: `!` compares with 0, `~` and `-` work
/// in place on `d`.
pub open spec fn select_unary<'src>(op: UnaryOp, s: Operand<'src>, d: Operand<'src>) -> Seq<x86::Inst<'src>> {
    match op {
        UnaryOp::Not => seq![x86::Inst::Cmp(Operand::Imm(0), s), x86::Inst::Mov(Operand::Imm(0), d), x86::Inst::SetCC(CompareOp::E, d)],
        UnaryOp::Compliment => seq![x86::Inst::Mov(s, d), x86::Inst::Unary(x86::UnaryOp::Not, d)],
        UnaryOp::Negate => seq![x86::Inst::Mov(s, d), x86::Inst::Unary(x86::UnaryOp::Neg, d)],
    }
}

/// The instructions chosen for one plain three-address instruction.
pub open spec fn select_inst<'src>(inst: Inst<'src>) -> Seq<x86::Inst<'src>> {
    match inst {
        Inst::Binary { op, lhs, rhs, dst } => select_binary(op, spec_convert_val(lhs), spec_convert_val(rhs), spec_convert_val(dst)),
        Inst::Unary { op, src, dst } => select_unary(op, spec_convert_val(src), spec_convert_val(dst)),
        Inst::Label(l) => seq![x86::Inst::Label(l)],
        Inst::Jump(l) => seq![x86::Inst::Jump(l)],
        Inst::JumpIfZero(v, l) => seq![x86::Inst::Cmp(Operand::Imm(0), spec_convert_val(v)), x86::Inst::JumpCC(CompareOp::E, l)],
        Inst::JumpIfNotZero(v, l) => seq![x86::Inst::Cmp(Operand::Imm(0), spec_convert_val(v)), x86::Inst::JumpCC(CompareOp::NE, l)],
        Inst::Ret(v) => seq![x86::Inst::Mov(spec_convert_val(v), Operand::Reg(Reg::AX)), x86::Inst::Ret],
        Inst::Copy { src, dst } => seq![x86::Inst::Mov(spec_convert_val(src), spec_convert_val(dst))],
        Inst::Call { .. } => Seq::empty(),
    }
}

/// The instructions chosen for a sequence, in order.
pub open spec fn selected<'src>(insts: Seq<Inst<'src>>) -> Seq<x86::Inst<'src>>
    decreases insts.len(),
{
    if insts.len() == 0 {
        Seq::empty()
    } else {
        selected(insts.drop_last()) + select_inst(insts.last())
    }
}

/// An operand that no longer names a temporary.
pub open spec fn placed(o: Operand) -> bool {
    !(o is Psuedo)
}

/// Every operand of an instruction has its final place.
pub open spec fn inst_placed(i: x86::Inst) -> bool {
    match i {
        x86::Inst::Unary(_, d) => placed(d),
        x86::Inst::Binary(_, s, d) => placed(s) && placed(d),
        x86::Inst::Cmp(a, b) => placed(a) && placed(b),
        x86::Inst::SetCC(_, d) => placed(d),
        x86::Inst::Mov(s, d) => placed(s) && placed(d),
        x86::Inst::IDiv(o) => placed(o),
        _ => true,
    }
}

/// An immediate that does not fit a byte.
pub open spec fn is_wide_imm(o: Operand) -> bool {
    o matches Operand::Imm(imm) && imm > 255
}

/// An instruction x86 can encode: at most one memory operand, no
/// immediate divisor, no immediate as the second operand of `cmp`, no
/// memory destination for `imul`, and a shift count in a register or a
/// byte-sized immediate.
pub open spec fn inst_legal(i: x86::Inst) -> bool {
    match i {
        x86::Inst::Mov(s, d) => !x86::spec_is_mem_to_mem(s, d),
        x86::Inst::Cmp(a, b) => !x86::spec_is_mem_to_mem(a, b) && !(b is Imm),
        x86::Inst::IDiv(o) => !(o is Imm),
        x86::Inst::Binary(op, s, d) => match op {
            x86::BinaryOp::IMul => !(d is Stack),
            x86::BinaryOp::Sar | x86::BinaryOp::Shl => !(s is Stack) && !is_wide_imm(s),
            _ => !x86::spec_is_mem_to_mem(s, d),
        },
        _ => true,
    }
}

/// The instructions from `k` on are all placed.
pub open spec fn all_placed_from(insts: Seq<x86::Inst>, k: int) -> bool {
    forall|i: int| k <= i < insts.len() ==> inst_placed(#[trigger] insts[i])
}

/// The instructions from `k` on are all legal and placed.
pub open spec fn all_legal_from(insts: Seq<x86::Inst>, k: int) -> bool {
    forall|i: int| k <= i < insts.len() ==> inst_legal(#[trigger] insts[i]) && inst_placed(insts[i])
}

/// `before` is a prefix of `after`.
pub open spec fn asm_extends<'src>(before: Seq<x86::Inst<'src>>, after: Seq<x86::Inst<'src>>) -> bool {
    before.len() <= after.len() && forall|i: int| 0 <= i < before.len() ==> #[trigger] after[i] == before[i]
}

/// The stack slot given to temporary `p`, if any.
pub open spec fn slot_of(regs: Seq<(usize, usize)>, p: usize) -> Option<usize>
    decreases regs.len(),
{
    if regs.len() == 0 {
        None
    } else {
        match slot_of(regs.drop_last(), p) {
            Some(pos) => Some(pos),
            None => if regs.last().0 == p {
                Some(regs.last().1)
            } else {
                None
            },
        }
    }
}

/// Slot `i` (from 0) ends `4 * (i + 1)` bytes below the frame: each
/// temporary has a four-byte slot of its own, and the frame holds them all.
pub open spec fn slots_wf(regs: Seq<(usize, usize)>, stack: usize) -> bool {
    &&& stack == 4 * regs.len()
    &&& forall|i: int| 0 <= i < regs.len() ==> #[trigger] regs[i].1 == 4 * (i + 1)
    &&& forall|i: int, j: int| 0 <= i < j < regs.len() ==> #[trigger] regs[i].0 != #[trigger] regs[j].0
}

pub proof fn lemma_slot_of(regs: Seq<(usize, usize)>, p: usize)
    ensures
        match slot_of(regs, p) {
            Some(pos) => exists|i: int| 0 <= i < regs.len() && regs[i].0 == p && regs[i].1 == pos,
            None => forall|i: int| 0 <= i < regs.len() ==> regs[i].0 != p,
        },
    decreases regs.len(),
{
    if regs.len() > 0 {
        let t = regs.drop_last();
        lemma_slot_of(t, p);
        assert forall|i: int| 0 <= i < t.len() implies t[i] == regs[i] by {}
        match slot_of(t, p) {
            Some(pos) => {
                let i = choose|i: int| 0 <= i < t.len() && t[i].0 == p && t[i].1 == pos;
                assert(regs[i] == t[i]);
            },
            None => {},
        }
    }
}

/// The first entry for `p` gives its slot.
pub proof fn lemma_slot_of_first(regs: Seq<(usize, usize)>, p: usize, i: int)
    requires
        0 <= i < regs.len(),
        regs[i].0 == p,
        forall|k: int| 0 <= k < i ==> regs[k].0 != p,
    ensures
        slot_of(regs, p) == Some(regs[i].1),
    decreases regs.len(),
{
    let t = regs.drop_last();
    if i < regs.len() - 1 {
        assert forall|k: int| 0 <= k <= i implies t[k] == regs[k] by {}
        lemma_slot_of_first(t, p, i);
    } else {
        lemma_slot_of(t, p);
        assert forall|k: int| 0 <= k < t.len() implies t[k].0 != p by {
            assert(t[k] == regs[k]);
        }
    }
}

/// Distinct temporaries get distinct slots.
pub proof fn law_slots_distinct(regs: Seq<(usize, usize)>, stack: usize, p: usize, q: usize)
    requires
        slots_wf(regs, stack),
        p != q,
        slot_of(regs, p) is Some,
        slot_of(regs, q) is Some,
    ensures
        slot_of(regs, p) != slot_of(regs, q),
        slot_of(regs, p).unwrap() <= stack,
        slot_of(regs, p).unwrap() % 4 == 0,
        slot_of(regs, p).unwrap() >= 4,
{
    lemma_slot_of(regs, p);
    lemma_slot_of(regs, q);
    let i = choose|i: int| 0 <= i < regs.len() && regs[i].0 == p && regs[i].1 == slot_of(regs, p).unwrap();
    let j = choose|j: int| 0 <= j < regs.len() && regs[j].0 == q && regs[j].1 == slot_of(regs, q).unwrap();
    assert(regs[i].1 == 4 * (i + 1));
    assert(regs[j].1 == 4 * (j + 1));
}

/// `after` keeps every slot of `before`, in the same places.
pub open spec fn slots_extend(before: Seq<(usize, usize)>, after: Seq<(usize, usize)>) -> bool {
    before.len() <= after.len() && forall|i: int| 0 <= i < before.len() ==> #[trigger] after[i] == before[i]
}

/// A temporary keeps its slot when more slots are given.
pub proof fn lemma_slot_of_extend(before: Seq<(usize, usize)>, after: Seq<(usize, usize)>, p: usize)
    requires
        slots_extend(before, after),
        slot_of(before, p) is Some,
    ensures
        slot_of(after, p) == slot_of(before, p),
    decreases after.len(),
{
    if after.len() == before.len() {
        assert(after =~= before);
    } else {
        let t = after.drop_last();
        assert(slots_extend(before, t)) by {
            assert forall|i: int| 0 <= i < before.len() implies #[trigger] t[i] == before[i] by {
                assert(t[i] == after[i]);
            }
        }
        lemma_slot_of_extend(before, t, p);
    }
}

/// A temporary operand has a slot.
pub open spec fn covered(regs: Seq<(usize, usize)>, o: Operand) -> bool {
    o matches Operand::Psuedo(p) ==> slot_of(regs, p) is Some
}

/// The operand with a temporary replaced by its slot.
pub open spec fn place<'src>(regs: Seq<(usize, usize)>, o: Operand<'src>) -> Operand<'src> {
    match o {
        Operand::Psuedo(p) => Operand::Stack(slot_of(regs, p).unwrap()),
        _ => o,
    }
}

/// The slots after meeting operand `o`: a temporary without a slot gets
/// the next four bytes below those given so far.
pub open spec fn give_slot<'src>(regs: Seq<(usize, usize)>, o: Operand<'src>) -> Seq<(usize, usize)> {
    match o {
        Operand::Psuedo(p) => if slot_of(regs, p) is None {
            regs.push((p, (4 * (regs.len() + 1)) as usize))
        } else {
            regs
        },
        _ => regs,
    }
}

/// The slots after meeting the operands of an instruction, source before
/// destination.
pub open spec fn inst_slots<'src>(regs: Seq<(usize, usize)>, i: x86::Inst<'src>) -> Seq<(usize, usize)> {
    match i {
        x86::Inst::Unary(_, d) => give_slot(regs, d),
        x86::Inst::Binary(_, a, b) => give_slot(give_slot(regs, a), b),
        x86::Inst::Cmp(a, b) => give_slot(give_slot(regs, a), b),
        x86::Inst::SetCC(_, d) => give_slot(regs, d),
        x86::Inst::Mov(a, b) => give_slot(give_slot(regs, a), b),
        x86::Inst::IDiv(o) => give_slot(regs, o),
        _ => regs,
    }
}

/// The slots of a function's temporaries, given in order of first use.
pub open spec fn fn_slots<'src>(insts: Seq<x86::Inst<'src>>) -> Seq<(usize, usize)>
    decreases insts.len(),
{
    if insts.len() == 0 {
        Seq::empty()
    } else {
        inst_slots(fn_slots(insts.drop_last()), insts.last())
    }
}

/// Every temporary operand of an instruction has a slot.
pub open spec fn inst_covered(regs: Seq<(usize, usize)>, i: x86::Inst) -> bool {
    match i {
        x86::Inst::Unary(_, d) => covered(regs, d),
        x86::Inst::Binary(_, s, d) => covered(regs, s) && covered(regs, d),
        x86::Inst::Cmp(a, b) => covered(regs, a) && covered(regs, b),
        x86::Inst::SetCC(_, d) => covered(regs, d),
        x86::Inst::Mov(s, d) => covered(regs, s) && covered(regs, d),
        x86::Inst::IDiv(o) => covered(regs, o),
        _ => true,
    }
}

/// The instruction with every temporary replaced by its slot.
pub open spec fn place_inst<'src>(regs: Seq<(usize, usize)>, i: x86::Inst<'src>) -> x86::Inst<'src> {
    match i {
        x86::Inst::Unary(op, d) => x86::Inst::Unary(op, place(regs, d)),
        x86::Inst::Binary(op, s, d) => x86::Inst::Binary(op, place(regs, s), place(regs, d)),
        x86::Inst::Cmp(a, b) => x86::Inst::Cmp(place(regs, a), place(regs, b)),
        x86::Inst::SetCC(c, d) => x86::Inst::SetCC(c, place(regs, d)),
        x86::Inst::Mov(s, d) => x86::Inst::Mov(place(regs, s), place(regs, d)),
        x86::Inst::IDiv(o) => x86::Inst::IDiv(place(regs, o)),
        _ => i,
    }
}

/// Every instruction with its temporaries replaced by their slots.
pub open spec fn place_all<'src>(regs: Seq<(usize, usize)>, insts: Seq<x86::Inst<'src>>) -> Seq<x86::Inst<'src>> {
    insts.map_values(|i: x86::Inst<'src>| place_inst(regs, i))
}

/// Every temporary of every instruction has a slot.
pub open spec fn all_covered(regs: Seq<(usize, usize)>, insts: Seq<x86::Inst>) -> bool {
    forall|j: int| 0 <= j < insts.len() ==> inst_covered(regs, #[trigger] insts[j])
}

/// Placing an instruction whose temporaries all have slots does not change
/// when more slots are given.
pub proof fn lemma_place_inst_extend<'src>(before: Seq<(usize, usize)>, after: Seq<(usize, usize)>, i: x86::Inst<'src>)
    requires
        slots_extend(before, after),
        inst_covered(before, i),
    ensures
        inst_covered(after, i),
        place_inst(after, i) == place_inst(before, i),
{
    match i {
        x86::Inst::Unary(_, d) => lemma_operand_extend(before, after, d),
        x86::Inst::Binary(_, a, b) => {
            lemma_operand_extend(before, after, a);
            lemma_operand_extend(before, after, b);
        },
        x86::Inst::Cmp(a, b) => {
            lemma_operand_extend(before, after, a);
            lemma_operand_extend(before, after, b);
        },
        x86::Inst::SetCC(_, d) => lemma_operand_extend(before, after, d),
        x86::Inst::Mov(a, b) => {
            lemma_operand_extend(before, after, a);
            lemma_operand_extend(before, after, b);
        },
        x86::Inst::IDiv(o) => lemma_operand_extend(before, after, o),
        _ => {},
    }
}

proof fn lemma_operand_extend<'src>(before: Seq<(usize, usize)>, after: Seq<(usize, usize)>, o: Operand<'src>)
    requires
        slots_extend(before, after),
        covered(before, o),
    ensures
        covered(after, o),
        place(after, o) == place(before, o),
{
    if let Operand::Psuedo(p) = o {
        lemma_slot_of_extend(before, after, p);
    }
}

/// A shift count x86 cannot take as it is: a memory operand or an
/// immediate wider than a byte.
pub open spec fn wide_shift_count(o: Operand) -> bool {
    is_wide_imm(o) || o is Stack
}

/// What an arithmetic instruction becomes so that x86 can encode it:
/// `imul` into memory goes through `r11`, a wide shift count through `cx`,
/// and a memory-to-memory operation through `r10`.
pub open spec fn fix_binary_seq<'src>(op: x86::BinaryOp, s: Operand<'src>, d: Operand<'src>) -> Seq<x86::Inst<'src>> {
    match op {
        x86::BinaryOp::IMul => if d is Stack {
            seq![
                x86::Inst::Mov(d, Operand::Reg(Reg::R11)),
                x86::Inst::Binary(op, s, Operand::Reg(Reg::R11)),
                x86::Inst::Mov(Operand::Reg(Reg::R11), d),
            ]
        } else {
            seq![x86::Inst::Binary(op, s, d)]
        },
        x86::BinaryOp::Sar | x86::BinaryOp::Shl => if wide_shift_count(s) {
            seq![x86::Inst::Mov(s, Operand::Reg(Reg::CX)), x86::Inst::Binary(op, Operand::Reg(Reg::CX), d)]
        } else {
            seq![x86::Inst::Binary(op, s, d)]
        },
        _ => if x86::spec_is_mem_to_mem(s, d) {
            seq![x86::Inst::Mov(s, Operand::Reg(Reg::R10)), x86::Inst::Binary(op, Operand::Reg(Reg::R10), d)]
        } else {
            seq![x86::Inst::Binary(op, s, d)]
        },
    }
}

/// What an instruction becomes so that x86 can encode it: an immediate
/// divisor goes through `r10`, a memory-to-memory move or compare through
/// `r10`, and an immediate compared against through `r11`.
pub open spec fn fix_seq<'src>(i: x86::Inst<'src>) -> Seq<x86::Inst<'src>> {
    match i {
        x86::Inst::Binary(op, s, d) => fix_binary_seq(op, s, d),
        x86::Inst::IDiv(o) => if o is Imm {
            seq![x86::Inst::Mov(o, Operand::Reg(Reg::R10)), x86::Inst::IDiv(Operand::Reg(Reg::R10))]
        } else {
            seq![i]
        },
        x86::Inst::Mov(s, d) => if x86::spec_is_mem_to_mem(s, d) {
            seq![x86::Inst::Mov(s, Operand::Reg(Reg::R10)), x86::Inst::Mov(Operand::Reg(Reg::R10), d)]
        } else {
            seq![i]
        },
        x86::Inst::Cmp(a, b) => if x86::spec_is_mem_to_mem(a, b) {
            seq![x86::Inst::Mov(a, Operand::Reg(Reg::R10)), x86::Inst::Cmp(Operand::Reg(Reg::R10), b)]
        } else if b is Imm {
            seq![x86::Inst::Mov(b, Operand::Reg(Reg::R11)), x86::Inst::Cmp(a, Operand::Reg(Reg::R11))]
        } else {
            seq![i]
        },
        _ => seq![i],
    }
}

/// Every instruction rewritten so that x86 can encode it, in order.
pub open spec fn legalized<'src>(insts: Seq<x86::Inst<'src>>) -> Seq<x86::Inst<'src>>
    decreases insts.len(),
{
    if insts.len() == 0 {
        Seq::empty()
    } else {
        legalized(insts.drop_last()) + fix_seq(insts.last())
    }
}

/// The frame of a function whose selected instructions are `insts`: four
/// bytes for each of its temporaries.
pub open spec fn fn_frame<'src>(insts: Seq<x86::Inst<'src>>) -> usize {
    (4 * fn_slots(insts).len()) as usize
}

/// `a` is the assembly of `t`: per function, a frame holding its
/// temporaries reserved, then the instructions chosen for its
/// three-address code, with its temporaries in distinct stack slots,
/// rewritten so that x86 can encode every one.
pub open spec fn assembly_of<'src>(t: Program<'src>, a: x86::Program<'src>) -> bool {
    &&& a.functions@.len() == t.functions@.len()
    &&& a.globals@.len() == t.globals@.len()
    &&& forall|i: int| 0 <= i < a.functions@.len() ==> {
        let f = #[trigger] a.functions@[i];
        &&& f.name == t.functions@[i].name
        &&& all_legal_from(f.insts@, 0)
        &&& exists|regs: Seq<(usize, usize)>, stack: usize| #[trigger] slots_wf(regs, stack) && all_covered(
            regs,
            selected(t.functions@[i].insts@),
        ) && f.insts@ == seq![x86::Inst::AllocateStack(stack)] + legalized(place_all(regs, selected(t.functions@[i].insts@)))
    }
}

/// Lowers three-address code to assembly: picks instructions, gives each
/// temporary a stack slot, and rewrites what x86 cannot encode.
pub struct AsmConverter {
    stack: usize,
    registers: Vec<(usize, usize)>,
}

impl AsmConverter {
    /// The slots given so far in the current function.
    pub closed spec fn slots(&self) -> Seq<(usize, usize)> {
        self.registers@
    }

    /// The size of the current function's frame.
    pub closed spec fn frame(&self) -> usize {
        self.stack
    }

    pub fn new() -> (r: Self)
        ensures
            r.slots().len() == 0,
            r.frame() == 0,
    {
        AsmConverter { stack: 0, registers: Vec::new() }
    }

    fn reset_for_fn(&mut self)
        ensures
            final(self).slots().len() == 0,
            final(self).frame() == 0,
    {
        self.stack = 0;
        self.registers.clear();
    }

    /// The slot of temporary `pseudo_id`: the one it got before, or a new
    /// `size`-byte slot, aligned to `align`, below those given so far.
    fn reserve_or_get(&mut self, pseudo_id: usize, size: usize, align: usize) -> (r: usize)
        requires
            align > 0,
            old(self).stack + align + size <= usize::MAX,
        ensures
            match slot_of(old(self).slots(), pseudo_id) {
                Some(pos) => r == pos && final(self).slots() == old(self).slots() && final(self).frame() == old(self).frame(),
                None => {
                    &&& r == ((old(self).stack + align - 1) as int) / (align as int) * (align as int) + size
                    &&& final(self).frame() == r
                    &&& final(self).slots() == old(self).slots().push((pseudo_id, r))
                },
            },
    {
        proof {
            lemma_slot_of(self.registers@, pseudo_id);
        }
        let mut i: usize = 0;
        while i < self.registers.len()
            invariant
                i <= self.registers@.len(),
                forall|k: int| 0 <= k < i ==> self.registers@[k].0 != pseudo_id,
            decreases self.registers@.len() - i,
        {
            if self.registers[i].0 == pseudo_id {
                proof {
                    lemma_slot_of_first(self.registers@, pseudo_id, i as int);
                }
                return self.registers[i].1;
            }
            i += 1;
        }
        let sum = self.stack + (align - 1);
        let q = sum / align;
        proof {
            assert(q * align <= sum) by (nonlinear_arith)
                requires
                    q == sum / align,
                    align > 0;
        }
        let aligned = q * align;
        self.stack = aligned + size;
        let pos = self.stack;
        self.registers.push((pseudo_id, pos));
        pos
    }

    /// Lowers a program: instruction selection, then stack slots, then
    /// rewriting what x86 cannot encode. Every function starts by reserving
    /// a frame of four bytes for each of its own temporaries. An instruction
    /// names at most three temporaries, so a function of n instructions has
    /// at most 3n slots and offsets up to 12n bytes; they fit the signed
    /// 32-bit displacement of an x86 operand while n stays below about
    /// 1.79 * 10^8. The bound of 10^8 instructions lies under that limit and
    /// also keeps every count of selected instructions and slots within a
    /// 32-bit `usize`.
    pub fn convert<'src>(&mut self, tacky: Program<'src>) -> (r: x86::Program<'src>)
        requires
            program_plain(tacky),
            forall|i: int| 0 <= i < tacky.functions@.len() ==> (#[trigger] tacky.functions@[i]).insts@.len() <= 100000000,
        ensures
            r.functions@.len() == tacky.functions@.len(),
            r.globals@.len() == tacky.globals@.len(),
            forall|i: int| 0 <= i < r.functions@.len() ==> {
                let f = #[trigger] r.functions@[i];
                let sel = selected(tacky.functions@[i].insts@);
                &&& f.name == tacky.functions@[i].name
                &&& f.insts@.len() > 0
                &&& f.insts@[0] == x86::Inst::AllocateStack(fn_frame(sel))
                &&& all_legal_from(f.insts@, 0)
                &&& slots_wf(fn_slots(sel), fn_frame(sel))
                &&& all_covered(fn_slots(sel), sel)
                &&& f.insts@ == seq![x86::Inst::AllocateStack(fn_frame(sel))] + legalized(place_all(fn_slots(sel), sel))
            },
            assembly_of(tacky, r),
    {
        let asm_program = self.convert_program(tacky);
        let x86::Program { functions, globals } = asm_program;
        let ghost tf = tacky.functions@;
        let mut out: Vec<x86::Function<'src>> = Vec::new();
        let mut k: usize = 0;
        while k < functions.len()
            invariant
                k <= functions@.len(),
                functions@.len() == tf.len(),
                tf == tacky.functions@,
                out@.len() == k,
                forall|i: int| 0 <= i < functions@.len() ==> {
                    let f = #[trigger] functions@[i];
                    &&& f.name == tf[i].name
                    &&& f.insts@.len() <= 4 * tf[i].insts@.len()
                    &&& f.insts@ == selected(tf[i].insts@)
                },
                forall|i: int| 0 <= i < tf.len() ==> (#[trigger] tf[i]).insts@.len() <= 100000000,
                forall|m: int| 0 <= m < k ==> {
                    let f = #[trigger] out@[m];
                    let sel = selected(tf[m].insts@);
                    &&& f.name == tf[m].name
                    &&& f.insts@.len() > 0
                    &&& f.insts@[0] == x86::Inst::AllocateStack(fn_frame(sel))
                    &&& all_legal_from(f.insts@, 0)
                    &&& slots_wf(fn_slots(sel), fn_frame(sel))
                    &&& all_covered(fn_slots(sel), sel)
                    &&& f.insts@ == seq![x86::Inst::AllocateStack(fn_frame(sel))] + legalized(place_all(fn_slots(sel), sel))
                },
            decreases functions@.len() - k,
        {
            proof {
                assert(tf[k as int].insts@.len() <= 100000000);
            }
            let filled = self.fill_function(&functions[k]);
            let fixed = self.fix_function(&filled);
            let ghost old_out = out@;
            out.push(fixed);
            proof {
                assert forall|m: int| 0 <= m < k implies out@[m] == old_out[m] by {}
            }
            k += 1;
        }
        let r = x86::Program { functions: out, globals };
        proof {
            assert forall|i: int| 0 <= i < r.functions@.len() implies {
                let f = #[trigger] r.functions@[i];
                &&& f.name == tacky.functions@[i].name
                &&& all_legal_from(f.insts@, 0)
                &&& exists|regs: Seq<(usize, usize)>, stack: usize| #[trigger] slots_wf(regs, stack) && all_covered(
                    regs,
                    selected(tacky.functions@[i].insts@),
                ) && f.insts@ == seq![x86::Inst::AllocateStack(stack)] + legalized(place_all(regs, selected(tacky.functions@[i].insts@)))
            } by {
                let sel = selected(tacky.functions@[i].insts@);
                let f = out@[i];
                assert(f.insts@ == seq![x86::Inst::AllocateStack(fn_frame(sel))] + legalized(place_all(fn_slots(sel), sel)));
                assert(slots_wf(fn_slots(sel), fn_frame(sel)));
            }
        }
        r
    }

    fn convert_program<'src>(&mut self, program: Program<'src>) -> (r: x86::Program<'src>)
        requires
            program_plain(program),
            forall|i: int| 0 <= i < program.functions@.len() ==> (#[trigger] program.functions@[i]).insts@.len() <= 100000000,
        ensures
            r.functions@.len() == program.functions@.len(),
            r.globals@.len() == program.globals@.len(),
            forall|i: int| 0 <= i < r.functions@.len() ==> {
                let f = #[trigger] r.functions@[i];
                &&& f.name == program.functions@[i].name
                &&& f.insts@.len() <= 4 * program.functions@[i].insts@.len()
                &&& f.insts@ == selected(program.functions@[i].insts@)
            },
    {
        let Program { functions, globals } = program;
        let mut out_globals: Vec<x86::GlobalVar<'src>> = Vec::new();
        let mut i: usize = 0;
        while i < globals.len()
            invariant
                i <= globals@.len(),
                out_globals@.len() == i,
            decreases globals@.len() - i,
        {
            out_globals.push(self.convert_global(&globals[i]));
            i += 1;
        }
        let mut out_functions: Vec<x86::Function<'src>> = Vec::new();
        let mut k: usize = 0;
        while k < functions.len()
            invariant
                k <= functions@.len(),
                out_functions@.len() == k,
                forall|i: int| 0 <= i < functions@.len() ==> insts_plain_from((#[trigger] functions@[i]).insts@, 0),
                forall|i: int| 0 <= i < functions@.len() ==> (#[trigger] functions@[i]).insts@.len() <= 100000000,
                forall|m: int| 0 <= m < k ==> {
                    let f = #[trigger] out_functions@[m];
                    &&& f.name == functions@[m].name
                    &&& f.insts@.len() <= 4 * functions@[m].insts@.len()
                    &&& f.insts@ == selected(functions@[m].insts@)
                },
            decreases functions@.len() - k,
        {
            out_functions.push(self.convert_fun(&functions[k]));
            k += 1;
        }
        x86::Program { functions: out_functions, globals: out_globals }
    }

    fn convert_global<'src>(&self, global: &GlobalVar<'src>) -> (r: x86::GlobalVar<'src>)
        ensures
            r.name == global.name,
    {
        x86::GlobalVar { name: global.name }
    }

    fn convert_fun<'src>(&mut self, fun: &Function<'src>) -> (r: x86::Function<'src>)
        requires
            insts_plain_from(fun.insts@, 0),
            fun.insts@.len() <= 100000000,
        ensures
            r.name == fun.name,
            r.insts@ == selected(fun.insts@),
            r.insts@.len() <= 4 * fun.insts@.len(),
    {
        let mut asm_insts: Vec<x86::Inst<'src>> = Vec::new();
        let mut i: usize = 0;
        while i < fun.insts.len()
            invariant
                i <= fun.insts@.len(),
                asm_insts@ == selected(fun.insts@.take(i as int)),
                asm_insts@.len() <= 4 * i,
                insts_plain_from(fun.insts@, 0),
            decreases fun.insts@.len() - i,
        {
            Self::convert_inst(&fun.insts[i], &mut asm_insts);
            proof {
                assert(fun.insts@.take(i + 1).drop_last() =~= fun.insts@.take(i as int));
            }
            i += 1;
        }
        proof {
            assert(fun.insts@.take(i as int) =~= fun.insts@);
        }
        x86::Function { name: fun.name, insts: asm_insts }
    }

    /// The operand for a plain value: a constant or a temporary.
    fn convert_val<'src>(val: Val<'src>) -> (r: Operand<'src>)
        requires
            val_plain(val),
        ensures
            r == spec_convert_val(val),
            r is Imm || r is Psuedo,
    {
        match val {
            Val::Const(imm) => Operand::Imm(imm),
            Val::Temp(id) => Operand::Psuedo(id),
            _ => Operand::Imm(0),
        }
    }

    /// Selects the instructions for one three-address instruction.
    fn convert_inst<'src>(inst: &Inst<'src>, asm_insts: &mut Vec<x86::Inst<'src>>)
        requires
            inst_plain(*inst),
        ensures
            final(asm_insts)@ == old(asm_insts)@ + select_inst(*inst),
    {
        match inst {
            Inst::Binary { op, lhs, rhs, dst } => {
                let last = Self::convert_binary(*op, *lhs, *rhs, *dst, asm_insts);
                asm_insts.push(last);
            },
            Inst::Unary { op, src, dst } => {
                let last = Self::convert_unary(*op, *src, *dst, asm_insts);
                asm_insts.push(last);
            },
            Inst::Label(label) => asm_insts.push(x86::Inst::Label(*label)),
            Inst::Jump(label) => asm_insts.push(x86::Inst::Jump(*label)),
            Inst::JumpIfZero(src, label) => {
                asm_insts.push(x86::Inst::Cmp(Operand::Imm(0), Self::convert_val(*src)));
                asm_insts.push(x86::Inst::JumpCC(CompareOp::E, *label));
            },
            Inst::JumpIfNotZero(src, label) => {
                asm_insts.push(x86::Inst::Cmp(Operand::Imm(0), Self::convert_val(*src)));
                asm_insts.push(x86::Inst::JumpCC(CompareOp::NE, *label));
            },
            Inst::Ret(src) => {
                let src = Self::convert_val(*src);
                asm_insts.push(x86::Inst::Mov(src, Operand::Reg(Reg::AX)));
                asm_insts.push(x86::Inst::Ret);
            },
            Inst::Copy { src, dst } => {
                asm_insts.push(x86::Inst::Mov(Self::convert_val(*src), Self::convert_val(*dst)));
            },
            Inst::Call { .. } => {},
        }
        proof {
            assert(final(asm_insts)@ =~= old(asm_insts)@ + select_inst(*inst));
        }
    }

    /// The instructions for `dst = lhs op rhs`: the last one is returned,
    /// the others appended. Division goes through `eax`/`edx`, comparisons
    /// through `setcc`.
    fn convert_binary<'src>(op: BinaryOp, lhs: Val<'src>, rhs: Val<'src>, dst: Val<'src>, asm_insts: &mut Vec<x86::Inst<'src>>) -> (r: x86::Inst<'src>)
        requires
            val_plain(lhs),
            val_plain(rhs),
            val_plain(dst),
        ensures
            final(asm_insts)@.push(r) == old(asm_insts)@ + select_binary(
                op,
                spec_convert_val(lhs),
                spec_convert_val(rhs),
                spec_convert_val(dst),
            ),
    {
        let lhs = Self::convert_val(lhs);
        let rhs = Self::convert_val(rhs);
        let dst = Self::convert_val(dst);
        match op {
            BinaryOp::Add | BinaryOp::Mul | BinaryOp::Sub | BinaryOp::Sar | BinaryOp::Shl | BinaryOp::BitAnd
            | BinaryOp::BitOr | BinaryOp::BitXor => {
                asm_insts.push(x86::Inst::Mov(lhs, dst));
                let asm_op = match op {
                    BinaryOp::Add => x86::BinaryOp::Add,
                    BinaryOp::Sub => x86::BinaryOp::Sub,
                    BinaryOp::Mul => x86::BinaryOp::IMul,
                    BinaryOp::Sar => x86::BinaryOp::Sar,
                    BinaryOp::Shl => x86::BinaryOp::Shl,
                    BinaryOp::BitAnd => x86::BinaryOp::And,
                    BinaryOp::BitOr => x86::BinaryOp::Or,
                    _ => x86::BinaryOp::Xor,
                };
                let r = x86::Inst::Binary(asm_op, rhs, dst);
                proof {
                    assert(asm_insts@.push(r) =~= old(asm_insts)@ + select_binary(op, lhs, rhs, dst));
                }
                r
            },
            BinaryOp::Div | BinaryOp::Rem => {
                asm_insts.push(x86::Inst::Mov(lhs, Operand::Reg(Reg::AX)));
                asm_insts.push(x86::Inst::Cdq);
                asm_insts.push(x86::Inst::IDiv(rhs));
                let reg = if op == BinaryOp::Div { Reg::AX } else { Reg::DX };
                let r = x86::Inst::Mov(Operand::Reg(reg), dst);
                proof {
                    assert(asm_insts@.push(r) =~= old(asm_insts)@ + select_binary(op, lhs, rhs, dst));
                }
                r
            },
            _ => {
                let compare_op = match op {
                    BinaryOp::E => CompareOp::E,
                    BinaryOp::NE => CompareOp::NE,
                    BinaryOp::G => CompareOp::G,
                    BinaryOp::GE => CompareOp::GE,
                    BinaryOp::L => CompareOp::L,
                    _ => CompareOp::LE,
                };
                asm_insts.push(x86::Inst::Cmp(rhs, lhs));
                asm_insts.push(x86::Inst::Mov(Operand::Imm(0), dst));
                let r = x86::Inst::SetCC(compare_op, dst);
                proof {
                    assert(asm_insts@.push(r) =~= old(asm_insts)@ + select_binary(op, lhs, rhs, dst));
                }
                r
            },
        }
    }

    /// The instructions for `dst = op src`: `!` compares with 0, `~` and
    /// `-` work in place on `dst`.
    fn convert_unary<'src>(op: UnaryOp, src: Val<'src>, dst: Val<'src>, asm_insts: &mut Vec<x86::Inst<'src>>) -> (r: x86::Inst<'src>)
        requires
            val_plain(src),
            val_plain(dst),
        ensures
            final(asm_insts)@.push(r) == old(asm_insts)@ + select_unary(op, spec_convert_val(src), spec_convert_val(dst)),
    {
        let src = Self::convert_val(src);
        let dst = Self::convert_val(dst);
        match op {
            UnaryOp::Not => {
                asm_insts.push(x86::Inst::Cmp(Operand::Imm(0), src));
                asm_insts.push(x86::Inst::Mov(Operand::Imm(0), dst));
                let r = x86::Inst::SetCC(CompareOp::E, dst);
                proof {
                    assert(asm_insts@.push(r) =~= old(asm_insts)@ + select_unary(op, src, dst));
                }
                r
            },
            _ => {
                asm_insts.push(x86::Inst::Mov(src, dst));
                let asm_op = if op == UnaryOp::Compliment { x86::UnaryOp::Not } else { x86::UnaryOp::Neg };
                let r = x86::Inst::Unary(asm_op, dst);
                proof {
                    assert(asm_insts@.push(r) =~= old(asm_insts)@ + select_unary(op, src, dst));
                }
                r
            },
        }
    }

    /// Gives every temporary of a function a stack slot, in order of first
    /// use.
    fn fill_function<'src>(&mut self, fun: &x86::Function<'src>) -> (r: x86::Function<'src>)
        requires
            fun.insts@.len() <= 400000000,
        ensures
            r.name == fun.name,
            r.insts@.len() == fun.insts@.len(),
            all_placed_from(r.insts@, 0),
            slots_wf(final(self).slots(), final(self).frame()),
            final(self).frame() <= 8 * fun.insts@.len(),
            r.insts@ == place_all(final(self).slots(), fun.insts@),
            all_covered(final(self).slots(), fun.insts@),
            final(self).slots() == fn_slots(fun.insts@),
    {
        self.reset_for_fn();
        proof {
            assert(fun.insts@.take(0) =~= Seq::<x86::Inst<'src>>::empty());
            assert(self.slots() =~= Seq::<(usize, usize)>::empty());
        }
        let mut filled: Vec<x86::Inst<'src>> = Vec::new();
        let mut i: usize = 0;
        while i < fun.insts.len()
            invariant
                i <= fun.insts@.len(),
                fun.insts@.len() <= 400000000,
                filled@.len() == i,
                all_placed_from(filled@, 0),
                slots_wf(self.slots(), self.frame()),
                self.slots().len() <= 2 * i,
                forall|j: int| 0 <= j < i ==> inst_covered(self.slots(), #[trigger] fun.insts@[j]) && filled@[j]
                    == place_inst(self.slots(), fun.insts@[j]),
                self.slots() == fn_slots(fun.insts@.take(i as int)),
            decreases fun.insts@.len() - i,
        {
            let ghost before = self.slots();
            let inst = self.fill_inst(fun.insts[i]);
            proof {
                assert(fun.insts@.take(i + 1).drop_last() =~= fun.insts@.take(i as int));
                assert(fun.insts@.take(i + 1).last() == fun.insts@[i as int]);
                assert forall|j: int| 0 <= j < i implies inst_covered(self.slots(), #[trigger] fun.insts@[j])
                    && filled@[j] == place_inst(self.slots(), fun.insts@[j]) by {
                    lemma_place_inst_extend(before, self.slots(), fun.insts@[j]);
                }
            }
            filled.push(inst);
            i += 1;
        }
        proof {
            assert(filled@ =~= place_all(self.slots(), fun.insts@));
            assert(fun.insts@.take(i as int) =~= fun.insts@);
        }
        x86::Function { name: fun.name, insts: filled }
    }

    /// Replaces the temporaries of an instruction by their slots.
    fn fill_inst<'src>(&mut self, inst: x86::Inst<'src>) -> (r: x86::Inst<'src>)
        requires
            slots_wf(old(self).slots(), old(self).frame()),
            old(self).slots().len() <= 800000000,
        ensures
            inst_placed(r),
            slots_wf(final(self).slots(), final(self).frame()),
            final(self).slots().len() <= old(self).slots().len() + 2,
            r == place_inst(final(self).slots(), inst),
            inst_covered(final(self).slots(), inst),
            slots_extend(old(self).slots(), final(self).slots()),
            final(self).slots() == inst_slots(old(self).slots(), inst),
    {
        match inst {
            x86::Inst::Unary(op, dst) => x86::Inst::Unary(op, self.fill_operand(dst)),
            x86::Inst::Binary(op, src, dst) => {
                let ghost before = self.slots();
                let src2 = self.fill_operand(src);
                let ghost mid = self.slots();
                let dst2 = self.fill_operand(dst);
                proof {
                    lemma_operand_extend(mid, self.slots(), src);
                }
                x86::Inst::Binary(op, src2, dst2)
            },
            x86::Inst::IDiv(operand) => x86::Inst::IDiv(self.fill_operand(operand)),
            x86::Inst::Mov(src, dst) => {
                let src2 = self.fill_operand(src);
                let ghost mid = self.slots();
                let dst2 = self.fill_operand(dst);
                proof {
                    lemma_operand_extend(mid, self.slots(), src);
                }
                x86::Inst::Mov(src2, dst2)
            },
            x86::Inst::Cmp(a, b) => {
                let a2 = self.fill_operand(a);
                let ghost mid = self.slots();
                let b2 = self.fill_operand(b);
                proof {
                    lemma_operand_extend(mid, self.slots(), a);
                }
                x86::Inst::Cmp(a2, b2)
            },
            x86::Inst::SetCC(op, dst) => x86::Inst::SetCC(op, self.fill_operand(dst)),
            _ => inst,
        }
    }

    /// The operand with a temporary replaced by its four-byte slot.
    fn fill_operand<'src>(&mut self, operand: Operand<'src>) -> (r: Operand<'src>)
        requires
            slots_wf(old(self).slots(), old(self).frame()),
            old(self).slots().len() <= 900000000,
        ensures
            placed(r),
            slots_wf(final(self).slots(), final(self).frame()),
            final(self).slots().len() <= old(self).slots().len() + 1,
            operand matches Operand::Psuedo(p) ==> slot_of(final(self).slots(), p) == Some(r->Stack_0),
            !(operand is Psuedo) ==> r == operand && final(self).slots() == old(self).slots(),
            r == place(final(self).slots(), operand),
            covered(final(self).slots(), operand),
            slots_extend(old(self).slots(), final(self).slots()),
            final(self).slots() == give_slot(old(self).slots(), operand),
    {
        match operand {
            Operand::Psuedo(num) => {
                let ghost n = self.registers@.len();
                proof {
                    assert(((4 * n + 3) as int) / 4 == n) by (nonlinear_arith);
                    lemma_slot_of(self.registers@, num);
                }
                let pos = self.reserve_or_get(num, 4, 4);
                proof {
                    if slot_of(old(self).slots(), num) is None {
                        assert forall|i: int, j: int| 0 <= i < j < self.registers@.len() implies #[trigger] self.registers@[i].0 != #[trigger] self.registers@[j].0 by {
                            if j == n {
                                assert(self.registers@[j].0 == num);
                                assert(self.registers@[i] == old(self).registers@[i]);
                            } else {
                                assert(self.registers@[i] == old(self).registers@[i]);
                                assert(self.registers@[j] == old(self).registers@[j]);
                            }
                        }
                        assert forall|i: int| 0 <= i < self.registers@.len() implies #[trigger] self.registers@[i].1 == 4 * (i + 1) by {
                            if i < n {
                                assert(self.registers@[i] == old(self).registers@[i]);
                            }
                        }
                        lemma_slot_of_first(self.registers@, num, n as int);
                    }
                }
                Operand::Stack(pos)
            },
            _ => operand,
        }
    }

    /// Reserves the frame, then rewrites each instruction.
    fn fix_function<'src>(&self, fun: &x86::Function<'src>) -> (r: x86::Function<'src>)
        requires
            all_placed_from(fun.insts@, 0),
        ensures
            r.name == fun.name,
            r.insts@.len() > 0,
            r.insts@[0] == x86::Inst::AllocateStack(self.frame()),
            all_legal_from(r.insts@, 0),
            r.insts@ == seq![x86::Inst::AllocateStack(self.frame())] + legalized(fun.insts@),
    {
        let mut fixed: Vec<x86::Inst<'src>> = Vec::new();
        fixed.push(x86::Inst::AllocateStack(self.stack));
        let mut i: usize = 0;
        while i < fun.insts.len()
            invariant
                i <= fun.insts@.len(),
                all_placed_from(fun.insts@, 0),
                fixed@.len() > 0,
                fixed@[0] == x86::Inst::AllocateStack(self.frame()),
                all_legal_from(fixed@, 0),
                fixed@ == seq![x86::Inst::AllocateStack(self.frame())] + legalized(fun.insts@.take(i as int)),
            decreases fun.insts@.len() - i,
        {
            Self::fix_inst(fun.insts[i], &mut fixed);
            proof {
                assert(fun.insts@.take(i + 1).drop_last() =~= fun.insts@.take(i as int));
            }
            i += 1;
        }
        proof {
            assert(fun.insts@.take(i as int) =~= fun.insts@);
        }
        x86::Function { name: fun.name, insts: fixed }
    }

    /// Rewrites one instruction so that x86 can encode it: a memory
    /// operand, an immediate divisor or an immediate compared against goes
    /// through a scratch register first.
    fn fix_inst<'src>(inst: x86::Inst<'src>, fixed: &mut Vec<x86::Inst<'src>>)
        requires
            inst_placed(inst),
        ensures
            asm_extends(old(fixed)@, final(fixed)@),
            all_legal_from(final(fixed)@, old(fixed)@.len() as int),
            final(fixed)@.len() > old(fixed)@.len(),
            final(fixed)@.len() <= old(fixed)@.len() + 3,
            final(fixed)@ == old(fixed)@ + fix_seq(inst),
    {
        let ghost start = fixed@;
        let last = match inst {
            x86::Inst::Binary(op, src, dst) => Self::fix_binary_inst(op, src, dst, fixed),
            x86::Inst::IDiv(operand) => {
                if let Operand::Imm(_) = operand {
                    fixed.push(x86::Inst::Mov(operand, Operand::Reg(Reg::R10)));
                    x86::Inst::IDiv(Operand::Reg(Reg::R10))
                } else {
                    x86::Inst::IDiv(operand)
                }
            },
            x86::Inst::Mov(src, dst) => {
                if x86::is_mem_to_mem(src, dst) {
                    fixed.push(x86::Inst::Mov(src, Operand::Reg(Reg::R10)));
                    x86::Inst::Mov(Operand::Reg(Reg::R10), dst)
                } else {
                    inst
                }
            },
            x86::Inst::Cmp(a, b) => {
                if x86::is_mem_to_mem(a, b) {
                    fixed.push(x86::Inst::Mov(a, Operand::Reg(Reg::R10)));
                    x86::Inst::Cmp(Operand::Reg(Reg::R10), b)
                } else if let Operand::Imm(_) = b {
                    fixed.push(x86::Inst::Mov(b, Operand::Reg(Reg::R11)));
                    x86::Inst::Cmp(a, Operand::Reg(Reg::R11))
                } else {
                    inst
                }
            },
            _ => inst,
        };
        let ghost mid = fixed@;
        fixed.push(last);
        proof {
            assert(fixed@ =~= mid.push(last));
            assert(fixed@ =~= start + fix_seq(inst));
        }
    }

    /// Rewrites a two-operand arithmetic instruction so that x86 can encode
    /// it; gives the last instruction and appends the others.
    fn fix_binary_inst<'src>(op: x86::BinaryOp, src: Operand<'src>, dst: Operand<'src>, fixed: &mut Vec<x86::Inst<'src>>) -> (r: x86::Inst<'src>)
        requires
            placed(src),
            placed(dst),
        ensures
            asm_extends(old(fixed)@, final(fixed)@),
            all_legal_from(final(fixed)@, old(fixed)@.len() as int),
            inst_legal(r),
            inst_placed(r),
            final(fixed)@.len() <= old(fixed)@.len() + 2,
            final(fixed)@.push(r) == old(fixed)@ + fix_binary_seq(op, src, dst),
    {
        let ghost start = fixed@;
        match op {
            x86::BinaryOp::IMul => {
                if let Operand::Stack(_) = dst {
                    fixed.push(x86::Inst::Mov(dst, Operand::Reg(Reg::R11)));
                    fixed.push(x86::Inst::Binary(op, src, Operand::Reg(Reg::R11)));
                    let r = x86::Inst::Mov(Operand::Reg(Reg::R11), dst);
                    proof {
                        assert(fixed@.push(r) =~= start + fix_binary_seq(op, src, dst));
                    }
                    r
                } else {
                    let r = x86::Inst::Binary(op, src, dst);
                    proof {
                        assert(fixed@.push(r) =~= start + fix_binary_seq(op, src, dst));
                    }
                    r
                }
            },
            x86::BinaryOp::Sar | x86::BinaryOp::Shl => {
                let wide = match src {
                    Operand::Imm(imm) => imm > 255,
                    Operand::Stack(_) => true,
                    _ => false,
                };
                if wide {
                    fixed.push(x86::Inst::Mov(src, Operand::Reg(Reg::CX)));
                    let r = x86::Inst::Binary(op, Operand::Reg(Reg::CX), dst);
                    proof {
                        assert(fixed@.push(r) =~= start + fix_binary_seq(op, src, dst));
                    }
                    r
                } else {
                    let r = x86::Inst::Binary(op, src, dst);
                    proof {
                        assert(fixed@.push(r) =~= start + fix_binary_seq(op, src, dst));
                    }
                    r
                }
            },
            _ => {
                if x86::is_mem_to_mem(src, dst) {
                    fixed.push(x86::Inst::Mov(src, Operand::Reg(Reg::R10)));
                    let r = x86::Inst::Binary(op, Operand::Reg(Reg::R10), dst);
                    proof {
                        assert(fixed@.push(r) =~= start + fix_binary_seq(op, src, dst));
                    }
                    r
                } else {
                    let r = x86::Inst::Binary(op, src, dst);
                    proof {
                        assert(fixed@.push(r) =~= start + fix_binary_seq(op, src, dst));
                    }
                    r
                }
            },
        }
    }
}

} // verus!
