//! What the x86-64 instructions the back end selects do to registers,
//! temporaries and the flags, what the condition-code suffixes of the
//! assembly text test, and the laws that instruction selection computes what
//! the three-address code says.
use vstd::prelude::*;

use crate::compiler::ast::meaning::{apply_binary, apply_unary, truncated_div};
use crate::compiler::tacky::{select_binary, select_unary, BinaryOp, UnaryOp};
use crate::compiler::x86::{self, compare_op_text, CompareOp, Inst, Operand, Reg};

verus! {

/// A place the machine keeps a value in: a register, a temporary (before
/// it has a stack slot), or one of the two values the last `cmpl`
/// compared (its destination, then its source).
pub enum Loc {
    Reg(Reg),
    Temp(usize),
    CmpDst,
    CmpSrc,
}

/// `m` with `l` holding `v`.
pub open spec fn put(m: spec_fn(Loc) -> i32, l: Loc, v: i32) -> spec_fn(Loc) -> i32 {
    |k: Loc| if k == l { v } else { m(k) }
}

/// The value an operand reads: an immediate, a register or a temporary.
pub open spec fn read(o: Operand, m: spec_fn(Loc) -> i32) -> Option<i32> {
    match o {
        Operand::Imm(v) => Some(v),
        Operand::Reg(r) => Some(m(Loc::Reg(r))),
        Operand::Psuedo(t) => Some(m(Loc::Temp(t))),
        _ => None,
    }
}

/// The machine after writing `v` to an operand: a register or a temporary.
pub open spec fn write(o: Operand, v: i32, m: spec_fn(Loc) -> i32) -> Option<spec_fn(Loc) -> i32> {
    match o {
        Operand::Reg(r) => Some(put(m, Loc::Reg(r), v)),
        Operand::Psuedo(t) => Some(put(m, Loc::Temp(t), v)),
        _ => None,
    }
}

/// Whether condition code `c` holds after `cmpl` compared the destination
/// `x` with the source `y` (the flags of `x - y`), as signed integers.
pub open spec fn cc_holds(c: CompareOp, x: i32, y: i32) -> bool {
    match c {
        CompareOp::E => x == y,
        CompareOp::NE => x != y,
        CompareOp::L => x < y,
        CompareOp::LE => x <= y,
        CompareOp::G => x > y,
        CompareOp::GE => x >= y,
    }
}

/// The 64-bit value `edx:eax` that `idivl` divides.
pub open spec fn edx_eax(dx: i32, ax: i32) -> int {
    dx * 4294967296 + if ax < 0 {
        ax + 4294967296
    } else {
        ax as int
    }
}

/// `old` with its low byte replaced by `b`, as `setcc` writes it.
pub open spec fn with_low_byte(old: i32, b: int) -> i32 {
    (old - old % 256 + b) as i32
}

/// What one instruction does: `movl` copies, `negl` and `notl` work in
/// place, the two-operand operations combine the destination with the
/// source (wrapping; shifts take the count modulo 32), `cdq` sign-extends
/// `eax` into `edx`, `idivl` divides `edx:eax` leaving the quotient
/// (rounded toward zero) in `eax` and the remainder in `edx` and faults on
/// a zero divisor or a quotient out of range, `cmpl` records what it
/// compared, and `setcc` writes 1 or 0 to the low byte of its operand.
/// Nothing is given for a fault, an operand this model does not hold, or
/// an instruction that jumps or returns.
pub open spec fn exec(i: Inst, m: spec_fn(Loc) -> i32) -> Option<spec_fn(Loc) -> i32> {
    match i {
        Inst::Mov(s, d) => match read(s, m) {
            Some(v) => write(d, v, m),
            None => None,
        },
        Inst::Unary(op, d) => match read(d, m) {
            Some(v) => write(d, match op {
                x86::UnaryOp::Neg => (0 - v) as i32,
                x86::UnaryOp::Not => !v,
            }, m),
            None => None,
        },
        Inst::Binary(op, s, d) => match (read(s, m), read(d, m)) {
            (Some(b), Some(a)) => write(d, match op {
                x86::BinaryOp::Add => (a + b) as i32,
                x86::BinaryOp::Sub => (a - b) as i32,
                x86::BinaryOp::IMul => (a * b) as i32,
                x86::BinaryOp::Shl => a << (b & 31),
                x86::BinaryOp::Sar => a >> (b & 31),
                x86::BinaryOp::And => a & b,
                x86::BinaryOp::Or => a | b,
                x86::BinaryOp::Xor => a ^ b,
            }, m),
            _ => None,
        },
        Inst::Cdq => Some(put(m, Loc::Reg(Reg::DX), if m(Loc::Reg(Reg::AX)) < 0 { -1i32 } else { 0i32 })),
        Inst::IDiv(s) => match read(s, m) {
            Some(y) => {
                let n = edx_eax(m(Loc::Reg(Reg::DX)), m(Loc::Reg(Reg::AX)));
                let q = truncated_div(n, y as int);
                if y == 0 || q < i32::MIN || q > i32::MAX {
                    None
                } else {
                    Some(put(put(m, Loc::Reg(Reg::AX), q as i32), Loc::Reg(Reg::DX), (n - y * q) as i32))
                }
            },
            None => None,
        },
        Inst::Cmp(s, d) => match (read(s, m), read(d, m)) {
            (Some(y), Some(x)) => Some(put(put(m, Loc::CmpDst, x), Loc::CmpSrc, y)),
            _ => None,
        },
        Inst::SetCC(c, d) => match read(d, m) {
            Some(old) => write(
                d,
                with_low_byte(old, if cc_holds(c, m(Loc::CmpDst), m(Loc::CmpSrc)) { 1 } else { 0 }),
                m,
            ),
            None => None,
        },
        _ => None,
    }
}

/// Straight-line instructions run from `m`, one after another.
pub open spec fn exec_all(code: Seq<Inst>, m: spec_fn(Loc) -> i32) -> Option<spec_fn(Loc) -> i32>
    decreases code.len(),
{
    if code.len() == 0 {
        Some(m)
    } else {
        match exec_all(code.drop_last(), m) {
            Some(m1) => exec(code.last(), m1),
            None => None,
        }
    }
}

/// An operand the three-address code hands to selection: an immediate or a
/// temporary.
pub open spec fn value_operand(o: Operand) -> bool {
    o is Imm || o is Psuedo
}

/// What a condition-code suffix of the assembly text tests after `cmpl`
/// compared the destination `x` with the source `y`, by the x86 naming of
/// the signed conditions (`e` equal, `ne` not equal, `l` less, `le` less
/// or equal, `g` greater, `ge` greater or equal, and their synonyms);
/// nothing for a text that names no such condition.
pub open spec fn suffix_tests(text: Seq<char>, x: i32, y: i32) -> Option<bool> {
    let n = text.len();
    if n == 1 && (text[0] == 'e' || text[0] == 'z') {
        Some(x == y)
    } else if n == 2 && text[0] == 'n' && (text[1] == 'e' || text[1] == 'z') {
        Some(x != y)
    } else if (n == 1 && text[0] == 'l') || (n == 3 && text[0] == 'n' && text[1] == 'g' && text[2] == 'e') {
        Some(x < y)
    } else if (n == 2 && text[0] == 'l' && text[1] == 'e') || (n == 2 && text[0] == 'n' && text[1] == 'g') {
        Some(x <= y)
    } else if (n == 1 && text[0] == 'g') || (n == 3 && text[0] == 'n' && text[1] == 'l' && text[2] == 'e') {
        Some(x > y)
    } else if (n == 2 && text[0] == 'g' && text[1] == 'e') || (n == 2 && text[0] == 'n' && text[1] == 'l') {
        Some(x >= y)
    } else {
        None
    }
}

/// Law: the suffix written for each condition code (after `set` and `j`)
/// is one the assembler reads as the test that condition code stands for.
pub proof fn law_condition_suffix_tests_its_condition(c: CompareOp, x: i32, y: i32)
    ensures
        suffix_tests(compare_op_text(c), x, y) == Some(cc_holds(c, x, y)),
{
    reveal_strlit("e");
    reveal_strlit("ne");
    reveal_strlit("l");
    reveal_strlit("le");
    reveal_strlit("g");
    reveal_strlit("ge");
}

/// Running one more instruction after `code`.
pub proof fn lemma_exec_all_push(code: Seq<Inst>, i: Inst, m: spec_fn(Loc) -> i32)
    ensures
        exec_all(code.push(i), m) == match exec_all(code, m) {
            Some(m1) => exec(i, m1),
            None => None,
        },
{
    assert(code.push(i).drop_last() =~= code);
}

/// A quotient rounded toward zero of two `int` values fits an `int` unless
/// the least value is divided by -1.
pub proof fn lemma_truncated_div_fits(a: i32, b: i32)
    requires
        b != 0,
        !(a == i32::MIN && b == -1),
    ensures
        i32::MIN <= truncated_div(a as int, b as int) <= i32::MAX,
{
    let x: int = if a < 0 { -a } else { a as int };
    let y: int = if b < 0 { -b } else { b as int };
    vstd::arithmetic::div_mod::lemma_div_pos_is_pos(x, y);
    vstd::arithmetic::div_mod::lemma_div_is_ordered_by_denominator(x, 1, y);
    vstd::arithmetic::div_mod::lemma_div_basics(x);
    if a == i32::MIN && b < 0 {
        vstd::arithmetic::div_mod::lemma_div_is_ordered_by_denominator(x, 2, y);
        assert(x / 2 == 1073741824);
    }
}

/// Law: the instructions selected for `d = l op r`, with `d` a temporary
/// that `r` does not read, leave in `d` exactly what the three-address
/// operation gives whenever it gives something: the sum, difference or
/// product, the quotient rounded toward zero (from `eax` after `idivl`),
/// the remainder (from `edx`), the shifted or combined bits, or 1 or 0 by
/// the comparison.
pub proof fn law_selected_binary_computes<'src>(
    op: BinaryOp,
    l: Operand<'src>,
    r: Operand<'src>,
    d: Operand<'src>,
    m: spec_fn(Loc) -> i32,
)
    requires
        value_operand(l),
        value_operand(r),
        d is Psuedo,
        r is Psuedo ==> r->Psuedo_0 != d->Psuedo_0,
        apply_binary(op, read(l, m).unwrap(), read(r, m).unwrap()) is Some,
    ensures
        exec_all(select_binary(op, l, r, d), m) is Some,
        read(d, exec_all(select_binary(op, l, r, d), m).unwrap()) == apply_binary(op, read(l, m).unwrap(), read(r, m).unwrap()),
{
    let a = read(l, m).unwrap();
    let b = read(r, m).unwrap();
    let t = d->Psuedo_0;
    let e = Seq::<Inst<'src>>::empty();
    let code = select_binary(op, l, r, d);
    match op {
        BinaryOp::Div | BinaryOp::Rem => {
            let i0 = Inst::Mov(l, Operand::Reg(Reg::AX));
            let i1 = Inst::Cdq;
            let i2 = Inst::IDiv(r);
            let i3 = if op == BinaryOp::Div {
                Inst::Mov(Operand::Reg(Reg::AX), d)
            } else {
                Inst::Mov(Operand::Reg(Reg::DX), d)
            };
            assert(code =~= e.push(i0).push(i1).push(i2).push(i3));
            lemma_exec_all_push(e, i0, m);
            lemma_exec_all_push(e.push(i0), i1, m);
            lemma_exec_all_push(e.push(i0).push(i1), i2, m);
            lemma_exec_all_push(e.push(i0).push(i1).push(i2), i3, m);
            let m1 = put(m, Loc::Reg(Reg::AX), a);
            assert(exec_all(e.push(i0), m) == Some(m1));
            let m2 = put(m1, Loc::Reg(Reg::DX), if a < 0 { -1i32 } else { 0i32 });
            assert(exec_all(e.push(i0).push(i1), m) == Some(m2));
            assert(read(r, m2) == Some(b));
            assert(edx_eax(m2(Loc::Reg(Reg::DX)), m2(Loc::Reg(Reg::AX))) == a as int);
            lemma_truncated_div_fits(a, b);
            let q = truncated_div(a as int, b as int);
            let m3 = put(put(m2, Loc::Reg(Reg::AX), q as i32), Loc::Reg(Reg::DX), (a - b * q) as i32);
            assert(exec_all(e.push(i0).push(i1).push(i2), m) == Some(m3));
        },
        BinaryOp::Add | BinaryOp::Mul | BinaryOp::Sub | BinaryOp::Sar | BinaryOp::Shl | BinaryOp::BitAnd
        | BinaryOp::BitOr | BinaryOp::BitXor => {
            let i0 = Inst::Mov(l, d);
            let i1 = Inst::Binary(crate::compiler::tacky::spec_asm_binary_op(op), r, d);
            assert(code =~= e.push(i0).push(i1));
            lemma_exec_all_push(e, i0, m);
            lemma_exec_all_push(e.push(i0), i1, m);
            let m1 = put(m, Loc::Temp(t), a);
            assert(exec_all(e.push(i0), m) == Some(m1));
            assert(read(r, m1) == Some(b));
            assert(read(d, m1) == Some(a));
            if op == BinaryOp::Shl || op == BinaryOp::Sar {
                assert(b & 31 == b) by (bit_vector)
                    requires
                        0 <= b < 32,
                ;
            }
        },
        _ => {
            let i0 = Inst::Cmp(r, l);
            let i1 = Inst::Mov(Operand::Imm(0), d);
            let i2 = Inst::SetCC(crate::compiler::tacky::spec_compare_op(op), d);
            assert(code =~= e.push(i0).push(i1).push(i2));
            lemma_exec_all_push(e, i0, m);
            lemma_exec_all_push(e.push(i0), i1, m);
            lemma_exec_all_push(e.push(i0).push(i1), i2, m);
            let m1 = put(put(m, Loc::CmpDst, a), Loc::CmpSrc, b);
            assert(exec_all(e.push(i0), m) == Some(m1));
            let m2 = put(m1, Loc::Temp(t), 0);
            assert(exec_all(e.push(i0).push(i1), m) == Some(m2));
            assert(m2(Loc::CmpDst) == a && m2(Loc::CmpSrc) == b);
            assert(with_low_byte(0, 1) == 1 && with_low_byte(0, 0) == 0);
        },
    }
}

/// Law: the instructions selected for `d = op s`, with `d` a temporary,
/// leave in `d` what the three-address operation gives: the bits
/// complemented, the value negated (wrapping), or 1 when `s` is 0 and 0
/// otherwise.
pub proof fn law_selected_unary_computes<'src>(op: UnaryOp, s: Operand<'src>, d: Operand<'src>, m: spec_fn(Loc) -> i32)
    requires
        value_operand(s),
        d is Psuedo,
    ensures
        exec_all(select_unary(op, s, d), m) is Some,
        read(d, exec_all(select_unary(op, s, d), m).unwrap()) == Some(apply_unary(op, read(s, m).unwrap())),
{
    let a = read(s, m).unwrap();
    let t = d->Psuedo_0;
    let e = Seq::<Inst<'src>>::empty();
    let code = select_unary(op, s, d);
    match op {
        UnaryOp::Not => {
            let i0 = Inst::Cmp(Operand::Imm(0), s);
            let i1 = Inst::Mov(Operand::Imm(0), d);
            let i2 = Inst::SetCC(CompareOp::E, d);
            assert(code =~= e.push(i0).push(i1).push(i2));
            lemma_exec_all_push(e, i0, m);
            lemma_exec_all_push(e.push(i0), i1, m);
            lemma_exec_all_push(e.push(i0).push(i1), i2, m);
            let m1 = put(put(m, Loc::CmpDst, a), Loc::CmpSrc, 0);
            assert(exec_all(e.push(i0), m) == Some(m1));
            let m2 = put(m1, Loc::Temp(t), 0);
            assert(exec_all(e.push(i0).push(i1), m) == Some(m2));
            assert(m2(Loc::CmpDst) == a && m2(Loc::CmpSrc) == 0);
            assert(with_low_byte(0, 1) == 1 && with_low_byte(0, 0) == 0);
        },
        _ => {
            let i0 = Inst::Mov(s, d);
            let i1 = Inst::Unary(if op == UnaryOp::Negate { x86::UnaryOp::Neg } else { x86::UnaryOp::Not }, d);
            assert(code =~= e.push(i0).push(i1));
            lemma_exec_all_push(e, i0, m);
            lemma_exec_all_push(e.push(i0), i1, m);
            let m1 = put(m, Loc::Temp(t), a);
            assert(exec_all(e.push(i0), m) == Some(m1));
            assert(read(d, m1) == Some(a));
        },
    }
}

} // verus!
