//! A readable listing of three-address code.
use vstd::prelude::*;

use crate::compiler::tacky::{BinaryOp, Function, GlobalVar, Inst, Program, UnaryOp, Val};
use crate::compiler::x86::{int_text, label_text, push_int, push_label};
use crate::text::{decimal, push_decimal, push_str, string_from_chars};

verus! {

/// The symbol of a unary operator.
pub open spec fn unary_op_text(op: UnaryOp) -> Seq<char> {
    match op {
        UnaryOp::Compliment => "~"@,
        UnaryOp::Negate => "-"@,
        UnaryOp::Not => "!"@,
    }
}

/// The symbol of a binary operator.
pub open spec fn binary_op_text(op: BinaryOp) -> Seq<char> {
    match op {
        BinaryOp::Add => "+"@,
        BinaryOp::Div => "/"@,
        BinaryOp::Mul => "*"@,
        BinaryOp::Rem => "%"@,
        BinaryOp::Sub => "-"@,
        BinaryOp::Shl => "<<"@,
        BinaryOp::Sar => ">>"@,
        BinaryOp::G => ">"@,
        BinaryOp::GE => ">="@,
        BinaryOp::L => "<"@,
        BinaryOp::LE => "<="@,
        BinaryOp::E => "=="@,
        BinaryOp::NE => "!="@,
        BinaryOp::BitAnd => "&"@,
        BinaryOp::BitOr => "|"@,
        BinaryOp::BitXor => "^"@,
    }
}

impl UnaryOp {
    /// The operator's symbol.
    pub fn text(self) -> (r: &'static str)
        ensures
            r@ == unary_op_text(self),
    {
        match self {
            UnaryOp::Compliment => "~",
            UnaryOp::Negate => "-",
            UnaryOp::Not => "!",
        }
    }
}

impl BinaryOp {
    /// The operator's symbol.
    pub fn text(self) -> (r: &'static str)
        ensures
            r@ == binary_op_text(self),
    {
        match self {
            BinaryOp::Add => "+",
            BinaryOp::Div => "/",
            BinaryOp::Mul => "*",
            BinaryOp::Rem => "%",
            BinaryOp::Sub => "-",
            BinaryOp::Shl => "<<",
            BinaryOp::Sar => ">>",
            BinaryOp::G => ">",
            BinaryOp::GE => ">=",
            BinaryOp::L => "<",
            BinaryOp::LE => "<=",
            BinaryOp::E => "==",
            BinaryOp::NE => "!=",
            BinaryOp::BitAnd => "&",
            BinaryOp::BitOr => "|",
            BinaryOp::BitXor => "^",
        }
    }
}

/// A value: `$` and a constant, `.tmp` and a temporary's number, a name, or
/// `ls` and the number of a static local.
pub open spec fn val_text(v: Val) -> Seq<char> {
    match v {
        Val::Const(n) => "$"@ + int_text(n as int),
        Val::Temp(id) => ".tmp"@ + decimal(id as nat),
        Val::Fn(name) => name.text(),
        Val::GlobalVar(name) => name.text(),
        Val::LocalStaticLoad(id) => "ls"@ + decimal(id as nat),
    }
}

/// Appends a value.
pub fn push_val(out: &mut Vec<char>, v: Val)
    ensures
        final(out)@ == old(out)@ + val_text(v),
{
    match v {
        Val::Const(n) => {
            push_str(out, "$");
            push_int(out, n);
        },
        Val::Temp(id) => {
            push_str(out, ".tmp");
            push_decimal(out, id);
        },
        Val::Fn(name) => push_str(out, name.get()),
        Val::GlobalVar(name) => push_str(out, name.get()),
        Val::LocalStaticLoad(id) => {
            push_str(out, "ls");
            push_decimal(out, id as usize);
        },
    }
    proof {
        assert(final(out)@ =~= old(out)@ + val_text(v));
    }
}

/// The arguments `k..` of a call, separated by `", "`.
pub open spec fn args_text(args: Seq<Val>, k: int) -> Seq<char>
    decreases args.len() - k,
{
    if k < 0 || k >= args.len() {
        Seq::empty()
    } else {
        (if k == 0 { Seq::empty() } else { ", "@ }) + val_text(args[k]) + args_text(args, k + 1)
    }
}

/// An instruction on one line: a label indented by four spaces, anything
/// else by eight.
pub open spec fn inst_text(i: Inst) -> Seq<char> {
    match i {
        Inst::Label(l) => "    "@ + label_text(l),
        Inst::Binary { op, lhs, rhs, dst } => "        "@ + val_text(dst) + " <- "@ + val_text(lhs) + " "@
            + binary_op_text(op) + " "@ + val_text(rhs),
        Inst::Call { operand, args, dst } => "        "@ + val_text(dst) + " <- "@ + val_text(operand) + "("@
            + args_text(args@, 0) + ")"@,
        Inst::Copy { src, dst } => "        "@ + val_text(dst) + " <- "@ + val_text(src),
        Inst::Jump(l) => "        "@ + "jmp "@ + label_text(l),
        Inst::JumpIfNotZero(src, l) => "        "@ + "jnz "@ + val_text(src) + " "@ + label_text(l),
        Inst::JumpIfZero(src, l) => "        "@ + "jz "@ + val_text(src) + " "@ + label_text(l),
        Inst::Ret(src) => "        "@ + "ret "@ + val_text(src),
        Inst::Unary { op, src, dst } => "        "@ + val_text(dst) + " <- "@ + unary_op_text(op) + "("@
            + val_text(src) + ")"@,
    }
}

/// Appends the arguments of a call.
fn push_args(out: &mut Vec<char>, args: &Vec<Val>)
    ensures
        final(out)@ == old(out)@ + args_text(args@, 0),
{
    let mut k: usize = 0;
    while k < args.len()
        invariant
            k <= args@.len(),
            out@ + args_text(args@, k as int) == old(out)@ + args_text(args@, 0),
        decreases args@.len() - k,
    {
        let ghost before = out@;
        if k > 0 {
            push_str(out, ", ");
        }
        push_val(out, args[k]);
        proof {
            assert(out@ + args_text(args@, k + 1) =~= before + args_text(args@, k as int));
        }
        k += 1;
    }
    proof {
        assert(out@ =~= old(out)@ + args_text(args@, 0));
    }
}

impl<'src> Inst<'src> {
    /// Appends the instruction on one line, without the newline.
    pub fn push_text(&self, out: &mut Vec<char>)
        ensures
            final(out)@ == old(out)@ + inst_text(*self),
    {
        match self {
            Inst::Label(l) => {
                push_str(out, "    ");
                push_label(out, *l);
                proof { assert(final(out)@ =~= old(out)@ + inst_text(*self)); }
            },
            Inst::Binary { op, lhs, rhs, dst } => {
                push_str(out, "        ");
                push_val(out, *dst);
                push_str(out, " <- ");
                push_val(out, *lhs);
                push_str(out, " ");
                push_str(out, op.text());
                push_str(out, " ");
                push_val(out, *rhs);
                proof { assert(final(out)@ =~= old(out)@ + inst_text(*self)); }
            },
            Inst::Call { operand, args, dst } => {
                push_str(out, "        ");
                push_val(out, *dst);
                push_str(out, " <- ");
                push_val(out, *operand);
                push_str(out, "(");
                push_args(out, args);
                push_str(out, ")");
                proof { assert(final(out)@ =~= old(out)@ + inst_text(*self)); }
            },
            Inst::Copy { src, dst } => {
                push_str(out, "        ");
                push_val(out, *dst);
                push_str(out, " <- ");
                push_val(out, *src);
                proof { assert(final(out)@ =~= old(out)@ + inst_text(*self)); }
            },
            Inst::Jump(l) => {
                push_str(out, "        ");
                push_str(out, "jmp ");
                push_label(out, *l);
                proof { assert(final(out)@ =~= old(out)@ + inst_text(*self)); }
            },
            Inst::JumpIfNotZero(src, l) => {
                push_str(out, "        ");
                push_str(out, "jnz ");
                push_val(out, *src);
                push_str(out, " ");
                push_label(out, *l);
                proof { assert(final(out)@ =~= old(out)@ + inst_text(*self)); }
            },
            Inst::JumpIfZero(src, l) => {
                push_str(out, "        ");
                push_str(out, "jz ");
                push_val(out, *src);
                push_str(out, " ");
                push_label(out, *l);
                proof { assert(final(out)@ =~= old(out)@ + inst_text(*self)); }
            },
            Inst::Ret(src) => {
                push_str(out, "        ");
                push_str(out, "ret ");
                push_val(out, *src);
                proof { assert(final(out)@ =~= old(out)@ + inst_text(*self)); }
            },
            Inst::Unary { op, src, dst } => {
                push_str(out, "        ");
                push_val(out, *dst);
                push_str(out, " <- ");
                push_str(out, op.text());
                push_str(out, "(");
                push_val(out, *src);
                push_str(out, ")");
                proof { assert(final(out)@ =~= old(out)@ + inst_text(*self)); }
            },
        }
    }
}

/// A variable with static storage: `    global`, its name, its generation
/// when it has one, `<-` and its initial value when it has one, and a comma.
pub open spec fn global_text(g: GlobalVar) -> Seq<char> {
    "    global "@ + g.name.text() + (match g.generation {
        Some(n) => decimal(n as nat),
        None => Seq::empty(),
    }) + (match g.def {
        Some(v) => " <- "@ + int_text(v as int),
        None => Seq::empty(),
    }) + ","@
}

/// The instructions `k..` of a function, one per line.
pub open spec fn insts_text(insts: Seq<Inst>, k: int) -> Seq<char>
    decreases insts.len() - k,
{
    if k < 0 || k >= insts.len() {
        Seq::empty()
    } else {
        inst_text(insts[k]) + "\n"@ + insts_text(insts, k + 1)
    }
}

/// A function: a header line with its name, one line per instruction, and a
/// closing `    },`.
pub open spec fn function_text(f: Function) -> Seq<char> {
    "    fn "@ + f.name.text() + ":\n"@ + insts_text(f.insts@, 0) + "    },"@
}

/// The variables `k..`, one per line.
pub open spec fn globals_text(gs: Seq<GlobalVar>, k: int) -> Seq<char>
    decreases gs.len() - k,
{
    if k < 0 || k >= gs.len() {
        Seq::empty()
    } else {
        global_text(gs[k]) + "\n"@ + globals_text(gs, k + 1)
    }
}

/// The functions `k..`, each followed by a newline.
pub open spec fn functions_text(fs: Seq<Function>, k: int) -> Seq<char>
    decreases fs.len() - k,
{
    if k < 0 || k >= fs.len() {
        Seq::empty()
    } else {
        function_text(fs[k]) + "\n"@ + functions_text(fs, k + 1)
    }
}

/// A program: `Program [`, its variables, its functions and `]`, each on
/// lines of their own.
pub open spec fn program_text(p: Program) -> Seq<char> {
    "Program [\n"@ + globals_text(p.globals@, 0) + functions_text(p.functions@, 0) + "]\n"@
}

impl<'src> GlobalVar<'src> {
    /// Appends the variable's line, without the newline.
    pub fn push_text(&self, out: &mut Vec<char>)
        ensures
            final(out)@ == old(out)@ + global_text(*self),
    {
        push_str(out, "    global ");
        push_str(out, self.name.get());
        if let Some(n) = self.generation {
            push_decimal(out, n as usize);
        }
        if let Some(v) = self.def {
            push_str(out, " <- ");
            push_int(out, v);
        }
        push_str(out, ",");
        proof {
            assert(final(out)@ =~= old(out)@ + global_text(*self));
        }
    }
}

impl<'src> Function<'src> {
    /// Appends the function's listing, without a final newline.
    pub fn push_text(&self, out: &mut Vec<char>)
        ensures
            final(out)@ == old(out)@ + function_text(*self),
    {
        push_str(out, "    fn ");
        push_str(out, self.name.get());
        push_str(out, ":\n");
        let ghost head = out@;
        let mut k: usize = 0;
        while k < self.insts.len()
            invariant
                k <= self.insts@.len(),
                out@ + insts_text(self.insts@, k as int) == head + insts_text(self.insts@, 0),
            decreases self.insts@.len() - k,
        {
            let ghost before = out@;
            self.insts[k].push_text(out);
            push_str(out, "\n");
            proof {
                assert(out@ + insts_text(self.insts@, k + 1) =~= before + insts_text(self.insts@, k as int));
            }
            k += 1;
        }
        push_str(out, "    },");
        proof {
            assert(final(out)@ =~= old(out)@ + function_text(*self));
        }
    }
}

impl<'src> Program<'src> {
    /// The whole listing.
    pub fn to_text(&self) -> (r: String)
        ensures
            r@ == program_text(*self),
    {
        let mut out: Vec<char> = Vec::new();
        push_str(&mut out, "Program [\n");
        let ghost head = out@;
        let mut k: usize = 0;
        while k < self.globals.len()
            invariant
                k <= self.globals@.len(),
                out@ + globals_text(self.globals@, k as int) == head + globals_text(self.globals@, 0),
            decreases self.globals@.len() - k,
        {
            let ghost before = out@;
            self.globals[k].push_text(&mut out);
            push_str(&mut out, "\n");
            proof {
                assert(out@ + globals_text(self.globals@, k + 1) =~= before + globals_text(self.globals@, k as int));
            }
            k += 1;
        }
        let ghost mid = out@;
        let mut k: usize = 0;
        while k < self.functions.len()
            invariant
                k <= self.functions@.len(),
                out@ + functions_text(self.functions@, k as int) == mid + functions_text(self.functions@, 0),
            decreases self.functions@.len() - k,
        {
            let ghost before = out@;
            self.functions[k].push_text(&mut out);
            push_str(&mut out, "\n");
            proof {
                assert(out@ + functions_text(self.functions@, k + 1) =~= before + functions_text(
                    self.functions@,
                    k as int,
                ));
            }
            k += 1;
        }
        push_str(&mut out, "]\n");
        proof {
            assert(out@ =~= program_text(*self));
        }
        string_from_chars(&out)
    }
}

} // verus!
