//! A small statement language that x86 instructions are translated into, and
//! the translation of one decoded instruction into a statement.
use vstd::prelude::*;

use crate::insn::{Insn, InsnV, OpKind};
use crate::text::{chars_eq, chars_of, string_from_chars};

verus! {

/// A variable name (a register, in lower case).
#[derive(Clone, Debug)]
pub struct Name(pub String);

impl Name {
    pub fn new(s: String) -> (r: Name)
        ensures
            r.0@ == s@,
    {
        Name(s)
    }
}

/// An expression.
#[derive(Debug)]
pub enum Expr {
    /// A constant.
    Val(u32),
    /// A register.
    Reg(Name),
    /// An operator or function applied to arguments (`+`, `@` for a memory
    /// access, `segofs`, ...).
    Call(Box<Call>),
    /// Something not worked out yet.
    Todo(String),
}

/// An operator or function and its arguments.
#[derive(Debug)]
pub struct Call {
    pub func: String,
    pub args: Vec<Expr>,
}

/// A statement and the addresses of the instructions it comes from.
#[derive(Debug)]
pub struct Stmt {
    pub ip: Vec<u32>,
    pub kind: StmtKind,
}

#[derive(Debug)]
pub enum StmtKind {
    /// Assigns the value of the second expression to the first.
    Assign(Expr, Expr),
    /// Evaluates an expression for its effect.
    Do(Expr),
    /// Jumps to the target when the condition holds.
    Jmp(Box<Call>, Expr),
    /// An instruction kept as assembly text.
    Raw(String),
}

// ---------------------------------------------------------------------------
// The mathematical values.

pub enum ExprV {
    Val(u32),
    Reg(Seq<char>),
    Call(Seq<char>, Seq<ExprV>),
    Todo(Seq<char>),
}

pub enum StmtKindV {
    Assign(ExprV, ExprV),
    Do(ExprV),
    Jmp(Seq<char>, Seq<ExprV>, ExprV),
    Raw(Seq<char>),
}

pub open spec fn expr_view(e: Expr) -> ExprV
    decreases e,
{
    match e {
        Expr::Val(v) => ExprV::Val(v),
        Expr::Reg(n) => ExprV::Reg(n.0@),
        Expr::Call(c) => ExprV::Call(c.func@, exprs_view(c.args@)),
        Expr::Todo(s) => ExprV::Todo(s@),
    }
}

pub open spec fn exprs_view(es: Seq<Expr>) -> Seq<ExprV>
    decreases es,
{
    if es.len() == 0 {
        Seq::empty()
    } else {
        exprs_view(es.subrange(0, es.len() - 1)).push(expr_view(es[es.len() - 1]))
    }
}

impl View for Expr {
    type V = ExprV;

    open spec fn view(&self) -> ExprV {
        expr_view(*self)
    }
}

impl View for StmtKind {
    type V = StmtKindV;

    open spec fn view(&self) -> StmtKindV {
        match self {
            StmtKind::Assign(a, b) => StmtKindV::Assign(a@, b@),
            StmtKind::Do(e) => StmtKindV::Do(e@),
            StmtKind::Jmp(c, e) => StmtKindV::Jmp(c.func@, exprs_view(c.args@), e@),
            StmtKind::Raw(s) => StmtKindV::Raw(s@),
        }
    }
}

// ---------------------------------------------------------------------------
// Text helpers.

pub open spec fn lower_char(c: char) -> char {
    if 'A' <= c <= 'Z' {
        ((c as int) + 32) as char
    } else {
        c
    }
}

/// `to_ascii_lowercase`.
pub open spec fn lower_ascii(s: Seq<char>) -> Seq<char> {
    Seq::new(s.len(), |i: int| lower_char(s[i]))
}

pub fn to_ascii_lowercase(s: &String) -> (r: String)
    ensures
        r@ == lower_ascii(s@),
{
    let c = chars_of(s.as_str());
    let mut out: Vec<char> = Vec::new();
    let mut i: usize = 0;
    while i < c.len()
        invariant
            i <= c@.len(),
            c@ == s@,
            out@ =~= lower_ascii(c@).take(i as int),
        decreases c@.len() - i,
    {
        let ch = c[i];
        if 'A' <= ch && ch <= 'Z' {
            out.push(((ch as u32 + 32) as u8) as char);
        } else {
            out.push(ch);
        }
        i += 1;
    }
    string_from_chars(&out)
}

/// An owned copy of a string slice.
pub fn owned(s: &str) -> (r: String)
    ensures
        r@ == s@,
{
    let c = chars_of(s);
    string_from_chars(&c)
}

/// Whether `s` is the text `lit`.
pub fn name_is(s: &String, lit: &str) -> (r: bool)
    ensures
        r == (s@ == lit@),
{
    let a = chars_of(s.as_str());
    let b = chars_of(lit);
    chars_eq(&a, &b)
}

// ---------------------------------------------------------------------------
// Translating an instruction.

/// A register operand: its name in lower case.
pub open spec fn reg_expr(name: Seq<char>) -> ExprV {
    ExprV::Reg(lower_ascii(name))
}

pub open spec fn is_seg_reg(n: Seq<char>) -> bool {
    n == "CS"@ || n == "DS"@ || n == "ES"@ || n == "FS"@ || n == "GS"@ || n == "SS"@
}

/// The memory operand's segment is a segment register or absent (then `ds`).
pub open spec fn memory_ok(i: InsnV) -> bool {
    is_seg_reg(i.memory_segment) || i.memory_segment == "None"@
}

/// Operand `op` exists and is of a kind that translates.
pub open spec fn operand_ok(i: InsnV, op: int) -> bool {
    0 <= op < i.operands.len() && {
        let k = i.operands[op].kind;
        k == OpKind::Immediate8 || k == OpKind::Immediate8to16 || k == OpKind::Immediate8to32 || k
            == OpKind::Immediate16 || k == OpKind::Immediate32 || k == OpKind::NearBranch16 || k
            == OpKind::NearBranch32 || k == OpKind::Register || (k == OpKind::Memory && memory_ok(i))
    }
}

/// A memory operand: `@(segofs(seg, base + index*scale + disp))`, leaving out
/// absent parts (`0` when all are absent, the part itself when only one is there).
pub open spec fn spec_from_memory(i: InsnV) -> ExprV {
    let seg = if i.memory_segment == "None"@ {
        ExprV::Reg("ds"@)
    } else {
        reg_expr(i.memory_segment)
    };
    let a0: Seq<ExprV> = if i.memory_base == "None"@ {
        Seq::empty()
    } else {
        seq![reg_expr(i.memory_base)]
    };
    let a1 = if i.memory_index == "None"@ {
        a0
    } else if i.memory_index_scale != 1 {
        a0.push(ExprV::Call("*"@, seq![reg_expr(i.memory_index), ExprV::Val(i.memory_index_scale)]))
    } else {
        a0.push(reg_expr(i.memory_index))
    };
    let a2 = if i.memory_displacement32 != 0 {
        a1.push(ExprV::Val(i.memory_displacement32))
    } else {
        a1
    };
    let sum = if a2.len() == 0 {
        ExprV::Val(0)
    } else if a2.len() == 1 {
        a2[0]
    } else {
        ExprV::Call("+"@, a2)
    };
    ExprV::Call("@"@, seq![ExprV::Call("segofs"@, seq![seg, sum])])
}

/// Operand `op` as an expression.
pub open spec fn spec_from_iced(i: InsnV, op: int) -> ExprV {
    let o = i.operands[op];
    if o.kind == OpKind::Immediate8 {
        ExprV::Val(i.immediate8 as u32)
    } else if o.kind == OpKind::Immediate8to16 {
        ExprV::Val(i.immediate8to16 as u32)
    } else if o.kind == OpKind::Immediate8to32 {
        ExprV::Val(i.immediate8to32 as u32)
    } else if o.kind == OpKind::Immediate16 {
        ExprV::Val(i.immediate16 as u32)
    } else if o.kind == OpKind::Immediate32 {
        ExprV::Val(i.immediate32)
    } else if o.kind == OpKind::NearBranch16 {
        ExprV::Val(i.near_branch16 as u32)
    } else if o.kind == OpKind::NearBranch32 {
        ExprV::Val(i.near_branch32)
    } else if o.kind == OpKind::Register {
        reg_expr(o.reg)
    } else {
        spec_from_memory(i)
    }
}

pub open spec fn is_binop(m: Seq<char>) -> bool {
    m == "Add"@ || m == "Shl"@ || m == "Sub"@ || m == "Xor"@ || m == "Sar"@ || m == "And"@
}

pub open spec fn binop_func(m: Seq<char>) -> Seq<char> {
    if m == "Add"@ {
        "+"@
    } else if m == "Shl"@ {
        "<<"@
    } else if m == "Sar"@ {
        ">>"@
    } else if m == "Sub"@ {
        "-"@
    } else if m == "Xor"@ {
        "^"@
    } else {
        "&"@
    }
}

pub open spec fn is_cond_jump(m: Seq<char>) -> bool {
    m == "Jmp"@ || m == "Jae"@ || m == "Jb"@ || m == "Je"@ || m == "Jge"@ || m == "Jne"@ || m
        == "Jle"@ || m == "Jl"@
}

/// Instructions whose operands the translation reads are there and translate.
pub open spec fn lowerable(i: InsnV) -> bool {
    let m = i.mnemonic;
    if m == "Mov"@ {
        operand_ok(i, 0) && operand_ok(i, 1)
    } else if m == "Inc"@ || m == "Dec"@ {
        operand_ok(i, 0)
    } else if m == "Cmp"@ || m == "Test"@ || is_binop(m) {
        operand_ok(i, 0) && operand_ok(i, 1)
    } else if m == "Lea"@ {
        operand_ok(i, 0) && i.operands.len() > 1 && i.operands[1].kind == OpKind::Memory
            && memory_ok(i)
    } else if is_cond_jump(m) || m == "Jcxz"@ {
        operand_ok(i, 0)
    } else if m == "Ret"@ || m == "Retf"@ {
        true
    } else if m == "Not"@ || m == "Neg"@ || m == "Call"@ {
        operand_ok(i, 0)
    } else if m == "Cdq"@ {
        true
    } else if m == "Push"@ || m == "Pop"@ {
        operand_ok(i, 0)
    } else if m == "Cli"@ || m == "Sti"@ || m == "Cld"@ {
        true
    } else if m == "Int"@ {
        i.operands.len() == 1 && operand_ok(i, 0)
    } else {
        true
    }
}

/// The statement an instruction translates into, or the reason it does not:
/// `<mnemonic> in <instruction>` for a mnemonic that has no translation.
pub open spec fn spec_lower(i: InsnV) -> Result<StmtKindV, Seq<char>> {
    let m = i.mnemonic;
    if m == "Mov"@ {
        Ok(StmtKindV::Assign(spec_from_iced(i, 0), spec_from_iced(i, 1)))
    } else if m == "Inc"@ || m == "Dec"@ {
        let e = spec_from_iced(i, 0);
        let f = if m == "Inc"@ {
            "+"@
        } else {
            "-"@
        };
        Ok(StmtKindV::Assign(e, ExprV::Call(f, seq![e, ExprV::Val(1)])))
    } else if m == "Cmp"@ || m == "Test"@ {
        let f = if m == "Cmp"@ {
            "cmp"@
        } else {
            "test"@
        };
        Ok(StmtKindV::Do(ExprV::Call(f, seq![spec_from_iced(i, 0), spec_from_iced(i, 1)])))
    } else if is_binop(m) {
        let l = spec_from_iced(i, 0);
        Ok(StmtKindV::Assign(l, ExprV::Call(binop_func(m), seq![l, spec_from_iced(i, 1)])))
    } else if m == "Lea"@ {
        let addr = match spec_from_iced(i, 1) {
            ExprV::Call(_, args) => args[0],
            _ => ExprV::Val(0),
        };
        Ok(StmtKindV::Assign(spec_from_iced(i, 0), addr))
    } else if is_cond_jump(m) {
        Ok(StmtKindV::Jmp(lower_ascii(m), Seq::empty(), spec_from_iced(i, 0)))
    } else if m == "Jcxz"@ {
        Ok(StmtKindV::Jmp("="@, seq![ExprV::Reg("cx"@), ExprV::Val(0)], spec_from_iced(i, 0)))
    } else if m == "Ret"@ || m == "Retf"@ {
        Ok(StmtKindV::Jmp(lower_ascii(m), Seq::empty(), ExprV::Todo("stack ref"@)))
    } else if m == "Not"@ || m == "Neg"@ {
        let e = spec_from_iced(i, 0);
        let f = if m == "Not"@ {
            "!"@
        } else {
            "-"@
        };
        Ok(StmtKindV::Assign(e, ExprV::Call(f, seq![e])))
    } else if m == "Call"@ {
        Ok(StmtKindV::Do(ExprV::Call("call"@, seq![spec_from_iced(i, 0)])))
    } else if m == "Cdq"@ {
        Ok(StmtKindV::Assign(ExprV::Reg("edx"@), ExprV::Call("sign-extend"@, seq![ExprV::Reg("eax"@)])))
    } else if m == "Push"@ {
        Ok(StmtKindV::Do(ExprV::Call("push"@, seq![spec_from_iced(i, 0)])))
    } else if m == "Pop"@ {
        Ok(StmtKindV::Assign(spec_from_iced(i, 0), ExprV::Call("pop"@, Seq::empty())))
    } else if m == "Cli"@ || m == "Sti"@ || m == "Cld"@ {
        Ok(StmtKindV::Do(ExprV::Call(lower_ascii(m), Seq::empty())))
    } else if m == "Int"@ {
        Ok(StmtKindV::Do(ExprV::Call("int"@, seq![spec_from_iced(i, 0)])))
    } else if m == "Imul"@ || m == "Idiv"@ || m == "Stosb"@ || m == "Nop"@ {
        Ok(StmtKindV::Raw(i.text))
    } else {
        Err(m + " in "@ + i.text)
    }
}

fn reg_from_name(name: &String) -> (r: Expr)
    ensures
        r@ == reg_expr(name@),
{
    Expr::Reg(Name::new(to_ascii_lowercase(name)))
}

fn call_expr(func: &str, args: Vec<Expr>) -> (r: Expr)
    ensures
        r@ == ExprV::Call(func@, exprs_view(args@)),
{
    Expr::Call(Box::new(Call { func: owned(func), args }))
}

proof fn lemma_exprs_view_push(es: Seq<Expr>, e: Expr)
    ensures
        exprs_view(es.push(e)) == exprs_view(es).push(e@),
{
    assert(es.push(e).subrange(0, es.len() as int) =~= es);
}

proof fn lemma_exprs_view_len(es: Seq<Expr>)
    ensures
        exprs_view(es).len() == es.len(),
        forall|k: int| 0 <= k < es.len() ==> #[trigger] exprs_view(es)[k] == es[k]@,
    decreases es.len(),
{
    if es.len() > 0 {
        lemma_exprs_view_len(es.subrange(0, es.len() - 1));
        assert forall|k: int| 0 <= k < es.len() implies #[trigger] exprs_view(es)[k] == es[k]@ by {
            if k < es.len() - 1 {
                assert(es.subrange(0, es.len() - 1)[k] == es[k]);
            }
        }
    }
}

/// `vec![a]`, `vec![a, b]` as expression lists.
fn one(a: Expr) -> (r: Vec<Expr>)
    ensures
        exprs_view(r@) == seq![a@],
{
    let mut v: Vec<Expr> = Vec::new();
    proof {
        lemma_exprs_view_push(v@, a);
        assert(exprs_view(v@) =~= Seq::<ExprV>::empty());
    }
    v.push(a);
    v
}

fn two(a: Expr, b: Expr) -> (r: Vec<Expr>)
    ensures
        exprs_view(r@) == seq![a@, b@],
{
    let mut v = one(a);
    proof {
        lemma_exprs_view_push(v@, b);
    }
    v.push(b);
    v
}

fn none() -> (r: Vec<Expr>)
    ensures
        exprs_view(r@) == Seq::<ExprV>::empty(),
{
    Vec::new()
}

impl Expr {
    /// The memory operand of `instr` as an expression.
    pub fn from_memory(instr: &Insn) -> (r: Expr)
        requires
            memory_ok(instr@),
        ensures
            r@ == spec_from_memory(instr@),
    {
        let seg = if name_is(&instr.memory_segment, "None") {
            Expr::Reg(Name::new(owned("ds")))
        } else {
            reg_from_name(&instr.memory_segment)
        };
        let mut args: Vec<Expr> = Vec::new();
        let ghost a0: Seq<ExprV> = if instr@.memory_base == "None"@ {
            Seq::empty()
        } else {
            seq![reg_expr(instr@.memory_base)]
        };
        assert(exprs_view(args@) =~= Seq::<ExprV>::empty());
        if !name_is(&instr.memory_base, "None") {
            let e = reg_from_name(&instr.memory_base);
            proof {
                lemma_exprs_view_push(args@, e);
            }
            args.push(e);
        }
        assert(exprs_view(args@) =~= a0);
        if !name_is(&instr.memory_index, "None") {
            let mut e = reg_from_name(&instr.memory_index);
            if instr.memory_index_scale != 1 {
                e = call_expr("*", two(e, Expr::Val(instr.memory_index_scale)));
            }
            proof {
                lemma_exprs_view_push(args@, e);
            }
            args.push(e);
        }
        if instr.memory_displacement32 != 0 {
            proof {
                lemma_exprs_view_push(args@, Expr::Val(instr.memory_displacement32));
            }
            args.push(Expr::Val(instr.memory_displacement32));
        }
        proof {
            lemma_exprs_view_len(args@);
        }
        let sum = if args.len() == 0 {
            Expr::Val(0)
        } else if args.len() == 1 {
            let e = args.pop().unwrap();
            e
        } else {
            call_expr("+", args)
        };
        call_expr("@", one(call_expr("segofs", two(seg, sum))))
    }

    /// Operand `op` of `instr` as an expression.
    pub fn from_iced(instr: &Insn, op: usize) -> (r: Expr)
        requires
            operand_ok(instr@, op as int),
        ensures
            r@ == spec_from_iced(instr@, op as int),
    {
        assert(instr@.operands[op as int] == instr.operands@[op as int]@);
        match instr.operands[op].kind {
            OpKind::Immediate8 => Expr::Val(instr.immediate8 as u32),
            OpKind::Immediate8to16 => Expr::Val(instr.immediate8to16 as u32),
            OpKind::Immediate8to32 => Expr::Val(instr.immediate8to32 as u32),
            OpKind::Immediate16 => Expr::Val(instr.immediate16 as u32),
            OpKind::Immediate32 => Expr::Val(instr.immediate32),
            OpKind::NearBranch16 => Expr::Val(instr.near_branch16 as u32),
            OpKind::NearBranch32 => Expr::Val(instr.near_branch32),
            OpKind::Register => reg_from_name(&instr.operands[op].reg),
            _ => Expr::from_memory(instr),
        }
    }
}

pub open spec fn stmt_kind_ok(r: Result<StmtKind, String>, i: InsnV) -> bool {
    match (r, spec_lower(i)) {
        (Ok(k), Ok(v)) => k@ == v,
        (Err(e), Err(v)) => e@ == v,
        _ => false,
    }
}

fn jmp_kind(cond: Expr, dst: Expr) -> (r: StmtKind)
    requires
        cond@ is Call,
    ensures
        r@ == StmtKindV::Jmp(cond@->Call_0, cond@->Call_1, dst@),
{
    match cond {
        Expr::Call(c) => StmtKind::Jmp(c, dst),
        _ => StmtKind::Jmp(Box::new(Call { func: owned(""), args: Vec::new() }), dst),
    }
}

fn is_binop_exec(m: &String) -> (r: bool)
    ensures
        r == is_binop(m@),
{
    name_is(m, "Add") || name_is(m, "Shl") || name_is(m, "Sub") || name_is(m, "Xor") || name_is(m, "Sar")
        || name_is(m, "And")
}

fn binop_func_exec(m: &String) -> (r: &'static str)
    ensures
        r@ == binop_func(m@),
{
    if name_is(m, "Add") {
        "+"
    } else if name_is(m, "Shl") {
        "<<"
    } else if name_is(m, "Sar") {
        ">>"
    } else if name_is(m, "Sub") {
        "-"
    } else if name_is(m, "Xor") {
        "^"
    } else {
        "&"
    }
}

fn is_cond_jump_exec(m: &String) -> (r: bool)
    ensures
        r == is_cond_jump(m@),
{
    name_is(m, "Jmp") || name_is(m, "Jae") || name_is(m, "Jb") || name_is(m, "Je") || name_is(m, "Jge")
        || name_is(m, "Jne") || name_is(m, "Jle") || name_is(m, "Jl")
}

fn operand_ok_exec(instr: &Insn, op: usize) -> (r: bool)
    ensures
        r == operand_ok(instr@, op as int),
{
    if op >= instr.operands.len() {
        return false;
    }
    assert(instr@.operands[op as int] == instr.operands@[op as int]@);
    match instr.operands[op].kind {
        OpKind::Immediate8 | OpKind::Immediate8to16 | OpKind::Immediate8to32 | OpKind::Immediate16
        | OpKind::Immediate32 | OpKind::NearBranch16 | OpKind::NearBranch32 | OpKind::Register => true,
        OpKind::Memory => memory_ok_exec(instr),
        _ => false,
    }
}

fn memory_ok_exec(instr: &Insn) -> (r: bool)
    ensures
        r == memory_ok(instr@),
{
    let s = &instr.memory_segment;
    name_is(s, "CS") || name_is(s, "DS") || name_is(s, "ES") || name_is(s, "FS") || name_is(s, "GS")
        || name_is(s, "SS") || name_is(s, "None")
}

/// Whether the instruction can be translated: the operands it reads are there
/// and of kinds that translate.
pub fn can_lower(instr: &Insn) -> (r: bool)
    ensures
        r == lowerable(instr@),
{
    let m = &instr.mnemonic;
    if name_is(m, "Mov") {
        operand_ok_exec(instr, 0) && operand_ok_exec(instr, 1)
    } else if name_is(m, "Inc") || name_is(m, "Dec") {
        operand_ok_exec(instr, 0)
    } else if name_is(m, "Cmp") || name_is(m, "Test") || is_binop_exec(m) {
        operand_ok_exec(instr, 0) && operand_ok_exec(instr, 1)
    } else if name_is(m, "Lea") {
        if operand_ok_exec(instr, 0) && instr.operands.len() > 1 {
            assert(instr@.operands[1] == instr.operands@[1]@);
            match instr.operands[1].kind {
                OpKind::Memory => memory_ok_exec(instr),
                _ => false,
            }
        } else {
            false
        }
    } else if is_cond_jump_exec(m) || name_is(m, "Jcxz") {
        operand_ok_exec(instr, 0)
    } else if name_is(m, "Ret") || name_is(m, "Retf") {
        true
    } else if name_is(m, "Not") || name_is(m, "Neg") || name_is(m, "Call") {
        operand_ok_exec(instr, 0)
    } else if name_is(m, "Cdq") {
        true
    } else if name_is(m, "Push") || name_is(m, "Pop") {
        operand_ok_exec(instr, 0)
    } else if name_is(m, "Cli") || name_is(m, "Sti") || name_is(m, "Cld") {
        true
    } else if name_is(m, "Int") {
        instr.operands.len() == 1 && operand_ok_exec(instr, 0)
    } else {
        true
    }
}

impl StmtKind {
    /// Translates one instruction.
    pub fn from_insn(instr: &Insn) -> (r: Result<StmtKind, String>)
        requires
            lowerable(instr@),
        ensures
            stmt_kind_ok(r, instr@),
    {
        let m = &instr.mnemonic;
        if name_is(m, "Mov") {
            let var = Expr::from_iced(instr, 0);
            let expr = Expr::from_iced(instr, 1);
            Ok(StmtKind::Assign(var, expr))
        } else if name_is(m, "Inc") || name_is(m, "Dec") {
            let f = if name_is(m, "Inc") {
                "+"
            } else {
                "-"
            };
            let expr = Expr::from_iced(instr, 0);
            let bin = call_expr(f, two(Expr::from_iced(instr, 0), Expr::Val(1)));
            Ok(StmtKind::Assign(expr, bin))
        } else if name_is(m, "Cmp") || name_is(m, "Test") {
            let f = if name_is(m, "Cmp") {
                "cmp"
            } else {
                "test"
            };
            let left = Expr::from_iced(instr, 0);
            let right = Expr::from_iced(instr, 1);
            Ok(StmtKind::Do(call_expr(f, two(left, right))))
        } else if is_binop_exec(m) {
            let left = Expr::from_iced(instr, 0);
            let right = Expr::from_iced(instr, 1);
            let bin = call_expr(binop_func_exec(m), two(Expr::from_iced(instr, 0), right));
            Ok(StmtKind::Assign(left, bin))
        } else if name_is(m, "Lea") {
            let left = Expr::from_iced(instr, 0);
            let addr = Expr::from_memory(instr);
            assert(spec_from_iced(instr@, 1) == spec_from_memory(instr@));
            let inner = match addr {
                Expr::Call(c) => {
                    let mut args = c.args;
                    proof {
                        lemma_exprs_view_len(args@);
                    }
                    let a = args.swap_remove(0);
                    a
                },
                _ => Expr::Val(0),
            };
            Ok(StmtKind::Assign(left, inner))
        } else if is_cond_jump_exec(m) {
            let dst = Expr::from_iced(instr, 0);
            Ok(jmp_kind(call_expr_owned(to_ascii_lowercase(m), none()), dst))
        } else if name_is(m, "Jcxz") {
            let dst = Expr::from_iced(instr, 0);
            let cond = call_expr("=", two(Expr::Reg(Name::new(owned("cx"))), Expr::Val(0)));
            Ok(jmp_kind(cond, dst))
        } else if name_is(m, "Ret") || name_is(m, "Retf") {
            let dst = Expr::Todo(owned("stack ref"));
            Ok(jmp_kind(call_expr_owned(to_ascii_lowercase(m), none()), dst))
        } else if name_is(m, "Not") || name_is(m, "Neg") {
            let f = if name_is(m, "Not") {
                "!"
            } else {
                "-"
            };
            let expr = Expr::from_iced(instr, 0);
            let bin = call_expr(f, one(Expr::from_iced(instr, 0)));
            Ok(StmtKind::Assign(expr, bin))
        } else if name_is(m, "Call") {
            Ok(StmtKind::Do(call_expr("call", one(Expr::from_iced(instr, 0)))))
        } else if name_is(m, "Cdq") {
            Ok(
                StmtKind::Assign(
                    Expr::Reg(Name::new(owned("edx"))),
                    call_expr("sign-extend", one(Expr::Reg(Name::new(owned("eax"))))),
                ),
            )
        } else if name_is(m, "Push") {
            Ok(StmtKind::Do(call_expr("push", one(Expr::from_iced(instr, 0)))))
        } else if name_is(m, "Pop") {
            Ok(StmtKind::Assign(Expr::from_iced(instr, 0), call_expr("pop", none())))
        } else if name_is(m, "Cli") || name_is(m, "Sti") || name_is(m, "Cld") {
            Ok(StmtKind::Do(call_expr_owned(to_ascii_lowercase(m), none())))
        } else if name_is(m, "Int") {
            Ok(StmtKind::Do(call_expr("int", one(Expr::from_iced(instr, 0)))))
        } else if name_is(m, "Imul") || name_is(m, "Idiv") || name_is(m, "Stosb") || name_is(m, "Nop") {
            Ok(StmtKind::Raw(instr.text.clone()))
        } else {
            let mut msg = chars_of(m.as_str());
            let sep = chars_of(" in ");
            msg.extend_from_slice(&sep);
            let t = chars_of(instr.text.as_str());
            msg.extend_from_slice(&t);
            assert(msg@ =~= m@ + " in "@ + instr@.text);
            Err(string_from_chars(&msg))
        }
    }
}

fn call_expr_owned(func: String, args: Vec<Expr>) -> (r: Expr)
    ensures
        r@ == ExprV::Call(func@, exprs_view(args@)),
{
    Expr::Call(Box::new(Call { func, args }))
}

impl Stmt {
    /// Translates one instruction into a statement at its address.
    pub fn from_insn(instr: &Insn) -> (r: Result<Stmt, String>)
        requires
            lowerable(instr@),
        ensures
            match (r, spec_lower(instr@)) {
                (Ok(st), Ok(v)) => st.kind@ == v && st.ip@ == seq![instr.ip as u32],
                (Err(e), Err(v)) => e@ == v,
                _ => false,
            },
    {
        match StmtKind::from_insn(instr) {
            Ok(kind) => {
                let mut ip: Vec<u32> = Vec::new();
                ip.push(instr.ip as u32);
                Ok(Stmt { ip, kind })
            },
            Err(e) => Err(e),
        }
    }
}


/// `inc x` lowers to `x = (+ x 1)` and `dec x` to `x = (- x 1)`: the same
/// operand on both sides, the constant 1, and opposite operators, so the two
/// lowerings of one operand differ.
pub proof fn lemma_inc_dec_lowering(inc: InsnV, dec: InsnV)
    requires
        inc.mnemonic == "Inc"@,
        dec.mnemonic == "Dec"@,
        spec_from_iced(inc, 0) == spec_from_iced(dec, 0),
    ensures
        spec_lower(inc) == Ok::<StmtKindV, Seq<char>>(
            StmtKindV::Assign(
                spec_from_iced(inc, 0),
                ExprV::Call(seq!['+'], seq![spec_from_iced(inc, 0), ExprV::Val(1)]),
            ),
        ),
        spec_lower(dec) == Ok::<StmtKindV, Seq<char>>(
            StmtKindV::Assign(
                spec_from_iced(dec, 0),
                ExprV::Call(seq!['-'], seq![spec_from_iced(dec, 0), ExprV::Val(1)]),
            ),
        ),
        spec_lower(inc) != spec_lower(dec),
{
    reveal_strlit("Inc");
    reveal_strlit("Dec");
    reveal_strlit("Mov");
    reveal_strlit("+");
    reveal_strlit("-");
    assert("+"@ =~= seq!['+']);
    assert("-"@ =~= seq!['-']);
    assert("Inc"@ != "Mov"@) by {
        assert("Inc"@[0] != "Mov"@[0]);
    }
    assert("Dec"@ != "Mov"@) by {
        assert("Dec"@[0] != "Mov"@[0]);
    }
    assert("Dec"@ != "Inc"@) by {
        assert("Dec"@[0] != "Inc"@[0]);
    }
    let e = spec_from_iced(inc, 0);
    let a = ExprV::Call(seq!['+'], seq![e, ExprV::Val(1)]);
    let b = ExprV::Call(seq!['-'], seq![e, ExprV::Val(1)]);
    assert(a != b) by {
        if a == b {
            assert(seq!['+'][0] == seq!['-'][0]);
        }
    }
}


/// A two-operand arithmetic instruction `op x, y` lowers to `x = (f x y)`,
/// with `f` the operator of the mnemonic: `+` for add, `-` for sub, `<<` for
/// shl, `>>` for sar, `^` for xor and `&` for and.
pub proof fn lemma_binop_lowering(i: InsnV)
    requires
        is_binop(i.mnemonic),
    ensures
        spec_lower(i) matches Ok(StmtKindV::Assign(l, ExprV::Call(f, args))) && l == spec_from_iced(i, 0)
            && args == seq![spec_from_iced(i, 0), spec_from_iced(i, 1)] && {
            &&& i.mnemonic == "Add"@ ==> f == seq!['+']
            &&& i.mnemonic == "Sub"@ ==> f == seq!['-']
            &&& i.mnemonic == "Shl"@ ==> f == seq!['<', '<']
            &&& i.mnemonic == "Sar"@ ==> f == seq!['>', '>']
            &&& i.mnemonic == "Xor"@ ==> f == seq!['^']
            &&& i.mnemonic == "And"@ ==> f == seq!['&']
        },
{
    reveal_strlit("Add");
    reveal_strlit("Sub");
    reveal_strlit("Shl");
    reveal_strlit("Sar");
    reveal_strlit("Xor");
    reveal_strlit("And");
    reveal_strlit("Mov");
    reveal_strlit("Inc");
    reveal_strlit("Dec");
    reveal_strlit("Cmp");
    reveal_strlit("Test");
    reveal_strlit("+");
    reveal_strlit("-");
    reveal_strlit("<<");
    reveal_strlit(">>");
    reveal_strlit("^");
    reveal_strlit("&");
    let m = i.mnemonic;
    assert(m.len() == 3 && (m[0] == 'A' || m[0] == 'S' || m[0] == 'X'));
    assert(m != "Mov"@ && m != "Inc"@ && m != "Dec"@ && m != "Cmp"@ && m != "Test"@) by {
        assert("Mov"@[0] == 'M' && "Inc"@[0] == 'I' && "Dec"@[0] == 'D' && "Cmp"@[0] == 'C' && "Test"@[0]
            == 'T');
    }
    assert("+"@ =~= seq!['+']);
    assert("-"@ =~= seq!['-']);
    assert("<<"@ =~= seq!['<', '<']);
    assert(">>"@ =~= seq!['>', '>']);
    assert("^"@ =~= seq!['^']);
    assert("&"@ =~= seq!['&']);
    if m == "Sub"@ {
        assert(m != "Add"@ && m != "Shl"@ && m != "Sar"@) by {
            assert("Sub"@[1] == 'u' && "Shl"@[1] == 'h' && "Sar"@[1] == 'a' && "Add"@[0] == 'A');
        }
    }
    if m == "Sar"@ {
        assert(m != "Add"@ && m != "Shl"@) by {
            assert("Sar"@[1] == 'a' && "Shl"@[1] == 'h' && "Add"@[0] == 'A');
        }
    }
    if m == "Shl"@ {
        assert(m != "Add"@) by {
            assert("Shl"@[0] == 'S' && "Add"@[0] == 'A');
        }
    }
    if m == "Xor"@ {
        assert(m != "Add"@ && m != "Shl"@ && m != "Sar"@ && m != "Sub"@) by {
            assert("Xor"@[0] == 'X' && "Add"@[0] == 'A' && "Shl"@[0] == 'S' && "Sar"@[0] == 'S' && "Sub"@[0]
                == 'S');
        }
    }
    if m == "And"@ {
        assert(m != "Add"@ && m != "Shl"@ && m != "Sar"@ && m != "Sub"@ && m != "Xor"@) by {
            assert("And"@[1] == 'n' && "Add"@[1] == 'd' && "Shl"@[0] == 'S' && "Sar"@[0] == 'S' && "Sub"@[0]
                == 'S' && "Xor"@[0] == 'X');
        }
    }
}

} // verus!
