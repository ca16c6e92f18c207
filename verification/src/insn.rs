//! One decoded 16-bit x86 instruction, held as plain values.
//!
//! Decoding is iced-x86's: each fact that the analyses read about an
//! instruction comes from one trusted call into iced's 16-bit decoder, and is
//! named below by a function of the bytes, the position and the IP alone.
use vstd::prelude::*;

verus! {

// ---------------------------------------------------------------------------
// Names for what iced's decoder reports about the instruction that starts at
// `code[pos]` when decoded in 16-bit mode with instruction pointer `ip`.

pub uninterp spec fn iced_len(code: Seq<u8>, pos: int, ip: u16) -> usize;

pub uninterp spec fn iced_flow_code(code: Seq<u8>, pos: int, ip: u16) -> u8;

pub uninterp spec fn iced_mnemonic(code: Seq<u8>, pos: int, ip: u16) -> Seq<char>;

pub uninterp spec fn iced_op_count(code: Seq<u8>, pos: int, ip: u16) -> u32;

pub uninterp spec fn iced_op_kind_code(code: Seq<u8>, pos: int, ip: u16, n: u32) -> u8;

pub uninterp spec fn iced_op_register(code: Seq<u8>, pos: int, ip: u16, n: u32) -> Seq<char>;

pub uninterp spec fn iced_op_register_size(code: Seq<u8>, pos: int, ip: u16, n: u32) -> usize;

pub uninterp spec fn iced_immediate8(code: Seq<u8>, pos: int, ip: u16) -> u8;

pub uninterp spec fn iced_immediate8to16(code: Seq<u8>, pos: int, ip: u16) -> i16;

pub uninterp spec fn iced_immediate8to32(code: Seq<u8>, pos: int, ip: u16) -> i32;

pub uninterp spec fn iced_immediate16(code: Seq<u8>, pos: int, ip: u16) -> u16;

pub uninterp spec fn iced_immediate32(code: Seq<u8>, pos: int, ip: u16) -> u32;

pub uninterp spec fn iced_near_branch16(code: Seq<u8>, pos: int, ip: u16) -> u16;

pub uninterp spec fn iced_near_branch32(code: Seq<u8>, pos: int, ip: u16) -> u32;

pub uninterp spec fn iced_far_branch16(code: Seq<u8>, pos: int, ip: u16) -> u16;

pub uninterp spec fn iced_far_branch_selector(code: Seq<u8>, pos: int, ip: u16) -> u16;

pub uninterp spec fn iced_memory_segment(code: Seq<u8>, pos: int, ip: u16) -> Seq<char>;

pub uninterp spec fn iced_memory_base(code: Seq<u8>, pos: int, ip: u16) -> Seq<char>;

pub uninterp spec fn iced_memory_index(code: Seq<u8>, pos: int, ip: u16) -> Seq<char>;

pub uninterp spec fn iced_memory_index_scale(code: Seq<u8>, pos: int, ip: u16) -> u32;

pub uninterp spec fn iced_memory_displacement32(code: Seq<u8>, pos: int, ip: u16) -> u32;

pub uninterp spec fn iced_text(code: Seq<u8>, pos: int, ip: u16) -> Seq<char>;

/// `Instruction::len` of the decoded instruction. Decoding reads at least one
/// byte when one is available (none at the end of the data) and never more
/// than 15 or past the end of the data.
#[verifier::external_body]
fn decoded_len(code: &[u8], pos: usize, ip: u16) -> (r: usize)
    requires
        pos <= code.len(),
    ensures
        r == iced_len(code@, pos as int, ip),
        pos < code.len() ==> 1 <= r,
        r <= 15,
        pos + r <= code.len(),
{
    iced_x86::Decoder::with_ip(16, &code[pos..], ip as u64, iced_x86::DecoderOptions::NONE).decode().len()
}

/// `Instruction::flow_control` of the decoded instruction, as its `FlowControl`
/// discriminant (`Next` = 0 up to `Exception` = 9).
#[verifier::external_body]
fn decoded_flow_code(code: &[u8], pos: usize, ip: u16) -> (r: u8)
    requires
        pos <= code.len(),
    ensures
        r == iced_flow_code(code@, pos as int, ip),
        r <= 9,
{
    let i = iced_x86::Decoder::with_ip(16, &code[pos..], ip as u64, iced_x86::DecoderOptions::NONE).decode();
    i.flow_control() as u8
}

/// `Instruction::mnemonic` of the decoded instruction, by its `Debug` name (e.g. `Mov`).
#[verifier::external_body]
fn decoded_mnemonic(code: &[u8], pos: usize, ip: u16) -> (r: String)
    requires
        pos <= code.len(),
    ensures
        r@ == iced_mnemonic(code@, pos as int, ip),
{
    let i = iced_x86::Decoder::with_ip(16, &code[pos..], ip as u64, iced_x86::DecoderOptions::NONE).decode();
    format!("{:?}", i.mnemonic())
}

/// `Instruction::op_count` of the decoded instruction.
#[verifier::external_body]
fn decoded_op_count(code: &[u8], pos: usize, ip: u16) -> (r: u32)
    requires
        pos <= code.len(),
    ensures
        r == iced_op_count(code@, pos as int, ip),
{
    iced_x86::Decoder::with_ip(16, &code[pos..], ip as u64, iced_x86::DecoderOptions::NONE).decode().op_count()
}

/// `Instruction::op_kind(n)` of the decoded instruction, as its `OpKind`
/// discriminant (`Register` = 0 up to `Memory` = 24).
#[verifier::external_body]
fn decoded_op_kind_code(code: &[u8], pos: usize, ip: u16, n: u32) -> (r: u8)
    requires
        pos <= code.len(),
        n < 5,
    ensures
        r == iced_op_kind_code(code@, pos as int, ip, n),
        r <= 24,
{
    let i = iced_x86::Decoder::with_ip(16, &code[pos..], ip as u64, iced_x86::DecoderOptions::NONE).decode();
    i.op_kind(n) as u8
}

/// `Instruction::op_register(n)` of the decoded instruction, by its `Debug` name
/// (e.g. `AX`, `None`).
#[verifier::external_body]
fn decoded_op_register(code: &[u8], pos: usize, ip: u16, n: u32) -> (r: String)
    requires
        pos <= code.len(),
        n < 5,
    ensures
        r@ == iced_op_register(code@, pos as int, ip, n),
{
    let i = iced_x86::Decoder::with_ip(16, &code[pos..], ip as u64, iced_x86::DecoderOptions::NONE).decode();
    format!("{:?}", i.op_register(n))
}

/// `Register::size` (in bytes) of `Instruction::op_register(n)` of the decoded instruction.
#[verifier::external_body]
fn decoded_op_register_size(code: &[u8], pos: usize, ip: u16, n: u32) -> (r: usize)
    requires
        pos <= code.len(),
        n < 5,
    ensures
        r == iced_op_register_size(code@, pos as int, ip, n),
{
    let i = iced_x86::Decoder::with_ip(16, &code[pos..], ip as u64, iced_x86::DecoderOptions::NONE).decode();
    i.op_register(n).size()
}

/// `Instruction::immediate8` of the decoded instruction.
#[verifier::external_body]
fn decoded_immediate8(code: &[u8], pos: usize, ip: u16) -> (r: u8)
    requires
        pos <= code.len(),
    ensures
        r == iced_immediate8(code@, pos as int, ip),
{
    iced_x86::Decoder::with_ip(16, &code[pos..], ip as u64, iced_x86::DecoderOptions::NONE).decode().immediate8()
}

/// `Instruction::immediate8to16` of the decoded instruction.
#[verifier::external_body]
fn decoded_immediate8to16(code: &[u8], pos: usize, ip: u16) -> (r: i16)
    requires
        pos <= code.len(),
    ensures
        r == iced_immediate8to16(code@, pos as int, ip),
{
    iced_x86::Decoder::with_ip(16, &code[pos..], ip as u64, iced_x86::DecoderOptions::NONE).decode().immediate8to16()
}

/// `Instruction::immediate8to32` of the decoded instruction.
#[verifier::external_body]
fn decoded_immediate8to32(code: &[u8], pos: usize, ip: u16) -> (r: i32)
    requires
        pos <= code.len(),
    ensures
        r == iced_immediate8to32(code@, pos as int, ip),
{
    iced_x86::Decoder::with_ip(16, &code[pos..], ip as u64, iced_x86::DecoderOptions::NONE).decode().immediate8to32()
}

/// `Instruction::immediate16` of the decoded instruction.
#[verifier::external_body]
fn decoded_immediate16(code: &[u8], pos: usize, ip: u16) -> (r: u16)
    requires
        pos <= code.len(),
    ensures
        r == iced_immediate16(code@, pos as int, ip),
{
    iced_x86::Decoder::with_ip(16, &code[pos..], ip as u64, iced_x86::DecoderOptions::NONE).decode().immediate16()
}

/// `Instruction::immediate32` of the decoded instruction.
#[verifier::external_body]
fn decoded_immediate32(code: &[u8], pos: usize, ip: u16) -> (r: u32)
    requires
        pos <= code.len(),
    ensures
        r == iced_immediate32(code@, pos as int, ip),
{
    iced_x86::Decoder::with_ip(16, &code[pos..], ip as u64, iced_x86::DecoderOptions::NONE).decode().immediate32()
}

/// `Instruction::near_branch16` of the decoded instruction.
#[verifier::external_body]
fn decoded_near_branch16(code: &[u8], pos: usize, ip: u16) -> (r: u16)
    requires
        pos <= code.len(),
    ensures
        r == iced_near_branch16(code@, pos as int, ip),
{
    iced_x86::Decoder::with_ip(16, &code[pos..], ip as u64, iced_x86::DecoderOptions::NONE).decode().near_branch16()
}

/// `Instruction::near_branch32` of the decoded instruction.
#[verifier::external_body]
fn decoded_near_branch32(code: &[u8], pos: usize, ip: u16) -> (r: u32)
    requires
        pos <= code.len(),
    ensures
        r == iced_near_branch32(code@, pos as int, ip),
{
    iced_x86::Decoder::with_ip(16, &code[pos..], ip as u64, iced_x86::DecoderOptions::NONE).decode().near_branch32()
}

/// `Instruction::far_branch16` of the decoded instruction.
#[verifier::external_body]
fn decoded_far_branch16(code: &[u8], pos: usize, ip: u16) -> (r: u16)
    requires
        pos <= code.len(),
    ensures
        r == iced_far_branch16(code@, pos as int, ip),
{
    iced_x86::Decoder::with_ip(16, &code[pos..], ip as u64, iced_x86::DecoderOptions::NONE).decode().far_branch16()
}

/// `Instruction::far_branch_selector` of the decoded instruction.
#[verifier::external_body]
fn decoded_far_branch_selector(code: &[u8], pos: usize, ip: u16) -> (r: u16)
    requires
        pos <= code.len(),
    ensures
        r == iced_far_branch_selector(code@, pos as int, ip),
{
    let i = iced_x86::Decoder::with_ip(16, &code[pos..], ip as u64, iced_x86::DecoderOptions::NONE).decode();
    i.far_branch_selector()
}

/// `Instruction::memory_segment` of the decoded instruction, by its `Debug` name.
#[verifier::external_body]
fn decoded_memory_segment(code: &[u8], pos: usize, ip: u16) -> (r: String)
    requires
        pos <= code.len(),
    ensures
        r@ == iced_memory_segment(code@, pos as int, ip),
{
    let i = iced_x86::Decoder::with_ip(16, &code[pos..], ip as u64, iced_x86::DecoderOptions::NONE).decode();
    format!("{:?}", i.memory_segment())
}

/// `Instruction::memory_base` of the decoded instruction, by its `Debug` name.
#[verifier::external_body]
fn decoded_memory_base(code: &[u8], pos: usize, ip: u16) -> (r: String)
    requires
        pos <= code.len(),
    ensures
        r@ == iced_memory_base(code@, pos as int, ip),
{
    let i = iced_x86::Decoder::with_ip(16, &code[pos..], ip as u64, iced_x86::DecoderOptions::NONE).decode();
    format!("{:?}", i.memory_base())
}

/// `Instruction::memory_index` of the decoded instruction, by its `Debug` name.
#[verifier::external_body]
fn decoded_memory_index(code: &[u8], pos: usize, ip: u16) -> (r: String)
    requires
        pos <= code.len(),
    ensures
        r@ == iced_memory_index(code@, pos as int, ip),
{
    let i = iced_x86::Decoder::with_ip(16, &code[pos..], ip as u64, iced_x86::DecoderOptions::NONE).decode();
    format!("{:?}", i.memory_index())
}

/// `Instruction::memory_index_scale` of the decoded instruction.
#[verifier::external_body]
fn decoded_memory_index_scale(code: &[u8], pos: usize, ip: u16) -> (r: u32)
    requires
        pos <= code.len(),
    ensures
        r == iced_memory_index_scale(code@, pos as int, ip),
{
    let i = iced_x86::Decoder::with_ip(16, &code[pos..], ip as u64, iced_x86::DecoderOptions::NONE).decode();
    i.memory_index_scale()
}

/// `Instruction::memory_displacement32` of the decoded instruction.
#[verifier::external_body]
fn decoded_memory_displacement32(code: &[u8], pos: usize, ip: u16) -> (r: u32)
    requires
        pos <= code.len(),
    ensures
        r == iced_memory_displacement32(code@, pos as int, ip),
{
    let i = iced_x86::Decoder::with_ip(16, &code[pos..], ip as u64, iced_x86::DecoderOptions::NONE).decode();
    i.memory_displacement32()
}

/// The decoded instruction as `Display` for `Instruction` writes it (iced's
/// MASM-syntax formatter).
#[verifier::external_body]
fn decoded_text(code: &[u8], pos: usize, ip: u16) -> (r: String)
    requires
        pos <= code.len(),
    ensures
        r@ == iced_text(code@, pos as int, ip),
{
    let i = iced_x86::Decoder::with_ip(16, &code[pos..], ip as u64, iced_x86::DecoderOptions::NONE).decode();
    i.to_string()
}

// ---------------------------------------------------------------------------
// The library's model of an instruction.

/// How control leaves an instruction (iced's `FlowControl`).
#[derive(Clone, Copy, Debug, PartialEq, Eq, Structural)]
pub enum Flow {
    Next,
    UnconditionalBranch,
    IndirectBranch,
    ConditionalBranch,
    Return,
    Call,
    IndirectCall,
    Interrupt,
    XbeginXabortXend,
    Exception,
}

/// What an operand is (iced's `OpKind`, with the kinds that no analysis
/// distinguishes folded into `Other`, which keeps iced's discriminant).
#[derive(Clone, Copy, Debug, PartialEq, Eq, Structural)]
pub enum OpKind {
    Register,
    NearBranch16,
    NearBranch32,
    FarBranch16,
    Immediate8,
    Immediate16,
    Immediate32,
    Immediate8to16,
    Immediate8to32,
    Memory,
    Other(u8),
}

pub open spec fn flow_of_code(c: u8) -> Flow {
    if c == 0 {
        Flow::Next
    } else if c == 1 {
        Flow::UnconditionalBranch
    } else if c == 2 {
        Flow::IndirectBranch
    } else if c == 3 {
        Flow::ConditionalBranch
    } else if c == 4 {
        Flow::Return
    } else if c == 5 {
        Flow::Call
    } else if c == 6 {
        Flow::IndirectCall
    } else if c == 7 {
        Flow::Interrupt
    } else if c == 8 {
        Flow::XbeginXabortXend
    } else {
        Flow::Exception
    }
}

pub open spec fn op_kind_of_code(c: u8) -> OpKind {
    if c == 0 {
        OpKind::Register
    } else if c == 1 {
        OpKind::NearBranch16
    } else if c == 2 {
        OpKind::NearBranch32
    } else if c == 4 {
        OpKind::FarBranch16
    } else if c == 6 {
        OpKind::Immediate8
    } else if c == 8 {
        OpKind::Immediate16
    } else if c == 9 {
        OpKind::Immediate32
    } else if c == 11 {
        OpKind::Immediate8to16
    } else if c == 12 {
        OpKind::Immediate8to32
    } else if c == 24 {
        OpKind::Memory
    } else {
        OpKind::Other(c)
    }
}

fn flow_from_code(c: u8) -> (r: Flow)
    ensures
        r == flow_of_code(c),
{
    if c == 0 {
        Flow::Next
    } else if c == 1 {
        Flow::UnconditionalBranch
    } else if c == 2 {
        Flow::IndirectBranch
    } else if c == 3 {
        Flow::ConditionalBranch
    } else if c == 4 {
        Flow::Return
    } else if c == 5 {
        Flow::Call
    } else if c == 6 {
        Flow::IndirectCall
    } else if c == 7 {
        Flow::Interrupt
    } else if c == 8 {
        Flow::XbeginXabortXend
    } else {
        Flow::Exception
    }
}

fn op_kind_from_code(c: u8) -> (r: OpKind)
    ensures
        r == op_kind_of_code(c),
{
    if c == 0 {
        OpKind::Register
    } else if c == 1 {
        OpKind::NearBranch16
    } else if c == 2 {
        OpKind::NearBranch32
    } else if c == 4 {
        OpKind::FarBranch16
    } else if c == 6 {
        OpKind::Immediate8
    } else if c == 8 {
        OpKind::Immediate16
    } else if c == 9 {
        OpKind::Immediate32
    } else if c == 11 {
        OpKind::Immediate8to16
    } else if c == 12 {
        OpKind::Immediate8to32
    } else if c == 24 {
        OpKind::Memory
    } else {
        OpKind::Other(c)
    }
}

/// One operand: its kind and, for a register operand, the register's name
/// (iced's `Debug` name, e.g. `AX`) and size in bytes.
#[derive(Clone, Debug)]
pub struct Operand {
    pub kind: OpKind,
    pub reg: String,
    pub reg_size: usize,
}

pub struct OperandV {
    pub kind: OpKind,
    pub reg: Seq<char>,
    pub reg_size: usize,
}

impl View for Operand {
    type V = OperandV;

    open spec fn view(&self) -> OperandV {
        OperandV { kind: self.kind, reg: self.reg@, reg_size: self.reg_size }
    }
}

/// A decoded instruction.
#[derive(Clone, Debug)]
pub struct Insn {
    /// 16-bit IP of the instruction.
    pub ip: u16,
    /// Length in bytes.
    pub len: usize,
    pub flow: Flow,
    /// The mnemonic's name, e.g. `Mov`.
    pub mnemonic: String,
    /// The operands, `op_count` of them.
    pub operands: Vec<Operand>,
    pub immediate8: u8,
    pub immediate8to16: i16,
    pub immediate8to32: i32,
    pub immediate16: u16,
    pub immediate32: u32,
    pub near_branch16: u16,
    pub near_branch32: u32,
    pub far_branch16: u16,
    pub far_branch_selector: u16,
    /// Segment, base and index register names of a memory operand (`None` when absent).
    pub memory_segment: String,
    pub memory_base: String,
    pub memory_index: String,
    pub memory_index_scale: u32,
    pub memory_displacement32: u32,
    /// The instruction in assembly syntax.
    pub text: String,
}

pub struct InsnV {
    pub ip: u16,
    pub len: usize,
    pub flow: Flow,
    pub mnemonic: Seq<char>,
    pub operands: Seq<OperandV>,
    pub immediate8: u8,
    pub immediate8to16: i16,
    pub immediate8to32: i32,
    pub immediate16: u16,
    pub immediate32: u32,
    pub near_branch16: u16,
    pub near_branch32: u32,
    pub far_branch16: u16,
    pub far_branch_selector: u16,
    pub memory_segment: Seq<char>,
    pub memory_base: Seq<char>,
    pub memory_index: Seq<char>,
    pub memory_index_scale: u32,
    pub memory_displacement32: u32,
    pub text: Seq<char>,
}

impl View for Insn {
    type V = InsnV;

    open spec fn view(&self) -> InsnV {
        InsnV {
            ip: self.ip,
            len: self.len,
            flow: self.flow,
            mnemonic: self.mnemonic@,
            operands: self.operands@.map_values(|o: Operand| o@),
            immediate8: self.immediate8,
            immediate8to16: self.immediate8to16,
            immediate8to32: self.immediate8to32,
            immediate16: self.immediate16,
            immediate32: self.immediate32,
            near_branch16: self.near_branch16,
            near_branch32: self.near_branch32,
            far_branch16: self.far_branch16,
            far_branch_selector: self.far_branch_selector,
            memory_segment: self.memory_segment@,
            memory_base: self.memory_base@,
            memory_index: self.memory_index@,
            memory_index_scale: self.memory_index_scale,
            memory_displacement32: self.memory_displacement32,
            text: self.text@,
        }
    }
}

/// The number of operands the model keeps: iced's `op_count`, of which there
/// are at most five.
pub open spec fn kept_op_count(code: Seq<u8>, pos: int, ip: u16) -> nat {
    let n = iced_op_count(code, pos, ip);
    if n <= 5 {
        n as nat
    } else {
        5
    }
}

pub open spec fn spec_operand(code: Seq<u8>, pos: int, ip: u16, n: u32) -> OperandV {
    OperandV {
        kind: op_kind_of_code(iced_op_kind_code(code, pos, ip, n)),
        reg: iced_op_register(code, pos, ip, n),
        reg_size: iced_op_register_size(code, pos, ip, n),
    }
}

/// The instruction that iced decodes at `code[pos..]` with instruction pointer `ip`.
pub open spec fn spec_decode(code: Seq<u8>, pos: int, ip: u16) -> InsnV {
    InsnV {
        ip: ip,
        len: iced_len(code, pos, ip),
        flow: flow_of_code(iced_flow_code(code, pos, ip)),
        mnemonic: iced_mnemonic(code, pos, ip),
        operands: Seq::new(
            kept_op_count(code, pos, ip),
            |n: int| spec_operand(code, pos, ip, n as u32),
        ),
        immediate8: iced_immediate8(code, pos, ip),
        immediate8to16: iced_immediate8to16(code, pos, ip),
        immediate8to32: iced_immediate8to32(code, pos, ip),
        immediate16: iced_immediate16(code, pos, ip),
        immediate32: iced_immediate32(code, pos, ip),
        near_branch16: iced_near_branch16(code, pos, ip),
        near_branch32: iced_near_branch32(code, pos, ip),
        far_branch16: iced_far_branch16(code, pos, ip),
        far_branch_selector: iced_far_branch_selector(code, pos, ip),
        memory_segment: iced_memory_segment(code, pos, ip),
        memory_base: iced_memory_base(code, pos, ip),
        memory_index: iced_memory_index(code, pos, ip),
        memory_index_scale: iced_memory_index_scale(code, pos, ip),
        memory_displacement32: iced_memory_displacement32(code, pos, ip),
        text: iced_text(code, pos, ip),
    }
}

/// Decodes the instruction at `code[pos..]` with instruction pointer `ip`; at
/// the end of the data this is iced's invalid instruction of length zero.
pub fn decode(code: &[u8], pos: usize, ip: u16) -> (r: Insn)
    requires
        pos <= code.len(),
    ensures
        r@ == spec_decode(code@, pos as int, ip),
        pos < code.len() ==> 1 <= r.len,
        r.len <= 15,
        pos + r.len <= code.len(),
{
    let count = decoded_op_count(code, pos, ip);
    let count: u32 = if count <= 5 {
        count
    } else {
        5
    };
    let mut operands: Vec<Operand> = Vec::new();
    let mut n: u32 = 0;
    while n < count
        invariant
            count <= 5,
            count == kept_op_count(code@, pos as int, ip),
            n <= count,
            pos <= code.len(),
            operands@.len() == n,
            forall|k: int|
                0 <= k < n ==> (#[trigger] operands@[k])@ == spec_operand(
                    code@,
                    pos as int,
                    ip,
                    k as u32,
                ),
        decreases count - n,
    {
        let kind = op_kind_from_code(decoded_op_kind_code(code, pos, ip, n));
        let reg = decoded_op_register(code, pos, ip, n);
        let reg_size = decoded_op_register_size(code, pos, ip, n);
        operands.push(Operand { kind, reg, reg_size });
        n += 1;
    }
    let r = Insn {
        ip,
        len: decoded_len(code, pos, ip),
        flow: flow_from_code(decoded_flow_code(code, pos, ip)),
        mnemonic: decoded_mnemonic(code, pos, ip),
        operands,
        immediate8: decoded_immediate8(code, pos, ip),
        immediate8to16: decoded_immediate8to16(code, pos, ip),
        immediate8to32: decoded_immediate8to32(code, pos, ip),
        immediate16: decoded_immediate16(code, pos, ip),
        immediate32: decoded_immediate32(code, pos, ip),
        near_branch16: decoded_near_branch16(code, pos, ip),
        near_branch32: decoded_near_branch32(code, pos, ip),
        far_branch16: decoded_far_branch16(code, pos, ip),
        far_branch_selector: decoded_far_branch_selector(code, pos, ip),
        memory_segment: decoded_memory_segment(code, pos, ip),
        memory_base: decoded_memory_base(code, pos, ip),
        memory_index: decoded_memory_index(code, pos, ip),
        memory_index_scale: decoded_memory_index_scale(code, pos, ip),
        memory_displacement32: decoded_memory_displacement32(code, pos, ip),
        text: decoded_text(code, pos, ip),
    };
    assert(r@.operands =~= spec_decode(code@, pos as int, ip).operands);
    r
}

impl Insn {
    /// The IP of the instruction that follows (`next_ip16`: IP plus length, wrapping).
    pub fn next_ip(&self) -> (r: u16)
        ensures
            r == (self.ip as int + self.len as int) % 65536,
    {
        ((self.ip as u64 + (self.len as u64 % 65536)) % 65536) as u16
    }
}

} // verus!
