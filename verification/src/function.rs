//! Functions of the database: their annotations and their basic blocks.
use vstd::prelude::*;

use crate::insn::{Insn, InsnV};
use crate::segofs::SegOfs;
use crate::xref::{opt_view, XRef, XRefV};

verus! {

/// A parameter or return value of a function.
#[derive(Clone, Debug)]
pub struct Var {
    /// An identifier name for the variable within the function.
    pub name: String,
    /// The storage: a register like `cx` or a stack slot like `[sp+4]`.
    pub value: String,
    /// The value's type as expressed in Rust, e.g. `u32` or `CStr`.
    pub typ: String,
    /// Human-readable description.
    pub desc: String,
}

pub struct VarV {
    pub name: Seq<char>,
    pub value: Seq<char>,
    pub typ: Seq<char>,
    pub desc: Seq<char>,
}

impl View for Var {
    type V = VarV;

    open spec fn view(&self) -> VarV {
        VarV { name: self.name@, value: self.value@, typ: self.typ@, desc: self.desc@ }
    }
}

/// Why the memory address that an instruction touches could not be worked out.
#[derive(Clone, Debug)]
pub enum MemRefError {
    /// The segment register's value is not known; holds the register's name.
    UnknownSegment(String),
    /// The address uses a base register (`[bx+...]`).
    BaseRegister,
    /// The address uses an index register (`[...+si*n]`).
    IndexRegister,
}

pub enum MemRefErrorV {
    UnknownSegment(Seq<char>),
    BaseRegister,
    IndexRegister,
}

impl View for MemRefError {
    type V = MemRefErrorV;

    open spec fn view(&self) -> MemRefErrorV {
        match self {
            MemRefError::UnknownSegment(s) => MemRefErrorV::UnknownSegment(s@),
            MemRefError::BaseRegister => MemRefErrorV::BaseRegister,
            MemRefError::IndexRegister => MemRefErrorV::IndexRegister,
        }
    }
}

pub open spec fn memref_view(m: Option<Result<SegOfs, MemRefError>>) -> Option<
    Result<SegOfs, MemRefErrorV>,
> {
    match m {
        None => None,
        Some(Ok(a)) => Some(Ok(a)),
        Some(Err(e)) => Some(Err(e@)),
    }
}

pub open spec fn opt_xref_view(x: Option<XRef>) -> Option<XRefV> {
    match x {
        Some(x) => Some(x@),
        None => None,
    }
}

/// One instruction of a block with its annotations.
#[derive(Clone, Debug)]
pub struct Instr {
    pub comment: Option<String>,
    pub label: Option<String>,
    pub jmp: Option<XRef>,
    /// The memory address the instruction touches, as far as evaluation found it.
    pub memory: Option<Result<SegOfs, MemRefError>>,
    pub iced: Insn,
}

pub struct InstrV {
    pub comment: Option<Seq<char>>,
    pub label: Option<Seq<char>>,
    pub jmp: Option<XRefV>,
    pub memory: Option<Result<SegOfs, MemRefErrorV>>,
    pub iced: InsnV,
}

impl View for Instr {
    type V = InstrV;

    open spec fn view(&self) -> InstrV {
        InstrV {
            comment: opt_view(self.comment),
            label: opt_view(self.label),
            jmp: opt_xref_view(self.jmp),
            memory: memref_view(self.memory),
            iced: self.iced@,
        }
    }
}

impl Instr {
    /// A bare instruction: no comment, label, jump target or memory address.
    pub fn bare(iced: Insn) -> (r: Instr)
        ensures
            r@ == (InstrV {
                comment: None,
                label: None,
                jmp: None,
                memory: None,
                iced: iced@,
            }),
    {
        Instr { comment: None, label: None, jmp: None, memory: None, iced }
    }
}

/// A basic block: consecutive instructions starting at `ip`.
#[derive(Clone, Debug)]
pub struct Block {
    pub ip: SegOfs,
    pub instrs: Vec<Instr>,
}

pub struct BlockV {
    pub ip: SegOfs,
    pub instrs: Seq<InstrV>,
}

impl View for Block {
    type V = BlockV;

    open spec fn view(&self) -> BlockV {
        BlockV { ip: self.ip, instrs: instr_views(self.instrs@) }
    }
}

/// The views of a sequence of instructions.
pub open spec fn instr_views(s: Seq<Instr>) -> Seq<InstrV> {
    s.map_values(|i: Instr| i@)
}

/// The views of a sequence of blocks.
pub open spec fn block_views(s: Seq<Block>) -> Seq<BlockV> {
    s.map_values(|b: Block| b@)
}

/// The address range a block covers: from its start up to (not including) its
/// last instruction.
pub open spec fn block_span(b: BlockV) -> (SegOfs, SegOfs) {
    (b.ip, SegOfs { seg: b.ip.seg, ofs: b.instrs.last().iced.ip })
}

/// `Range::contains` on the span, with addresses ordered as `(seg, ofs)`.
pub open spec fn block_contains(b: BlockV, ip: SegOfs) -> bool {
    let (lo, hi) = block_span(b);
    ip.seg == b.ip.seg && lo.ofs <= ip.ofs && ip.ofs < hi.ofs
}

impl Block {
    /// The span `[start, ip of last instruction)`.
    pub fn span(&self) -> (r: (SegOfs, SegOfs))
        requires
            self.instrs.len() > 0,
        ensures
            r == block_span(self@),
    {
        let last = self.instrs.len() - 1;
        (self.ip, self.ip.with_ofs(self.instrs[last].iced.ip))
    }

    /// Whether `ip` lies in the block's segment and span.
    pub fn contains_ip(&self, ip: SegOfs) -> (r: bool)
        requires
            self.instrs.len() > 0,
        ensures
            r == block_contains(self@, ip),
    {
        let (lo, hi) = self.span();
        ip.seg == self.ip.seg && lo.ofs <= ip.ofs && ip.ofs < hi.ofs
    }
}

/// A function of the database.
#[derive(Clone, Debug)]
pub struct Function {
    pub name: Option<String>,
    pub desc: Option<String>,
    pub details: Option<String>,
    /// Outside targets of the function's jumps and calls, sorted, each once.
    pub xrefs: Option<Vec<XRef>>,
    pub callers: Option<Vec<XRef>>,
    pub callees: Option<Vec<XRef>>,
    pub params: Option<Vec<Var>>,
    pub ret: Option<Var>,
    pub ip: SegOfs,
    pub blocks: Vec<Block>,
}

impl Function {
    /// A function at `ip` with no annotations and no blocks.
    pub fn new(ip: SegOfs) -> (r: Function)
        ensures
            r.ip == ip,
            r.name is None,
            r.desc is None,
            r.details is None,
            r.xrefs is None,
            r.callers is None,
            r.callees is None,
            r.params is None,
            r.ret is None,
            r.blocks@.len() == 0,
    {
        Function {
            name: None,
            desc: None,
            details: None,
            xrefs: None,
            callers: None,
            callees: None,
            params: None,
            ret: None,
            ip,
            blocks: Vec::new(),
        }
    }
}

} // verus!
