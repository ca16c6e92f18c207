//! A forward pass over a block that tracks known 16-bit register values and
//! works out the addresses of the memory that instructions touch.
use vstd::prelude::*;

use crate::db::DB;
use crate::function::{block_views, Block, BlockV, Function, InstrV, MemRefError, MemRefErrorV};
use crate::insn::{Insn, InsnV, OpKind};
use crate::ir::name_is;
use crate::segofs::{spec_key, SegOfs};

verus! {

/// Known register values: the value of the last entry for a register counts.
pub open spec fn reg_lookup(v: Seq<(Seq<char>, u16)>, k: Seq<char>) -> Option<u16>
    decreases v.len(),
{
    if v.len() == 0 {
        None
    } else if v.last().0 == k {
        Some(v.last().1)
    } else {
        reg_lookup(v.drop_last(), k)
    }
}

pub open spec fn regs_view(v: Seq<(String, u16)>) -> Seq<(Seq<char>, u16)> {
    v.map_values(|p: (String, u16)| (p.0@, p.1))
}

/// The known register values as a map from register name to value.
pub open spec fn regs_map(v: Seq<(Seq<char>, u16)>) -> Map<Seq<char>, u16> {
    Map::new(|k: Seq<char>| reg_lookup(v, k) is Some, |k: Seq<char>| reg_lookup(v, k)->0)
}

/// The evaluation state: the code segment and the known register values.
pub struct Eval {
    pub cs: u16,
    pub regs: Vec<(String, u16)>,
}

impl Eval {
    pub open spec fn regs_spec(&self) -> Map<Seq<char>, u16> {
        regs_map(regs_view(self.regs@))
    }
}

/// The value of register `reg` (by name): `cs` is the code segment.
pub open spec fn spec_get_reg(cs: u16, regs: Map<Seq<char>, u16>, reg: Seq<char>) -> Option<u16> {
    if reg == "CS"@ {
        Some(cs)
    } else if regs.contains_key(reg) {
        Some(regs[reg])
    } else {
        None
    }
}

/// The value of operand `op` when it is known: a register with a known value
/// or a 16-bit immediate.
pub open spec fn spec_eval_op(cs: u16, regs: Map<Seq<char>, u16>, i: InsnV, op: int) -> Option<u16> {
    let k = i.operands[op].kind;
    if k == OpKind::Register {
        spec_get_reg(cs, regs, i.operands[op].reg)
    } else if k == OpKind::Immediate16 {
        Some(i.immediate16)
    } else if k == OpKind::Immediate8to16 {
        Some(i.immediate8to16 as u16)
    } else {
        None
    }
}

/// What an instruction does to the known register values: a `mov` to a 16-bit
/// register records the moved value when it is known and forgets the register
/// otherwise; a `mov` to a register of another size, and every other
/// instruction, forgets everything.
pub open spec fn spec_eval_instr(cs: u16, regs: Map<Seq<char>, u16>, i: InsnV) -> Map<Seq<char>, u16> {
    if i.mnemonic == "Mov"@ {
        let val = spec_eval_op(cs, regs, i, 1);
        if i.operands[0].kind == OpKind::Register {
            let reg = i.operands[0].reg;
            if i.operands[0].reg_size != 2 {
                Map::empty()
            } else {
                match val {
                    Some(v) => regs.insert(reg, v),
                    None => regs.remove(reg),
                }
            }
        } else {
            regs
        }
    } else {
        Map::empty()
    }
}

/// The address of the memory an instruction touches, if it touches memory
/// through a memory operand (`lea` computes an address but touches none): the
/// segment register's known value with the displacement, unless the segment is
/// unknown or the address uses a base or index register.
pub open spec fn spec_gather_memory(cs: u16, regs: Map<Seq<char>, u16>, i: InsnV) -> Option<
    Result<SegOfs, MemRefErrorV>,
> {
    if i.mnemonic == "Lea"@ {
        None
    } else if exists|k: int| 0 <= k < i.operands.len() && (#[trigger] i.operands[k]).kind == OpKind::Memory {
        match spec_get_reg(cs, regs, i.memory_segment) {
            None => Some(Err(MemRefErrorV::UnknownSegment(i.memory_segment))),
            Some(seg) => if i.memory_base != "None"@ {
                Some(Err(MemRefErrorV::BaseRegister))
            } else if i.memory_index != "None"@ {
                Some(Err(MemRefErrorV::IndexRegister))
            } else {
                Some(Ok(SegOfs { seg, ofs: i.memory_displacement32 as u16 }))
            },
        }
    } else {
        None
    }
}

/// The instructions that evaluation handles: a `mov` has two operands.
pub open spec fn evaluable(i: InsnV) -> bool {
    i.mnemonic == "Mov"@ ==> i.operands.len() == 2
}

/// The known register values before instruction `k` of a block evaluated from
/// the start with code segment `cs`.
pub open spec fn regs_before(cs: u16, is: Seq<InstrV>, k: nat) -> Map<Seq<char>, u16>
    decreases k,
{
    if k == 0 {
        Map::empty()
    } else {
        spec_eval_instr(cs, regs_before(cs, is, (k - 1) as nat), is[k - 1].iced)
    }
}

/// The block after evaluation: each instruction whose memory address works out
/// records it; nothing else changes.
pub open spec fn evaluated_block(b: BlockV) -> BlockV {
    BlockV {
        ip: b.ip,
        instrs: Seq::new(
            b.instrs.len(),
            |k: int|
                match spec_gather_memory(b.ip.seg, regs_before(b.ip.seg, b.instrs, k as nat), b.instrs[k].iced) {
                    Some(Ok(a)) => InstrV { memory: Some(Ok(a)), ..b.instrs[k] },
                    _ => b.instrs[k],
                },
        ),
    }
}

proof fn lemma_reg_lookup_push(v: Seq<(Seq<char>, u16)>, k: Seq<char>, x: u16, q: Seq<char>)
    ensures
        reg_lookup(v.push((k, x)), q) == (if q == k { Some(x) } else { reg_lookup(v, q) }),
{
    assert(v.push((k, x)).drop_last() =~= v);
}

impl Eval {
    /// A fresh state for a block in code segment `cs`: no register known.
    pub fn new(cs: u16) -> (r: Eval)
        ensures
            r.cs == cs,
            r.regs_spec() == Map::<Seq<char>, u16>::empty(),
    {
        let r = Eval { cs, regs: Vec::new() };
        assert(r.regs_spec() =~= Map::<Seq<char>, u16>::empty());
        r
    }

    fn clear(&mut self)
        ensures
            final(self).cs == old(self).cs,
            final(self).regs_spec() == Map::<Seq<char>, u16>::empty(),
    {
        self.regs = Vec::new();
        assert(self.regs_spec() =~= Map::<Seq<char>, u16>::empty());
    }

    fn lookup(&self, reg: &String) -> (r: Option<u16>)
        ensures
            r == reg_lookup(regs_view(self.regs@), reg@),
    {
        let ghost rv = regs_view(self.regs@);
        let mut n = self.regs.len();
        assert(rv.take(n as int) =~= rv);
        while n > 0
            invariant
                n <= self.regs@.len(),
                rv == regs_view(self.regs@),
                reg_lookup(rv, reg@) == reg_lookup(rv.take(n as int), reg@),
            decreases n,
        {
            assert(rv.take(n as int).drop_last() =~= rv.take(n - 1));
            assert(rv.take(n as int).last() == rv[n - 1]);
            if self.regs[n - 1].0 == *reg {
                return Some(self.regs[n - 1].1);
            }
            n -= 1;
        }
        None
    }

    fn set_reg(&mut self, reg: &String, v: u16)
        ensures
            final(self).cs == old(self).cs,
            final(self).regs_spec() == old(self).regs_spec().insert(reg@, v),
    {
        let ghost rv = regs_view(self.regs@);
        self.regs.push((reg.clone(), v));
        proof {
            let nv = regs_view(self.regs@);
            assert(nv =~= rv.push((reg@, v)));
            assert forall|q: Seq<char>| #[trigger] regs_map(nv).contains_key(q) <==> regs_map(rv).insert(reg@, v).contains_key(q) by {
                lemma_reg_lookup_push(rv, reg@, v, q);
            }
            assert forall|q: Seq<char>| #[trigger] regs_map(nv).contains_key(q) implies regs_map(nv)[q] == regs_map(rv).insert(reg@, v)[q] by {
                lemma_reg_lookup_push(rv, reg@, v, q);
            }
            assert(regs_map(nv) =~= regs_map(rv).insert(reg@, v));
        }
    }

    fn forget_reg(&mut self, reg: &String)
        ensures
            final(self).cs == old(self).cs,
            final(self).regs_spec() == old(self).regs_spec().remove(reg@),
    {
        let ghost rv = regs_view(self.regs@);
        let mut kept: Vec<(String, u16)> = Vec::new();
        let mut i: usize = 0;
        while i < self.regs.len()
            invariant
                i <= self.regs@.len(),
                rv == regs_view(self.regs@),
                forall|q: Seq<char>| #[trigger] reg_lookup(regs_view(kept@), q) == (if q == reg@ {
                    None
                } else {
                    reg_lookup(rv.take(i as int), q)
                }),
            decreases self.regs@.len() - i,
        {
            let ghost kv = regs_view(kept@);
            assert(rv.take(i + 1) =~= rv.take(i as int).push(rv[i as int]));
            if self.regs[i].0 != *reg {
                kept.push((self.regs[i].0.clone(), self.regs[i].1));
                assert(regs_view(kept@) =~= kv.push(rv[i as int]));
                assert forall|q: Seq<char>| #[trigger] reg_lookup(regs_view(kept@), q) == (if q == reg@ {
                    None
                } else {
                    reg_lookup(rv.take(i + 1), q)
                }) by {
                    lemma_reg_lookup_push(kv, rv[i as int].0, rv[i as int].1, q);
                    lemma_reg_lookup_push(rv.take(i as int), rv[i as int].0, rv[i as int].1, q);
                }
            } else {
                assert forall|q: Seq<char>| #[trigger] reg_lookup(regs_view(kept@), q) == (if q == reg@ {
                    None
                } else {
                    reg_lookup(rv.take(i + 1), q)
                }) by {
                    lemma_reg_lookup_push(rv.take(i as int), rv[i as int].0, rv[i as int].1, q);
                }
            }
            i += 1;
        }
        assert(rv.take(self.regs@.len() as int) =~= rv);
        self.regs = kept;
        proof {
            let nv = regs_view(self.regs@);
            assert forall|q: Seq<char>| #[trigger] regs_map(nv).contains_key(q) <==> regs_map(rv).remove(reg@).contains_key(q) by {
                assert(reg_lookup(nv, q) == (if q == reg@ { None } else { reg_lookup(rv, q) }));
            }
            assert forall|q: Seq<char>| #[trigger] regs_map(nv).contains_key(q) implies regs_map(nv)[q] == regs_map(rv).remove(reg@)[q] by {
                assert(reg_lookup(nv, q) == (if q == reg@ { None } else { reg_lookup(rv, q) }));
            }
            assert(regs_map(nv) =~= regs_map(rv).remove(reg@));
        }
    }

    /// The value of register `reg` (by name), if known.
    pub fn get_reg(&self, reg: &String) -> (r: Option<u16>)
        ensures
            r == spec_get_reg(self.cs, self.regs_spec(), reg@),
    {
        if name_is(reg, "CS") {
            return Some(self.cs);
        }
        self.lookup(reg)
    }

    /// The value of operand `op` of `instr`, if known.
    pub fn eval_op(&self, instr: &Insn, op: usize) -> (r: Option<u16>)
        requires
            op < instr.operands@.len(),
        ensures
            r == spec_eval_op(self.cs, self.regs_spec(), instr@, op as int),
    {
        assert(instr@.operands[op as int] == instr.operands@[op as int]@);
        match instr.operands[op].kind {
            OpKind::Register => self.get_reg(&instr.operands[op].reg),
            OpKind::Immediate16 => Some(instr.immediate16),
            OpKind::Immediate8to16 => Some(instr.immediate8to16 as u16),
            _ => None,
        }
    }

    /// Updates the known register values by the effect of `instr`.
    pub fn eval_instr(&mut self, instr: &Insn)
        requires
            evaluable(instr@),
        ensures
            final(self).cs == old(self).cs,
            final(self).regs_spec() == spec_eval_instr(old(self).cs, old(self).regs_spec(), instr@),
    {
        if name_is(&instr.mnemonic, "Mov") {
            let val = self.eval_op(instr, 1);
            assert(instr@.operands[0] == instr.operands@[0]@);
            match instr.operands[0].kind {
                OpKind::Register => {
                    let reg = &instr.operands[0].reg;
                    if instr.operands[0].reg_size != 2 {
                        self.clear();
                        return;
                    }
                    match val {
                        Some(v) => self.set_reg(reg, v),
                        None => self.forget_reg(reg),
                    }
                },
                _ => {},
            }
        } else {
            self.clear();
        }
    }

    /// The address of the memory `instr` touches, if it touches memory.
    pub fn gather_memory(&self, instr: &Insn) -> (r: Option<Result<SegOfs, MemRefError>>)
        ensures
            crate::function::memref_view(r) == spec_gather_memory(self.cs, self.regs_spec(), instr@),
    {
        if name_is(&instr.mnemonic, "Lea") {
            return None;
        }
        let mut op: usize = 0;
        while op < instr.operands.len()
            invariant
                instr@.mnemonic != "Lea"@,
                op <= instr.operands@.len(),
                forall|k: int| 0 <= k < op ==> (#[trigger] instr@.operands[k]).kind != OpKind::Memory,
            decreases instr.operands@.len() - op,
        {
            assert(instr@.operands[op as int] == instr.operands@[op as int]@);
            match instr.operands[op].kind {
                OpKind::Memory => {
                    let seg = match self.get_reg(&instr.memory_segment) {
                        Some(seg) => seg,
                        None => {
                            return Some(Err(MemRefError::UnknownSegment(instr.memory_segment.clone())));
                        },
                    };
                    if !name_is(&instr.memory_base, "None") {
                        return Some(Err(MemRefError::BaseRegister));
                    }
                    if !name_is(&instr.memory_index, "None") {
                        return Some(Err(MemRefError::IndexRegister));
                    }
                    let disp = instr.memory_displacement32 as u16;
                    return Some(Ok(SegOfs::new(seg, disp)));
                },
                _ => {},
            }
            op += 1;
        }
        None
    }
}

/// Evaluates a block from its start: tracks register values and records the
/// memory address each instruction touches where it works out.
pub fn eval_block(block: &mut Block)
    requires
        forall|k: int| 0 <= k < old(block).instrs@.len() ==> evaluable((#[trigger] old(block).instrs@[k]).iced@),
    ensures
        final(block)@ == evaluated_block(old(block)@),
{
    let ghost b0 = block@;
    let mut eval = Eval::new(block.ip.seg);
    let n = block.instrs.len();
    let mut k: usize = 0;
    while k < n
        invariant
            n == block.instrs@.len(),
            b0 == old(block)@,
            n == b0.instrs.len(),
            block.ip == b0.ip,
            eval.cs == b0.ip.seg,
            k <= n,
            eval.regs_spec() == regs_before(b0.ip.seg, b0.instrs, k as nat),
            forall|m: int| 0 <= m < n ==> evaluable(#[trigger] b0.instrs[m].iced),
            forall|m: int| 0 <= m < k ==> (#[trigger] block.instrs@[m])@ == evaluated_block(b0).instrs[m],
            forall|m: int| k <= m < n ==> (#[trigger] block.instrs@[m])@ == b0.instrs[m],
        decreases n - k,
    {
        assert(block.instrs@[k as int]@ == b0.instrs[k as int]);
        let mem = eval.gather_memory(&block.instrs[k].iced);
        match mem {
            Some(Ok(a)) => {
                block.instrs[k].memory = Some(Ok(a));
            },
            _ => {},
        }
        assert(block.instrs@[k as int].iced@ == b0.instrs[k as int].iced);
        assert(evaluable(b0.instrs[k as int].iced));
        eval.eval_instr(&block.instrs[k].iced);
        assert(eval.regs_spec() == regs_before(b0.ip.seg, b0.instrs, (k + 1) as nat));
        assert(block.instrs@[k as int]@ == evaluated_block(b0).instrs[k as int]);
        k += 1;
    }
    assert(block@.instrs =~= evaluated_block(b0).instrs);
}

/// Every instruction of every block of `f` is one evaluation handles.
pub open spec fn fn_evaluable(f: Function) -> bool {
    forall|j: int, k: int|
        0 <= j < f.blocks@.len() && 0 <= k < f.blocks@[j].instrs@.len() ==> evaluable(
            #[trigger] f.blocks@[j].instrs@[k].iced@,
        )
}

/// `f1` is `f0` with each block evaluated.
pub open spec fn fn_evaluated(f0: Function, f1: Function) -> bool {
    &&& f1.name == f0.name
    &&& f1.desc == f0.desc
    &&& f1.details == f0.details
    &&& f1.xrefs == f0.xrefs
    &&& f1.callers == f0.callers
    &&& f1.callees == f0.callees
    &&& f1.params == f0.params
    &&& f1.ret == f0.ret
    &&& f1.ip == f0.ip
    &&& block_views(f1.blocks@) == block_views(f0.blocks@).map_values(|b: BlockV| evaluated_block(b))
}

/// Evaluates every block of `f`.
pub fn eval_function(f: &mut Function)
    requires
        fn_evaluable(*old(f)),
    ensures
        fn_evaluated(*old(f), *final(f)),
{
    let ghost f0 = *f;
    let n = f.blocks.len();
    let mut j: usize = 0;
    while j < n
        invariant
            f0 == *old(f),
            fn_evaluable(f0),
            n == f0.blocks@.len(),
            n == f.blocks@.len(),
            j <= n,
            f.name == f0.name,
            f.desc == f0.desc,
            f.details == f0.details,
            f.xrefs == f0.xrefs,
            f.callers == f0.callers,
            f.callees == f0.callees,
            f.params == f0.params,
            f.ret == f0.ret,
            f.ip == f0.ip,
            forall|m: int| 0 <= m < j ==> (#[trigger] f.blocks@[m])@ == evaluated_block(f0.blocks@[m]@),
            forall|m: int| j <= m < n ==> #[trigger] f.blocks@[m] == f0.blocks@[m],
        decreases n - j,
    {
        assert forall|k: int| 0 <= k < f.blocks@[j as int].instrs@.len() implies evaluable(
            (#[trigger] f.blocks@[j as int].instrs@[k]).iced@,
        ) by {
            assert(evaluable(f0.blocks@[j as int].instrs@[k].iced@));
        }
        eval_block(&mut f.blocks[j]);
        j += 1;
    }
    assert(block_views(f.blocks@) =~= block_views(f0.blocks@).map_values(|b: BlockV| evaluated_block(b)));
}

/// Evaluates every block of every function of the database.
pub fn eval_all(db: &mut DB)
    requires
        forall|i: int| 0 <= i < old(db).functions@.len() ==> fn_evaluable(#[trigger] old(db).functions@[i]),
    ensures
        final(db).functions@.len() == old(db).functions@.len(),
        old(db).wf() ==> final(db).wf(),
        forall|i: int|
            0 <= i < old(db).functions@.len() ==> fn_evaluated(
                #[trigger] old(db).functions@[i],
                final(db).functions@[i],
            ),
        final(db).mem == old(db).mem,
        final(db).exe == old(db).exe,
        final(db).memory == old(db).memory,
{
    let ghost fs0 = db.functions@;
    let n = db.functions.len();
    let mut i: usize = 0;
    while i < n
        invariant
            fs0 == old(db).functions@,
            n == fs0.len(),
            n == db.functions@.len(),
            i <= n,
            forall|k: int| 0 <= k < n ==> fn_evaluable(#[trigger] fs0[k]),
            forall|k: int| 0 <= k < i ==> fn_evaluated(#[trigger] fs0[k], db.functions@[k]),
            forall|k: int| i <= k < n ==> #[trigger] db.functions@[k] == fs0[k],
            db.mem == old(db).mem,
            db.exe == old(db).exe,
            db.memory == old(db).memory,
        decreases n - i,
    {
        assert(fn_evaluable(fs0[i as int]));
        eval_function(&mut db.functions[i]);
        i += 1;
    }
    proof {
        if old(db).wf() {
            assert forall|x: int, y: int| 0 <= x < y < n implies spec_key(db.functions@[x].ip) < spec_key(
                db.functions@[y].ip,
            ) by {
                assert(fn_evaluated(fs0[x], db.functions@[x]));
                assert(fn_evaluated(fs0[y], db.functions@[y]));
            }
        }
    }
}

/// Whether every instruction of `f` is one evaluation handles (a `mov` has
/// two operands).
pub fn check_evaluable(f: &Function) -> (r: bool)
    ensures
        r == fn_evaluable(*f),
{
    let mut j: usize = 0;
    while j < f.blocks.len()
        invariant
            j <= f.blocks@.len(),
            forall|x: int, k: int|
                0 <= x < j && 0 <= k < f.blocks@[x].instrs@.len() ==> evaluable(
                    #[trigger] f.blocks@[x].instrs@[k].iced@,
                ),
        decreases f.blocks@.len() - j,
    {
        let b = &f.blocks[j];
        let mut k: usize = 0;
        while k < b.instrs.len()
            invariant
                j < f.blocks@.len(),
                *b == f.blocks@[j as int],
                k <= b.instrs@.len(),
                forall|x: int, m: int|
                    0 <= x < j && 0 <= m < f.blocks@[x].instrs@.len() ==> evaluable(
                        #[trigger] f.blocks@[x].instrs@[m].iced@,
                    ),
                forall|m: int| 0 <= m < k ==> evaluable(#[trigger] b.instrs@[m].iced@),
            decreases b.instrs@.len() - k,
        {
            let ins = &b.instrs[k].iced;
            if name_is(&ins.mnemonic, "Mov") && ins.operands.len() != 2 {
                assert(ins@.operands.len() == ins.operands@.len());
                assert(!evaluable(f.blocks@[j as int].instrs@[k as int].iced@));
                return false;
            }
            k += 1;
        }
        j += 1;
    }
    true
}


/// A `mov` into a 16-bit register whose source value is not known (a memory
/// operand, or a register other than `CS` with no known value) leaves that
/// register with no known value; one whose source is known (an immediate, `CS`,
/// or a register with a known value) makes it hold exactly that value. Either
/// way every other register keeps what was known of it.
pub proof fn lemma_mov_to_register(cs: u16, regs: Map<Seq<char>, u16>, i: InsnV, other: Seq<char>)
    requires
        i.mnemonic == "Mov"@,
        i.operands.len() == 2,
        i.operands[0].kind == OpKind::Register,
        i.operands[0].reg_size == 2,
    ensures
        (i.operands[1].kind == OpKind::Memory || (i.operands[1].kind == OpKind::Register
            && i.operands[1].reg != "CS"@ && !regs.contains_key(i.operands[1].reg))) ==> !spec_eval_instr(
            cs,
            regs,
            i,
        ).contains_key(i.operands[0].reg),
        i.operands[1].kind == OpKind::Immediate16 ==> spec_eval_instr(cs, regs, i).contains_key(
            i.operands[0].reg,
        ) && spec_eval_instr(cs, regs, i)[i.operands[0].reg] == i.immediate16,
        i.operands[1].kind == OpKind::Immediate8to16 ==> spec_eval_instr(cs, regs, i).contains_key(
            i.operands[0].reg,
        ) && spec_eval_instr(cs, regs, i)[i.operands[0].reg] == i.immediate8to16 as u16,
        i.operands[1].kind == OpKind::Register && i.operands[1].reg == "CS"@ ==> spec_eval_instr(
            cs,
            regs,
            i,
        ).contains_key(i.operands[0].reg) && spec_eval_instr(cs, regs, i)[i.operands[0].reg] == cs,
        i.operands[1].kind == OpKind::Register && i.operands[1].reg != "CS"@ && regs.contains_key(
            i.operands[1].reg,
        ) ==> spec_eval_instr(cs, regs, i).contains_key(i.operands[0].reg) && spec_eval_instr(
            cs,
            regs,
            i,
        )[i.operands[0].reg] == regs[i.operands[1].reg],
        other != i.operands[0].reg ==> (spec_eval_instr(cs, regs, i).contains_key(other)
            <==> regs.contains_key(other)),
        other != i.operands[0].reg && regs.contains_key(other) ==> spec_eval_instr(cs, regs, i)[other]
            == regs[other],
{
    reveal_strlit("CS");
}

/// Every instruction other than a `mov` forgets all register values, and so
/// does a `mov` into a register that is not 16 bits wide; a `mov` into memory
/// changes nothing known.
pub proof fn lemma_other_instructions_forget(cs: u16, regs: Map<Seq<char>, u16>, i: InsnV)
    ensures
        i.mnemonic != "Mov"@ ==> spec_eval_instr(cs, regs, i) == Map::<Seq<char>, u16>::empty(),
        i.mnemonic == "Mov"@ && i.operands[0].kind == OpKind::Register && i.operands[0].reg_size != 2
            ==> spec_eval_instr(cs, regs, i) == Map::<Seq<char>, u16>::empty(),
        i.mnemonic == "Mov"@ && i.operands[0].kind != OpKind::Register ==> spec_eval_instr(cs, regs, i)
            == regs,
{
}

} // verus!
