//! Disassembly: following the control flow of a function from its entry point
//! and cutting its code into basic blocks.
use vstd::prelude::*;

use crate::db::{fn_map, lemma_fn_map_at, lemma_fn_map_update, DB};
use crate::function::{block_contains, block_views, instr_views, Block, BlockV, Function, Instr, InstrV};
use crate::insn::{decode, spec_decode, Flow, Insn, InsnV, OpKind};
use crate::segofs::{spec_abs, spec_key, SegOfs};
use vstd::arithmetic::power2::{lemma_pow2_strictly_increases, lemma_pow2_unfold, pow2};

verus! {

/// Why disassembly stopped where the tool gives up.
#[derive(Clone, Copy, Debug, PartialEq, Eq, Structural)]
pub enum DisError {
    /// A block starts past the end of memory.
    OutOfMemory(SegOfs),
    /// An instruction whose control flow is not handled (transactional or exception).
    UnsupportedFlow(SegOfs),
    /// A branch that does not have exactly one operand.
    BadOperandCount(SegOfs),
    /// A branch whose operand is of a kind that is not handled.
    UnsupportedBranch(SegOfs),
    /// A block without instructions would have to be split.
    EmptyBlock(SegOfs),
}

// ---------------------------------------------------------------------------
// The straight-line decoding run from an address.

/// Offset within a segment after moving `p` bytes from `start` (16-bit wrap).
pub open spec fn ofs_at(start: SegOfs, p: int) -> u16 {
    ((start.ofs as int + p) % 65536) as u16
}

/// Byte offset, from `start`, of the `k`-th instruction decoded one after the
/// other from `start`.
pub open spec fn run_off(mem: Seq<u8>, start: SegOfs, k: nat) -> int
    decreases k,
{
    if k == 0 {
        0
    } else {
        let p = run_off(mem, start, (k - 1) as nat);
        p + spec_decode(mem, spec_abs(start) + p, ofs_at(start, p)).len
    }
}

/// The `k`-th instruction decoded from `start`.
pub open spec fn run_insn(mem: Seq<u8>, start: SegOfs, k: nat) -> InsnV {
    let p = run_off(mem, start, k);
    spec_decode(mem, spec_abs(start) + p, ofs_at(start, p))
}

/// The address of the `k`-th instruction decoded from `start`.
pub open spec fn run_addr(mem: Seq<u8>, start: SegOfs, k: nat) -> SegOfs {
    SegOfs { seg: start.seg, ofs: ofs_at(start, run_off(mem, start, k)) }
}

/// Whether the `k`-th instruction starts inside memory.
pub open spec fn run_in_mem(mem: Seq<u8>, start: SegOfs, k: nat) -> bool {
    spec_abs(start) + run_off(mem, start, k) < mem.len()
}

/// Instructions after which decoding goes on to the next instruction.
pub open spec fn falls_through(f: Flow) -> bool {
    f == Flow::Next || f == Flow::Call || f == Flow::IndirectCall || f == Flow::Interrupt
}

/// Instructions that end a block: jumps and returns.
pub open spec fn ends_block(f: Flow) -> bool {
    f == Flow::UnconditionalBranch || f == Flow::IndirectBranch || f == Flow::ConditionalBranch
        || f == Flow::Return
}

/// Instructions whose flow the tool does not handle.
pub open spec fn unsupported_flow(f: Flow) -> bool {
    f == Flow::XbeginXabortXend || f == Flow::Exception
}

/// A jump whose single operand is of a handled kind.
pub open spec fn branch_operand_ok(i: InsnV) -> bool {
    i.operands.len() == 1 && {
        let k = i.operands[0].kind;
        k == OpKind::NearBranch16 || k == OpKind::FarBranch16 || k == OpKind::Memory || k
            == OpKind::Register
    }
}

/// The 16-bit IP after the instruction.
pub open spec fn next_ip(i: InsnV) -> u16 {
    ((i.ip as int + i.len as int) % 65536) as u16
}

/// The direct target of a jump at block `b`: near (in the block's segment) or
/// far; none for a jump through memory or a register.
pub open spec fn direct_target(b: SegOfs, i: InsnV) -> Seq<SegOfs> {
    if i.operands[0].kind == OpKind::NearBranch16 {
        seq![SegOfs { seg: b.seg, ofs: i.near_branch16 }]
    } else if i.operands[0].kind == OpKind::FarBranch16 {
        seq![SegOfs { seg: i.far_branch_selector, ofs: i.far_branch16 }]
    } else {
        Seq::empty()
    }
}

/// Where a jump at block `b` can go: its direct target, and for a conditional
/// jump also the next instruction. A return names no target.
pub open spec fn branch_targets(b: SegOfs, i: InsnV) -> Seq<SegOfs> {
    if i.flow == Flow::Return {
        Seq::empty()
    } else if i.flow == Flow::ConditionalBranch {
        direct_target(b, i).push(SegOfs { seg: b.seg, ofs: next_ip(i) })
    } else {
        direct_target(b, i)
    }
}

/// Whether some block starts at `a`.
pub open spec fn is_start(blocks: Seq<BlockV>, a: SegOfs) -> bool {
    exists|j: int| 0 <= j < blocks.len() && (#[trigger] blocks[j]).ip == a
}

/// The first `k` instructions of the run from `start` lie in memory, go on to
/// the next instruction, and do not start an existing block.
pub open spec fn run_prefix_ok(mem: Seq<u8>, start: SegOfs, blocks: Seq<BlockV>, k: nat) -> bool {
    forall|j: nat|
        j < k ==> {
            &&& run_in_mem(mem, start, j)
            &&& falls_through((#[trigger] run_insn(mem, start, j)).flow)
            &&& !is_start(blocks, run_addr(mem, start, j))
        }
}

/// The `k`-th instruction of the run is reached (in memory, not an existing block).
pub open spec fn run_reaches(mem: Seq<u8>, start: SegOfs, blocks: Seq<BlockV>, k: nat) -> bool {
    &&& run_prefix_ok(mem, start, blocks, k)
    &&& run_in_mem(mem, start, k)
    &&& !is_start(blocks, run_addr(mem, start, k))
}

/// The instructions of `instrs` are the run from `start`, unannotated.
pub open spec fn is_run(mem: Seq<u8>, start: SegOfs, instrs: Seq<InstrV>) -> bool {
    forall|k: int|
        0 <= k < instrs.len() ==> {
            &&& (#[trigger] instrs[k]).iced == run_insn(mem, start, k as nat)
            &&& instrs[k].comment is None
            &&& instrs[k].label is None
            &&& instrs[k].jmp is None
            &&& instrs[k].memory is None
        }
}

/// The block that decoding from `start` produces, given the blocks that exist:
/// the run of instructions up to and including the first jump or return, or up
/// to (not including) the first instruction that starts an existing block, or
/// up to the end of memory.
pub open spec fn is_gathered_block(mem: Seq<u8>, start: SegOfs, blocks: Seq<BlockV>, b: BlockV) -> bool {
    let n = b.instrs.len();
    &&& b.ip == start
    &&& is_run(mem, start, b.instrs)
    &&& (n == 0 <==> !run_in_mem(mem, start, 0))
    &&& forall|k: nat|
        k < n ==> run_in_mem(mem, start, k) && !is_start(blocks, #[trigger] run_addr(mem, start, k))
    &&& forall|k: nat| k + 1 < n ==> falls_through(#[trigger] run_insn(mem, start, k).flow)
    &&& n > 0 ==> {
        let last = run_insn(mem, start, (n - 1) as nat);
        ||| ends_block(last.flow) && (last.flow == Flow::Return || branch_operand_ok(last))
        ||| falls_through(last.flow) && (!run_in_mem(mem, start, n as nat) || is_start(
            blocks,
            run_addr(mem, start, n as nat),
        ))
    }
}

/// What decoding from `start` adds to the work list: the targets of the jump
/// that ends the block, if it ends in one.
pub open spec fn gathered_targets(start: SegOfs, b: BlockV) -> Seq<SegOfs> {
    let last = b.instrs.last().iced;
    if b.instrs.len() > 0 && ends_block(last.flow) {
        branch_targets(start, last)
    } else {
        Seq::empty()
    }
}

/// Whether a block starts at `a` (a scan of the blocks).
pub fn has_block(blocks: &Vec<Block>, a: SegOfs) -> (r: bool)
    ensures
        r == is_start(block_views(blocks@), a),
{
    let ghost bv = block_views(blocks@);
    let mut j: usize = 0;
    while j < blocks.len()
        invariant
            j <= blocks.len(),
            bv == block_views(blocks@),
            forall|i: int| 0 <= i < j ==> bv[i].ip != a,
        decreases blocks.len() - j,
    {
        if blocks[j].ip == a {
            assert(bv[j as int].ip == a);
            return true;
        }
        j += 1;
    }
    false
}

/// Adds the direct target of the jump `instr` at block `ip` to the work list.
fn control_flow(ip: SegOfs, instr: &Insn, queue: &mut Vec<SegOfs>) -> (r: Result<(), DisError>)
    ensures
        r is Ok <==> branch_operand_ok(instr@),
        r is Ok ==> final(queue)@ == old(queue)@ + direct_target(ip, instr@),
        r matches Err(e) ==> final(queue)@ == old(queue)@ && e == (if instr.operands@.len() != 1 {
            DisError::BadOperandCount(SegOfs { seg: ip.seg, ofs: instr.ip })
        } else {
            DisError::UnsupportedBranch(SegOfs { seg: ip.seg, ofs: instr.ip })
        }),
{
    if instr.operands.len() != 1 {
        return Err(DisError::BadOperandCount(ip.with_ofs(instr.ip)));
    }
    match instr.operands[0].kind {
        OpKind::NearBranch16 => {
            queue.push(ip.with_ofs(instr.near_branch16));
        },
        OpKind::FarBranch16 => {
            queue.push(SegOfs::new(instr.far_branch_selector, instr.far_branch16));
        },
        OpKind::Memory => {},
        OpKind::Register => {},
        _ => {
            return Err(DisError::UnsupportedBranch(ip.with_ofs(instr.ip)));
        },
    }
    assert(queue@ =~= old(queue)@ + direct_target(ip, instr@));
    Ok(())
}

/// Why decoding a block from `start` fails: the start lies past the end of
/// memory, or the run reaches an instruction whose flow is not handled or a
/// jump whose operand is not handled.
pub open spec fn block_failure(mem: Seq<u8>, start: SegOfs, blocks: Seq<BlockV>, e: DisError) -> bool {
    match e {
        DisError::OutOfMemory(a) => a == start && spec_abs(start) > mem.len(),
        DisError::UnsupportedFlow(a) => spec_abs(start) <= mem.len() && exists|k: nat|
            run_reaches(mem, start, blocks, k) && unsupported_flow(
                (#[trigger] run_insn(mem, start, k)).flow,
            ) && a == run_addr(mem, start, k),
        DisError::BadOperandCount(a) => spec_abs(start) <= mem.len() && exists|k: nat|
            run_reaches(mem, start, blocks, k) && {
                let i = #[trigger] run_insn(mem, start, k);
                ends_block(i.flow) && i.flow != Flow::Return && i.operands.len() != 1
            } && a == run_addr(mem, start, k),
        DisError::UnsupportedBranch(a) => spec_abs(start) <= mem.len() && exists|k: nat|
            run_reaches(mem, start, blocks, k) && {
                let i = #[trigger] run_insn(mem, start, k);
                ends_block(i.flow) && i.flow != Flow::Return && i.operands.len() == 1
                    && !branch_operand_ok(i)
            } && a == run_addr(mem, start, k),
        _ => false,
    }
}

proof fn lemma_is_run_push(mem: Seq<u8>, start: SegOfs, old: Seq<Instr>, new: Instr)
    requires
        is_run(mem, start, instr_views(old)),
        new@.iced == run_insn(mem, start, old.len()),
        new@.comment is None,
        new@.label is None,
        new@.jmp is None,
        new@.memory is None,
    ensures
        is_run(mem, start, instr_views(old.push(new))),
{
    let s = instr_views(old.push(new));
    assert forall|k: int| 0 <= k < s.len() implies {
        &&& (#[trigger] s[k]).iced == run_insn(mem, start, k as nat)
        &&& s[k].comment is None
        &&& s[k].label is None
        &&& s[k].jmp is None
        &&& s[k].memory is None
    } by {
        if k < old.len() {
            assert(s[k] == instr_views(old)[k]);
        }
    }
}

proof fn lemma_ofs_step(start: SegOfs, p: int, ip: u16, len: usize)
    requires
        p >= 0,
        ip == ofs_at(start, p),
    ensures
        ((ip as int + len as int) % 65536) as u16 == ofs_at(start, p + len),
{
    let a = start.ofs as int + p;
    assert((a % 65536 + len as int) % 65536 == (a + len as int) % 65536) by {
        vstd::arithmetic::div_mod::lemma_add_mod_noop(a, len as int, 65536);
        vstd::arithmetic::div_mod::lemma_mod_twice(len as int, 65536);
        vstd::arithmetic::div_mod::lemma_add_mod_noop(a % 65536, len as int, 65536);
        vstd::arithmetic::div_mod::lemma_mod_twice(a, 65536);
    }
}

/// Decodes the block that starts at `block_ip`: instruction after instruction
/// until a jump or return (whose targets go on the work list), an instruction
/// that starts one of `blocks`, or the end of memory.
pub fn gather_block(mem: &[u8], block_ip: SegOfs, blocks: &Vec<Block>, queue: &mut Vec<SegOfs>) -> (r:
    Result<Block, DisError>)
    requires
        !is_start(block_views(blocks@), block_ip),
    ensures
        r matches Ok(b) ==> is_gathered_block(mem@, block_ip, block_views(blocks@), b@)
            && final(queue)@ == old(queue)@ + gathered_targets(block_ip, b@),
        r is Ok ==> spec_abs(block_ip) <= mem@.len(),
        r matches Err(e) ==> block_failure(mem@, block_ip, block_views(blocks@), e),
{
    let ghost bv = block_views(blocks@);
    let abs = block_ip.abs() as usize;
    if abs > mem.len() {
        return Err(DisError::OutOfMemory(block_ip));
    }
    let mut instrs: Vec<Instr> = Vec::new();
    let mut pos = abs;
    let mut ip = block_ip.ofs;
    proof {
        assert(run_off(mem@, block_ip, 0) == 0);
        assert(block_ip.ofs == ofs_at(block_ip, 0)) by {
            vstd::arithmetic::div_mod::lemma_small_mod(block_ip.ofs as nat, 65536);
        }
    }
    while pos < mem.len()
        invariant_except_break
            bv == block_views(blocks@),
            !is_start(bv, block_ip),
            abs == spec_abs(block_ip),
            abs <= pos <= mem.len(),
            pos == abs + run_off(mem@, block_ip, instrs@.len()),
            ip == ofs_at(block_ip, run_off(mem@, block_ip, instrs@.len())),
            run_prefix_ok(mem@, block_ip, bv, instrs@.len()),
            is_run(mem@, block_ip, instr_views(instrs@)),
            queue@ == old(queue)@,
        ensures
            is_run(mem@, block_ip, instr_views(instrs@)),
            instrs@.len() > 0 || pos == mem.len(),
            instrs@.len() == 0 ==> queue@ == old(queue)@ && pos == abs,
            instrs@.len() > 0 ==> run_prefix_ok(mem@, block_ip, bv, (instrs@.len() - 1) as nat),
            instrs@.len() > 0 ==> run_in_mem(mem@, block_ip, (instrs@.len() - 1) as nat),
            instrs@.len() > 0 ==> !is_start(bv, run_addr(mem@, block_ip, (instrs@.len() - 1) as nat)),
            instrs@.len() > 0 ==> {
                let last = run_insn(mem@, block_ip, (instrs@.len() - 1) as nat);
                ||| ends_block(last.flow) && (last.flow == Flow::Return || branch_operand_ok(last))
                    && queue@ == old(queue)@ + branch_targets(block_ip, last)
                ||| falls_through(last.flow) && queue@ == old(queue)@ && (!run_in_mem(mem@, block_ip, instrs@.len() as nat) || is_start(bv, run_addr(mem@, block_ip, instrs@.len() as nat)))
            },
        decreases mem.len() - pos,
    {
        let ghost k = instrs@.len();
        let insn = decode(mem, pos, ip);
        assert(insn@ == run_insn(mem@, block_ip, k));
        let at = block_ip.with_ofs(ip);
        assert(at == run_addr(mem@, block_ip, k));
        if has_block(blocks, at) {
            assert(k > 0);
            proof {
                assert(run_off(mem@, block_ip, k) == run_off(mem@, block_ip, (k - 1) as nat) + run_insn(mem@, block_ip, (k - 1) as nat).len);
            }
            break;
        }
        let flow = insn.flow;
        let len = insn.len;
        let next = insn.next_ip();
        proof {
            lemma_ofs_step(block_ip, run_off(mem@, block_ip, k), ip, len);
            assert(run_off(mem@, block_ip, (k + 1) as nat) == run_off(mem@, block_ip, k) + len);
        }
        match flow {
            Flow::Next | Flow::Call | Flow::IndirectCall | Flow::Interrupt => {
                let ghost old_instrs = instrs@;
                let instr = Instr::bare(insn);
                proof {
                    lemma_is_run_push(mem@, block_ip, old_instrs, instr);
                }
                instrs.push(instr);
                pos = pos + len;
                ip = next;
            },
            Flow::UnconditionalBranch | Flow::IndirectBranch | Flow::ConditionalBranch => {
                match control_flow(block_ip, &insn, queue) {
                    Ok(()) => {},
                    Err(e) => {
                        return Err(e);
                    },
                }
                if flow == Flow::ConditionalBranch {
                    queue.push(block_ip.with_ofs(next));
                }
                let ghost old_instrs = instrs@;
                let ghost iv = insn@;
                let instr = Instr::bare(insn);
                proof {
                    lemma_is_run_push(mem@, block_ip, old_instrs, instr);
                    assert(queue@ =~= old(queue)@ + branch_targets(block_ip, iv));
                }
                instrs.push(instr);
                break;
            },
            Flow::Return => {
                let ghost old_instrs = instrs@;
                let instr = Instr::bare(insn);
                proof {
                    lemma_is_run_push(mem@, block_ip, old_instrs, instr);
                }
                instrs.push(instr);
                break;
            },
            Flow::XbeginXabortXend | Flow::Exception => {
                return Err(DisError::UnsupportedFlow(at));
            },
        }
    }
    let b = Block { ip: block_ip, instrs };
    proof {
        let n = b@.instrs.len();
        assert(b@.instrs == instr_views(instrs@));
        assert(n == instrs@.len());
        assert forall|k: nat| k < n implies #[trigger] run_in_mem(mem@, block_ip, k) by {
            if k + 1 < n {
                assert(falls_through(run_insn(mem@, block_ip, k).flow));
            } else {
                assert(k == (instrs@.len() - 1) as nat);
            }
        }
        assert forall|k: nat| k < n implies !is_start(
            bv,
            #[trigger] run_addr(mem@, block_ip, k),
        ) by {
            if k + 1 < n {
                assert(falls_through(run_insn(mem@, block_ip, k).flow));
            }
        }
        assert forall|k: nat| k + 1 < n implies falls_through(
            #[trigger] run_insn(mem@, block_ip, k).flow,
        ) by {}
        if n > 0 {
            assert(b@.instrs.last().iced == run_insn(mem@, block_ip, (n - 1) as nat));
            assert(n == instrs@.len());
            if n == 1 {
                assert(run_in_mem(mem@, block_ip, 0));
            } else {
                assert(falls_through(run_insn(mem@, block_ip, 0).flow));
                assert(run_in_mem(mem@, block_ip, 0));
            }
        } else {
            assert(run_off(mem@, block_ip, 0) == 0);
        }
        assert(is_gathered_block(mem@, block_ip, bv, b@));
    }
    Ok(b)
}

/// Where control goes after block `b`: the targets of the jump that ends it,
/// or the next instruction when decoding stopped at another block.
pub open spec fn successors(mem: Seq<u8>, b: BlockV) -> Seq<SegOfs> {
    let n = b.instrs.len();
    if n == 0 {
        Seq::empty()
    } else if ends_block(b.instrs.last().iced.flow) {
        branch_targets(b.ip, b.instrs.last().iced)
    } else if run_in_mem(mem, b.ip, n as nat) {
        seq![run_addr(mem, b.ip, n as nat)]
    } else {
        Seq::empty()
    }
}

/// A block as disassembly leaves it: the decoding run from its start, every
/// instruction but the last going on to the next, the last a handled jump or
/// return or an instruction after which decoding stopped.
pub open spec fn block_ok(mem: Seq<u8>, b: BlockV) -> bool {
    let n = b.instrs.len();
    &&& is_run(mem, b.ip, b.instrs)
    &&& (n == 0 <==> !run_in_mem(mem, b.ip, 0))
    &&& forall|k: nat| k < n ==> #[trigger] run_in_mem(mem, b.ip, k)
    &&& forall|k: nat| k + 1 < n ==> falls_through(#[trigger] run_insn(mem, b.ip, k).flow)
    &&& n > 0 ==> {
        let last = b.instrs.last().iced;
        ||| ends_block(last.flow) && (last.flow == Flow::Return || branch_operand_ok(last))
        ||| falls_through(last.flow)
    }
}

/// Blocks ordered by start address, each start once.
pub open spec fn sorted_starts(bs: Seq<BlockV>) -> bool {
    forall|i: int, j: int| 0 <= i < j < bs.len() ==> spec_key(bs[i].ip) < spec_key(bs[j].ip)
}

/// Every successor of every block starts a block.
pub open spec fn closed(mem: Seq<u8>, bs: Seq<BlockV>) -> bool {
    forall|i: int, m: int|
        0 <= i < bs.len() && 0 <= m < successors(mem, bs[i]).len() ==> is_start(
            bs,
            #[trigger] successors(mem, bs[i])[m],
        )
}

/// `a` starts a block or still waits in the work list (from `head` on).
pub open spec fn covered(bs: Seq<BlockV>, q: Seq<SegOfs>, head: int, a: SegOfs) -> bool {
    is_start(bs, a) || exists|p: int| head <= p < q.len() && q[p] == a
}

pub open spec fn closed_upto(mem: Seq<u8>, bs: Seq<BlockV>, q: Seq<SegOfs>, head: int) -> bool {
    forall|i: int, m: int|
        0 <= i < bs.len() && 0 <= m < successors(mem, bs[i]).len() ==> covered(
            bs,
            q,
            head,
            #[trigger] successors(mem, bs[i])[m],
        )
}

proof fn lemma_gathered_ok(mem: Seq<u8>, start: SegOfs, blocks: Seq<BlockV>, b: BlockV)
    requires
        is_gathered_block(mem, start, blocks, b),
    ensures
        block_ok(mem, b),
        b.instrs.len() > 0 && !ends_block(b.instrs.last().iced.flow) && run_in_mem(
            mem,
            start,
            b.instrs.len() as nat,
        ) ==> is_start(blocks, run_addr(mem, start, b.instrs.len() as nat)),
        b.instrs.len() > 0 && ends_block(b.instrs.last().iced.flow) ==> successors(mem, b)
            == gathered_targets(start, b),
        b.instrs.len() == 0 || !ends_block(b.instrs.last().iced.flow) ==> gathered_targets(
            start,
            b,
        ) == Seq::<SegOfs>::empty(),
{
    let n = b.instrs.len();
    assert forall|k: nat| k < n implies #[trigger] run_in_mem(mem, b.ip, k) by {
        assert(!is_start(blocks, run_addr(mem, start, k)));
    }
    if n > 0 {
        assert(b.instrs[n - 1] == b.instrs.last());
        assert(b.instrs[n - 1].iced == run_insn(mem, start, (n - 1) as nat));
    }
}

/// The last of the first `n` blocks whose start is at or before `ip`.
pub open spec fn last_le(bs: Seq<BlockV>, ip: SegOfs, n: int) -> Option<int>
    decreases n,
{
    if n <= 0 {
        None
    } else if spec_key(bs[n - 1].ip) <= spec_key(ip) {
        Some(n - 1)
    } else {
        last_le(bs, ip, n - 1)
    }
}

/// Finds the block with the greatest start at or before `ip`, if any.
fn last_start_at_or_before(blocks: &Vec<Block>, ip: SegOfs) -> (r: Option<usize>)
    requires
        sorted_starts(block_views(blocks@)),
    ensures
        last_le(block_views(blocks@), ip, blocks@.len() as int) == (match r {
            Some(j) => Some(j as int),
            None => None::<int>,
        }),
        match r {
            Some(j) => j < blocks@.len() && spec_key(blocks@[j as int].ip) <= spec_key(ip)
                && forall|i: int| j < i < blocks@.len() ==> spec_key(ip) < spec_key(
                    #[trigger] blocks@[i].ip,
                ),
            None => forall|i: int| 0 <= i < blocks@.len() ==> spec_key(ip) < spec_key(
                #[trigger] blocks@[i].ip,
            ),
        },
{
    let key = ip.key();
    let mut j: usize = blocks.len();
    while j > 0
        invariant
            j <= blocks.len(),
            sorted_starts(block_views(blocks@)),
            key == spec_key(ip),
            forall|i: int| j <= i < blocks@.len() ==> spec_key(ip) < spec_key(
                #[trigger] blocks@[i].ip,
            ),
            last_le(block_views(blocks@), ip, blocks@.len() as int) == last_le(
                block_views(blocks@),
                ip,
                j as int,
            ),
        decreases j,
    {
        if blocks[j - 1].ip.key() <= key {
            return Some(j - 1);
        }
        j -= 1;
    }
    None
}

proof fn lemma_key_injective(a: SegOfs, b: SegOfs)
    requires
        spec_key(a) == spec_key(b),
    ensures
        a == b,
{
}

/// What one step of the work list keeps: everything covered before (by a block
/// or by a waiting address) is covered after, where the step took the address
/// `ip` off the list, possibly removed block `j` (putting its start back on the
/// list), and inserted a block starting at `ip`.
proof fn lemma_step_covers(
    bv0: Seq<BlockV>,
    q0: Seq<SegOfs>,
    h0: int,
    bv1: Seq<BlockV>,
    removed: bool,
    j: int,
    bv2: Seq<BlockV>,
    q2: Seq<SegOfs>,
    pos: int,
    newb: BlockV,
    a: SegOfs,
)
    requires
        0 <= h0 < q0.len(),
        removed ==> 0 <= j < bv0.len() && bv1 == bv0.remove(j) && q0.push(bv0[j].ip)
            =~= q2.take(q0.len() as int + 1),
        !removed ==> bv1 == bv0 && q0 =~= q2.take(q0.len() as int),
        q2.len() >= q0.len() + (if removed { 1int } else { 0int }),
        0 <= pos <= bv1.len(),
        bv2 == bv1.insert(pos, newb),
        newb.ip == q0[h0],
        covered(bv0, q0, h0, a),
    ensures
        covered(bv2, q2, h0 + 1, a),
{
    if is_start(bv0, a) {
        let i = choose|i: int| 0 <= i < bv0.len() && (#[trigger] bv0[i]).ip == a;
        if removed && i == j {
            assert(q2[q0.len() as int] == q0.push(bv0[j].ip)[q0.len() as int]);
        } else {
            let i1 = if removed && i > j {
                i - 1
            } else {
                i
            };
            assert(bv1[i1] == bv0[i]);
            let i2 = if i1 >= pos {
                i1 + 1
            } else {
                i1
            };
            assert(bv2[i2] == bv1[i1]);
        }
    } else {
        let p = choose|p: int| h0 <= p < q0.len() && q0[p] == a;
        if p == h0 {
            assert(bv2[pos] == newb);
        } else {
            if removed {
                assert(q2[p] == q0.push(bv0[j].ip)[p]);
            } else {
                assert(q2[p] == q0[p]);
            }
        }
    }
}

/// Taking an address off the work list where a block starts already keeps
/// everything covered.
proof fn lemma_skip(mem: Seq<u8>, start: SegOfs, bv0: Seq<BlockV>, q0: Seq<SegOfs>, h0: int, j: int)
    requires
        0 <= h0 < q0.len(),
        0 <= j < bv0.len(),
        bv0[j].ip == q0[h0],
        closed_upto(mem, bv0, q0, h0),
        covered(bv0, q0, h0, start),
    ensures
        closed_upto(mem, bv0, q0, h0 + 1),
        covered(bv0, q0, h0 + 1, start),
{
    assert forall|a: SegOfs| covered(bv0, q0, h0, a) implies covered(bv0, q0, h0 + 1, a) by {
        if !is_start(bv0, a) {
            let p = choose|p: int| h0 <= p < q0.len() && q0[p] == a;
            if p == h0 {
                assert(bv0[j].ip == a);
            }
        }
    }
    assert forall|i: int, m: int|
        0 <= i < bv0.len() && 0 <= m < successors(mem, bv0[i]).len() implies covered(
        bv0,
        q0,
        h0 + 1,
        #[trigger] successors(mem, bv0[i])[m],
    ) by {
        assert(covered(bv0, q0, h0, successors(mem, bv0[i])[m]));
    }
}

/// Where the block decoded from `ip` goes among the blocks: after those that
/// start before `ip`, before those that start after it.
proof fn lemma_insert_pos(
    bv0: Seq<BlockV>,
    ip: SegOfs,
    found: Option<int>,
    removed: bool,
    bv1: Seq<BlockV>,
    pos: int,
)
    requires
        sorted_starts(bv0),
        match found {
            Some(j) => 0 <= j < bv0.len() && spec_key(bv0[j].ip) < spec_key(ip) && forall|i: int|
                j < i < bv0.len() ==> spec_key(ip) < spec_key(#[trigger] bv0[i].ip),
            None => forall|i: int| 0 <= i < bv0.len() ==> spec_key(ip) < spec_key(#[trigger] bv0[i].ip),
        },
        removed ==> found is Some && bv1 == bv0.remove(found->0) && pos == found->0,
        !removed ==> bv1 == bv0 && pos == (match found {
            Some(j) => j + 1,
            None => 0,
        }),
    ensures
        0 <= pos <= bv1.len(),
        forall|i: int| 0 <= i < pos ==> spec_key(#[trigger] bv1[i].ip) < spec_key(ip),
        forall|i: int| pos <= i < bv1.len() ==> spec_key(ip) < spec_key(#[trigger] bv1[i].ip),
        !is_start(bv1, ip),
{
    assert forall|i: int| 0 <= i < pos implies spec_key(#[trigger] bv1[i].ip) < spec_key(ip) by {
        let j = found->0;
        assert(bv1[i] == bv0[i]);
        if i < j {
            assert(spec_key(bv0[i].ip) < spec_key(bv0[j].ip));
        }
    }
    assert forall|i: int| pos <= i < bv1.len() implies spec_key(ip) < spec_key(#[trigger] bv1[i].ip) by {
        if removed {
            assert(bv1[i] == bv0[i + 1]);
        } else {
            assert(bv1[i] == bv0[i]);
        }
    }
    if is_start(bv1, ip) {
        let k = choose|k: int| 0 <= k < bv1.len() && (#[trigger] bv1[k]).ip == ip;
        if k < pos {
            assert(spec_key(bv1[k].ip) < spec_key(ip));
        } else {
            assert(spec_key(ip) < spec_key(bv1[k].ip));
        }
    }
}

/// The blocks that remain after leaving out block `j` (when `removed`) are
/// blocks from before.
/// Index in the old blocks of block `i` of the blocks left after maybe removing `j`.
pub open spec fn src_index(removed: bool, j: int, i: int) -> int {
    if removed && i >= j {
        i + 1
    } else {
        i
    }
}

proof fn lemma_bv1_from_bv0(bv0: Seq<BlockV>, bv1: Seq<BlockV>, removed: bool, j: int)
    requires
        removed ==> 0 <= j < bv0.len() && bv1 == bv0.remove(j),
        !removed ==> bv1 == bv0,
        sorted_starts(bv0),
    ensures
        forall|i: int|
            0 <= i < bv1.len() ==> 0 <= src_index(removed, j, i) < bv0.len() && #[trigger] bv1[i]
                == bv0[src_index(removed, j, i)],
        sorted_starts(bv1),
{
    assert forall|i: int| 0 <= i < bv1.len() implies 0 <= src_index(removed, j, i) < bv0.len()
        && #[trigger] bv1[i] == bv0[src_index(removed, j, i)] by {
        if removed && i >= j {
            assert(bv1[i] == bv0[i + 1]);
        } else {
            assert(bv1[i] == bv0[i]);
        }
    }
    assert forall|x: int, y: int| 0 <= x < y < bv1.len() implies spec_key(bv1[x].ip) < spec_key(
        bv1[y].ip,
    ) by {
        if removed {
            let x0 = if x >= j {
                x + 1
            } else {
                x
            };
            let y0 = if y >= j {
                y + 1
            } else {
                y
            };
            assert(bv1[x] == bv0[x0]);
            assert(bv1[y] == bv0[y0]);
        }
    }
}

/// Inserting a block between the blocks that start before and after it keeps
/// the order and the well-formedness of blocks.
proof fn lemma_insert_sorted(
    mem: Seq<u8>,
    bv1: Seq<BlockV>,
    bv2: Seq<BlockV>,
    pos: int,
    newb: BlockV,
)
    requires
        sorted_starts(bv1),
        forall|i: int| 0 <= i < bv1.len() ==> block_ok(mem, #[trigger] bv1[i]),
        block_ok(mem, newb),
        0 <= pos <= bv1.len(),
        forall|i: int| 0 <= i < pos ==> spec_key(#[trigger] bv1[i].ip) < spec_key(newb.ip),
        forall|i: int| pos <= i < bv1.len() ==> spec_key(newb.ip) < spec_key(#[trigger] bv1[i].ip),
        bv2 == bv1.insert(pos, newb),
    ensures
        sorted_starts(bv2),
        forall|i: int| 0 <= i < bv2.len() ==> block_ok(mem, #[trigger] bv2[i]),
{
    assert forall|x: int, y: int| 0 <= x < y < bv2.len() implies spec_key(bv2[x].ip) < spec_key(
        bv2[y].ip,
    ) by {
        if y < pos {
            assert(bv2[x] == bv1[x] && bv2[y] == bv1[y]);
        } else if y == pos {
            assert(bv2[x] == bv1[x]);
        } else if x < pos {
            assert(bv2[x] == bv1[x] && bv2[y] == bv1[y - 1]);
        } else if x == pos {
            assert(bv2[y] == bv1[y - 1]);
        } else {
            assert(bv2[x] == bv1[x - 1] && bv2[y] == bv1[y - 1]);
        }
    }
    assert forall|i: int| 0 <= i < bv2.len() implies block_ok(mem, #[trigger] bv2[i]) by {
        if i < pos {
            assert(bv2[i] == bv1[i]);
        } else if i > pos {
            assert(bv2[i] == bv1[i - 1]);
        }
    }
}

/// After one step of the work list, every successor of every block is still
/// covered.
proof fn lemma_step_closed(
    mem: Seq<u8>,
    bv0: Seq<BlockV>,
    q0: Seq<SegOfs>,
    h0: int,
    bv1: Seq<BlockV>,
    q1: Seq<SegOfs>,
    removed: bool,
    j: int,
    bv2: Seq<BlockV>,
    q2: Seq<SegOfs>,
    pos: int,
    newb: BlockV,
)
    requires
        0 <= h0 < q0.len(),
        closed_upto(mem, bv0, q0, h0),
        removed ==> 0 <= j < bv0.len() && bv1 == bv0.remove(j) && q1 == q0.push(bv0[j].ip),
        !removed ==> bv1 == bv0 && q1 == q0,
        forall|i: int|
            0 <= i < bv1.len() ==> 0 <= src_index(removed, j, i) < bv0.len() && #[trigger] bv1[i]
                == bv0[src_index(removed, j, i)],
        0 <= pos <= bv1.len(),
        newb.ip == q0[h0],
        newb.instrs.len() > 0 && !ends_block(newb.instrs.last().iced.flow) && run_in_mem(
            mem,
            newb.ip,
            newb.instrs.len() as nat,
        ) ==> is_start(bv1, run_addr(mem, newb.ip, newb.instrs.len() as nat)),
        newb.instrs.len() > 0 && ends_block(newb.instrs.last().iced.flow) ==> successors(mem, newb)
            == q2.skip(q1.len() as int),
        q1 =~= q2.take(q1.len() as int),
        q2.len() >= q1.len(),
        bv2 == bv1.insert(pos, newb),
    ensures
        closed_upto(mem, bv2, q2, h0 + 1),
{
    if removed {
        assert(q0.push(bv0[j].ip) =~= q2.take(q0.len() as int + 1));
    } else {
        assert(q0 =~= q2.take(q0.len() as int));
    }
    assert forall|i: int, m: int|
        0 <= i < bv2.len() && 0 <= m < successors(mem, bv2[i]).len() implies covered(
        bv2,
        q2,
        h0 + 1,
        #[trigger] successors(mem, bv2[i])[m],
    ) by {
        if i == pos {
            let n = newb.instrs.len();
            assert(bv2[i] == newb);
            if ends_block(newb.instrs.last().iced.flow) {
                let p = q1.len() + m;
                assert(q2[p] == q2.skip(q1.len() as int)[m]);
            } else {
                let k = choose|k: int| 0 <= k < bv1.len() && (#[trigger] bv1[k]).ip == run_addr(
                    mem,
                    newb.ip,
                    n as nat,
                );
                let k2 = if k >= pos {
                    k + 1
                } else {
                    k
                };
                assert(bv2[k2] == bv1[k]);
            }
        } else {
            let i1 = if i > pos {
                i - 1
            } else {
                i
            };
            assert(bv2[i] == bv1[i1]);
            let i0 = src_index(removed, j, i1);
            assert(covered(bv0, q0, h0, successors(mem, bv0[i0])[m]));
            lemma_step_covers(bv0, q0, h0, bv1, removed, j, bv2, q2, pos, newb, successors(mem, bv0[i0])[m]);
        }
    }
}

/// Everything the work list loop keeps holds after one step that takes `ip`
/// off the list and inserts the block decoded from it.
proof fn lemma_step(
    mem: Seq<u8>,
    start: SegOfs,
    bv0: Seq<BlockV>,
    q0: Seq<SegOfs>,
    h0: int,
    bv1: Seq<BlockV>,
    q1: Seq<SegOfs>,
    removed: bool,
    j: int,
    bv2: Seq<BlockV>,
    q2: Seq<SegOfs>,
    pos: int,
    newb: BlockV,
)
    requires
        0 <= h0 < q0.len(),
        sorted_starts(bv0),
        forall|i: int| 0 <= i < bv0.len() ==> block_ok(mem, #[trigger] bv0[i]),
        closed_upto(mem, bv0, q0, h0),
        covered(bv0, q0, h0, start),
        removed ==> 0 <= j < bv0.len() && bv1 == bv0.remove(j) && q1 == q0.push(bv0[j].ip),
        !removed ==> bv1 == bv0 && q1 == q0,
        0 <= pos <= bv1.len(),
        forall|i: int| 0 <= i < pos ==> spec_key(#[trigger] bv1[i].ip) < spec_key(q0[h0]),
        forall|i: int| pos <= i < bv1.len() ==> spec_key(q0[h0]) < spec_key(#[trigger] bv1[i].ip),
        is_gathered_block(mem, q0[h0], bv1, newb),
        q2 == q1 + gathered_targets(q0[h0], newb),
        bv2 == bv1.insert(pos, newb),
    ensures
        sorted_starts(bv2),
        forall|i: int| 0 <= i < bv2.len() ==> block_ok(mem, #[trigger] bv2[i]),
        closed_upto(mem, bv2, q2, h0 + 1),
        covered(bv2, q2, h0 + 1, start),
{
    lemma_gathered_ok(mem, q0[h0], bv1, newb);
    lemma_bv1_from_bv0(bv0, bv1, removed, j);
    assert forall|i: int| 0 <= i < bv1.len() implies block_ok(mem, #[trigger] bv1[i]) by {
        assert(block_ok(mem, bv0[src_index(removed, j, i)]));
    }
    lemma_insert_sorted(mem, bv1, bv2, pos, newb);
    if removed {
        assert(q0.push(bv0[j].ip) =~= q2.take(q0.len() as int + 1));
    } else {
        assert(q0 =~= q2.take(q0.len() as int));
    }
    assert(q1 =~= q2.take(q1.len() as int));
    assert(gathered_targets(q0[h0], newb) =~= q2.skip(q1.len() as int));
    lemma_step_closed(mem, bv0, q0, h0, bv1, q1, removed, j, bv2, q2, pos, newb);
    lemma_step_covers(bv0, q0, h0, bv1, removed, j, bv2, q2, pos, newb, start);
}

// ---------------------------------------------------------------------------
// Decoding a block gives one answer: the block, or the one reason it fails.

proof fn lemma_gathered_unique(mem: Seq<u8>, start: SegOfs, bs: Seq<BlockV>, b1: BlockV, b2: BlockV)
    requires
        is_gathered_block(mem, start, bs, b1),
        is_gathered_block(mem, start, bs, b2),
    ensures
        b1 == b2,
    decreases 0nat,
{
    lemma_gathered_len_le(mem, start, bs, b1, b2);
    lemma_gathered_len_le(mem, start, bs, b2, b1);
    let n = b1.instrs.len();
    assert forall|k: int| 0 <= k < n implies b1.instrs[k] == b2.instrs[k] by {
        assert(b1.instrs[k].iced == run_insn(mem, start, k as nat));
        assert(b2.instrs[k].iced == run_insn(mem, start, k as nat));
    }
    assert(b1.instrs =~= b2.instrs);
}

proof fn lemma_gathered_len_le(mem: Seq<u8>, start: SegOfs, bs: Seq<BlockV>, b1: BlockV, b2: BlockV)
    requires
        is_gathered_block(mem, start, bs, b1),
        is_gathered_block(mem, start, bs, b2),
    ensures
        b1.instrs.len() <= b2.instrs.len(),
{
    let n1 = b1.instrs.len();
    let n2 = b2.instrs.len();
    if n2 < n1 {
        if n2 == 0 {
            assert(run_in_mem(mem, start, 0));
        } else {
            let k = (n2 - 1) as nat;
            assert(falls_through(run_insn(mem, start, k).flow));
            let k2: nat = n2;
            assert(k2 < b1.instrs.len());
            assert(is_gathered_block(mem, start, bs, b1));
            assert(!is_start(bs, run_addr(mem, start, k2)));
            assert(run_in_mem(mem, start, k2));
        }
    }
}

proof fn lemma_failure_unique(mem: Seq<u8>, start: SegOfs, bs: Seq<BlockV>, e1: DisError, e2: DisError)
    requires
        block_failure(mem, start, bs, e1),
        block_failure(mem, start, bs, e2),
    ensures
        e1 == e2,
{
    if e1 is OutOfMemory || e2 is OutOfMemory {
    } else {
        let k1 = failure_index(mem, start, bs, e1);
        let k2 = failure_index(mem, start, bs, e2);
        if k1 < k2 {
            assert(falls_through(run_insn(mem, start, k1).flow));
        } else if k2 < k1 {
            assert(falls_through(run_insn(mem, start, k2).flow));
        }
    }
}

/// The instruction of the run at which a failure other than `OutOfMemory` lies.
spec fn failure_index(mem: Seq<u8>, start: SegOfs, bs: Seq<BlockV>, e: DisError) -> nat {
    choose|k: nat|
        run_reaches(mem, start, bs, k) && bad_insn(#[trigger] run_insn(mem, start, k), e) && failure_addr(e)
            == run_addr(mem, start, k)
}

spec fn failure_addr(e: DisError) -> SegOfs {
    match e {
        DisError::OutOfMemory(a) => a,
        DisError::UnsupportedFlow(a) => a,
        DisError::BadOperandCount(a) => a,
        DisError::UnsupportedBranch(a) => a,
        DisError::EmptyBlock(a) => a,
    }
}

/// Instruction `i` fails decoding in the way `e` names.
spec fn bad_insn(i: InsnV, e: DisError) -> bool {
    match e {
        DisError::UnsupportedFlow(_) => unsupported_flow(i.flow),
        DisError::BadOperandCount(_) => ends_block(i.flow) && i.flow != Flow::Return && i.operands.len() != 1,
        DisError::UnsupportedBranch(_) => ends_block(i.flow) && i.flow != Flow::Return && i.operands.len()
            == 1 && !branch_operand_ok(i),
        _ => false,
    }
}

/// A block decoded from `start` within memory leaves no reason to fail.
proof fn lemma_gathered_no_failure(mem: Seq<u8>, start: SegOfs, bs: Seq<BlockV>, b: BlockV, e: DisError)
    requires
        is_gathered_block(mem, start, bs, b),
        spec_abs(start) <= mem.len(),
    ensures
        !block_failure(mem, start, bs, e),
{
    if !block_failure(mem, start, bs, e) {
        return;
    }
    let k = failure_index(mem, start, bs, e);
    let n = b.instrs.len();
    assert(run_reaches(mem, start, bs, k) && bad_insn(run_insn(mem, start, k), e));
    if n == 0 {
        if k > 0 {
            assert(run_in_mem(mem, start, 0) && falls_through(run_insn(mem, start, 0).flow));
        }
    } else if k + 1 < n {
        assert(falls_through(run_insn(mem, start, k).flow));
    } else if k + 1 == n {
        assert(b.instrs[n - 1].iced == run_insn(mem, start, k));
    } else {
        let m = (n - 1) as nat;
        assert(falls_through(run_insn(mem, start, m).flow));
        if k > n {
            let kn: nat = n;
            assert(run_prefix_ok(mem, start, bs, k));
            assert(kn < k);
            assert(run_in_mem(mem, start, kn) && falls_through(run_insn(mem, start, kn).flow) && !is_start(bs, run_addr(mem, start, kn)));
        }
    }
}

// ---------------------------------------------------------------------------
// The work list, step by step: what disassembly returns.

/// One step of the work list from the blocks `bs` and the list `q`, taking
/// the address `q[head]`: where a block starts there already nothing changes;
/// where the last block at or before it has no instructions, disassembly gives
/// up; where that block's span holds the address, the block is taken out and
/// its start goes back on the list. Then the block decoded from the address
/// goes in among the blocks, and the targets of the jump that ends it go on
/// the list, unless decoding it fails.
pub open spec fn gather_step(mem: Seq<u8>, bs: Seq<BlockV>, q: Seq<SegOfs>, head: int) -> Result<
    (Seq<BlockV>, Seq<SegOfs>),
    DisError,
> {
    let ip = q[head];
    let found = last_le(bs, ip, bs.len() as int);
    if found is Some && bs[found->0].ip == ip {
        Ok((bs, q))
    } else if found is Some && bs[found->0].instrs.len() == 0 {
        Err(DisError::EmptyBlock(bs[found->0].ip))
    } else {
        let split = found is Some && block_contains(bs[found->0], ip);
        let bs1 = if split {
            bs.remove(found->0)
        } else {
            bs
        };
        let q1 = if split {
            q.push(bs[found->0].ip)
        } else {
            q
        };
        let pos = if split {
            found->0
        } else if found is Some {
            found->0 + 1
        } else {
            0
        };
        decode_step(mem, ip, bs1, q1, pos)
    }
}

/// Decoding the block at `ip` among the blocks `bs` and putting it in at
/// `pos`, the targets of its jump going on the list `q`; or the reason that
/// decoding fails.
pub open spec fn decode_step(mem: Seq<u8>, ip: SegOfs, bs: Seq<BlockV>, q: Seq<SegOfs>, pos: int) -> Result<
    (Seq<BlockV>, Seq<SegOfs>),
    DisError,
> {
    if exists|e: DisError| block_failure(mem, ip, bs, e) {
        Err(choose|e: DisError| block_failure(mem, ip, bs, e))
    } else {
        let b = choose|b: BlockV| is_gathered_block(mem, ip, bs, b);
        Ok((bs.insert(pos, b), q + gathered_targets(ip, b)))
    }
}

/// The work list run from `(bs, q)` at `head` for at most `fuel` steps: the
/// blocks once the list is drained, or the first failure; `None` if the steps
/// run out first.
pub open spec fn gather_run(mem: Seq<u8>, bs: Seq<BlockV>, q: Seq<SegOfs>, head: int, fuel: nat) -> Option<
    Result<Seq<BlockV>, DisError>,
>
    decreases fuel,
{
    if head < 0 || head >= q.len() {
        Some(Ok(bs))
    } else if fuel == 0 {
        None
    } else {
        match gather_step(mem, bs, q, head) {
            Err(e) => Some(Err(e)),
            Ok(st) => gather_run(mem, st.0, st.1, head + 1, (fuel - 1) as nat),
        }
    }
}

/// What disassembly from `start` returns: the end of the work list run that
/// starts with no blocks and `start` on the list.
pub open spec fn gather_result(mem: Seq<u8>, start: SegOfs) -> Result<Seq<BlockV>, DisError> {
    let f = choose|f: nat| #[trigger] gather_run(mem, Seq::empty(), seq![start], 0, f) is Some;
    gather_run(mem, Seq::empty(), seq![start], 0, f).unwrap()
}

/// Given more steps than it needs, the run gives the same answer.
pub proof fn lemma_run_mono(mem: Seq<u8>, bs: Seq<BlockV>, q: Seq<SegOfs>, head: int, f: nat, g: nat)
    requires
        gather_run(mem, bs, q, head, f) is Some,
        f <= g,
    ensures
        gather_run(mem, bs, q, head, g) == gather_run(mem, bs, q, head, f),
    decreases f,
{
    if head < 0 || head >= q.len() {
    } else if f == 0 {
    } else {
        match gather_step(mem, bs, q, head) {
            Err(e) => {},
            Ok(st) => {
                lemma_run_mono(mem, st.0, st.1, head + 1, (f - 1) as nat, (g - 1) as nat);
            },
        }
    }
}

proof fn lemma_run_result(mem: Seq<u8>, start: SegOfs, f: nat, x: Result<Seq<BlockV>, DisError>)
    requires
        gather_run(mem, Seq::empty(), seq![start], 0, f) == Some(x),
    ensures
        gather_result(mem, start) == x,
{
    let g = choose|g: nat| #[trigger] gather_run(mem, Seq::empty(), seq![start], 0, g) is Some;
    assert(gather_run(mem, Seq::empty(), seq![start], 0, f) is Some);
    if f <= g {
        lemma_run_mono(mem, Seq::empty(), seq![start], 0, f, g);
    } else {
        lemma_run_mono(mem, Seq::empty(), seq![start], 0, g, f);
    }
}

/// The run from the start, `steps` steps in, stands at `(bs, q, head)`.
pub open spec fn run_at(mem: Seq<u8>, start: SegOfs, steps: nat, bs: Seq<BlockV>, q: Seq<SegOfs>, head: int) -> bool {
    forall|f: nat|
        gather_run(mem, Seq::empty(), seq![start], 0, f + steps) == #[trigger] gather_run(
            mem,
            bs,
            q,
            head,
            f,
        )
}

proof fn lemma_run_advance(
    mem: Seq<u8>,
    start: SegOfs,
    steps: nat,
    bs: Seq<BlockV>,
    q: Seq<SegOfs>,
    head: int,
    bs2: Seq<BlockV>,
    q2: Seq<SegOfs>,
)
    requires
        run_at(mem, start, steps, bs, q, head),
        0 <= head < q.len(),
        gather_step(mem, bs, q, head) == Ok::<(Seq<BlockV>, Seq<SegOfs>), DisError>((bs2, q2)),
    ensures
        run_at(mem, start, steps + 1, bs2, q2, head + 1),
{
    assert forall|f: nat|
        gather_run(mem, Seq::empty(), seq![start], 0, f + (steps + 1)) == #[trigger] gather_run(
            mem,
            bs2,
            q2,
            head + 1,
            f,
        ) by {
        assert(gather_run(mem, bs, q, head, f + 1) == gather_run(mem, bs2, q2, head + 1, f));
        assert(f + (steps + 1) == (f + 1) + steps);
    }
}

proof fn lemma_run_fail(
    mem: Seq<u8>,
    start: SegOfs,
    steps: nat,
    bs: Seq<BlockV>,
    q: Seq<SegOfs>,
    head: int,
    e: DisError,
)
    requires
        run_at(mem, start, steps, bs, q, head),
        0 <= head < q.len(),
        gather_step(mem, bs, q, head) == Err::<(Seq<BlockV>, Seq<SegOfs>), DisError>(e),
    ensures
        gather_result(mem, start) == Err::<Seq<BlockV>, DisError>(e),
{
    assert(gather_run(mem, bs, q, head, 1) == Some(Err::<Seq<BlockV>, DisError>(e)));
    assert(gather_run(mem, Seq::empty(), seq![start], 0, 1 + steps) == gather_run(mem, bs, q, head, 1));
    lemma_run_result(mem, start, 1 + steps, Err(e));
}

proof fn lemma_run_done(mem: Seq<u8>, start: SegOfs, steps: nat, bs: Seq<BlockV>, q: Seq<SegOfs>, head: int)
    requires
        run_at(mem, start, steps, bs, q, head),
        head == q.len(),
    ensures
        gather_result(mem, start) == Ok::<Seq<BlockV>, DisError>(bs),
{
    assert(gather_run(mem, bs, q, head, 0) == Some(Ok::<Seq<BlockV>, DisError>(bs)));
    assert(gather_run(mem, Seq::empty(), seq![start], 0, 0 + steps) == gather_run(mem, bs, q, head, 0));
    lemma_run_result(mem, start, steps, Ok(bs));
}

/// A decoded block, or the reason decoding failed, by its view.
pub open spec fn block_result_view(r: Result<Block, DisError>) -> Result<BlockV, DisError> {
    match r {
        Ok(b) => Ok(b@),
        Err(e) => Err(e),
    }
}

/// The step that decodes a block: what the code does is what `gather_step`
/// says, when decoding succeeds and when it fails.
proof fn lemma_step_exact(
    mem: Seq<u8>,
    bv0: Seq<BlockV>,
    q0: Seq<SegOfs>,
    h0: int,
    found: Option<int>,
    bv1: Seq<BlockV>,
    q1: Seq<SegOfs>,
    removed: bool,
    j: int,
    pos: int,
    res: Result<BlockV, DisError>,
)
    requires
        0 <= h0 < q0.len(),
        found == last_le(bv0, q0[h0], bv0.len() as int),
        found matches Some(jj) ==> 0 <= jj < bv0.len() && bv0[jj].ip != q0[h0] && bv0[jj].instrs.len() > 0
            && (removed <==> block_contains(bv0[jj], q0[h0])),
        removed ==> found == Some(j) && bv1 == bv0.remove(j) && q1 == q0.push(bv0[j].ip),
        found is None ==> pos == 0,
        !removed ==> bv1 == bv0 && q1 == q0,
        removed ==> pos == j,
        !removed && found is Some ==> pos == found->0 + 1,
        res matches Ok(b) ==> is_gathered_block(mem, q0[h0], bv1, b) && spec_abs(q0[h0]) <= mem.len(),
        res matches Err(e) ==> block_failure(mem, q0[h0], bv1, e),
    ensures
        gather_step(mem, bv0, q0, h0) == (match res {
            Ok(b) => Ok::<(Seq<BlockV>, Seq<SegOfs>), DisError>(
                (bv1.insert(pos, b), q1 + gathered_targets(q0[h0], b)),
            ),
            Err(e) => Err(e),
        }),
{
    let ip = q0[h0];
    match res {
        Ok(b) => {
            assert forall|e: DisError| !block_failure(mem, ip, bv1, e) by {
                lemma_gathered_no_failure(mem, ip, bv1, b, e);
            }
            let c = choose|c: BlockV| is_gathered_block(mem, ip, bv1, c);
            lemma_gathered_unique(mem, ip, bv1, b, c);
        },
        Err(e) => {
            let e2 = choose|e2: DisError| block_failure(mem, ip, bv1, e2);
            lemma_failure_unique(mem, ip, bv1, e, e2);
        },
    }
}

// ---------------------------------------------------------------------------
// Splitting: a block that a later start falls inside is cut there, unless a
// start nearer to that later one, and inside the block's span, took the cut.

/// The address of the `k`-th instruction of block `b`.
pub open spec fn instr_addr(b: BlockV, k: int) -> SegOfs {
    SegOfs { seg: b.ip.seg, ofs: b.instrs[k].iced.ip }
}

/// Some address strictly between `lo` and `hi` starts a block or still waits
/// on the work list (from `head` on).
pub open spec fn covered_between(bs: Seq<BlockV>, q: Seq<SegOfs>, head: int, lo: SegOfs, hi: SegOfs) -> bool {
    exists|s: SegOfs| spec_key(lo) < spec_key(s) < spec_key(hi) && #[trigger] covered(bs, q, head, s)
}

/// Where an instruction of a block, other than its first, lies in the block's
/// span and starts a block, some address between the two starts a block or
/// waits on the work list: the block was split there, or the nearer start was
/// the one whose block was looked at.
pub open spec fn splits_pending(bs: Seq<BlockV>, q: Seq<SegOfs>, head: int) -> bool {
    forall|i: int, k: int|
        0 <= i < bs.len() && 0 < k < bs[i].instrs.len() && block_contains(
            bs[i],
            #[trigger] instr_addr(bs[i], k),
        ) && instr_addr(bs[i], k) != bs[i].ip && is_start(bs, instr_addr(bs[i], k))
            ==> covered_between(bs, q, head, bs[i].ip, instr_addr(bs[i], k))
}

/// No block runs on over a later start in its span: where an instruction of a
/// block, other than its first, lies in the block's span (`contains_ip`) and
/// starts a block, another block starts strictly between the two. (A new start
/// is checked against the last block that starts at or before it; that block
/// is split when its span holds the new start.)
pub open spec fn split_at_starts(bs: Seq<BlockV>) -> bool {
    forall|i: int, k: int|
        0 <= i < bs.len() && 0 < k < bs[i].instrs.len() && block_contains(
            bs[i],
            #[trigger] instr_addr(bs[i], k),
        ) && instr_addr(bs[i], k) != bs[i].ip && is_start(bs, instr_addr(bs[i], k))
            ==> exists|s: SegOfs|
            spec_key(bs[i].ip) < spec_key(s) < spec_key(instr_addr(bs[i], k)) && #[trigger] is_start(
                bs,
                s,
            )
}

/// Taking off the work list an address where a block starts already keeps
/// what waits or starts.
proof fn lemma_skip_splits(bv0: Seq<BlockV>, q0: Seq<SegOfs>, h0: int, j: int)
    requires
        0 <= h0 < q0.len(),
        0 <= j < bv0.len(),
        bv0[j].ip == q0[h0],
        splits_pending(bv0, q0, h0),
    ensures
        splits_pending(bv0, q0, h0 + 1),
{
    assert forall|i: int, k: int|
        0 <= i < bv0.len() && 0 < k < bv0[i].instrs.len() && block_contains(
            bv0[i],
            #[trigger] instr_addr(bv0[i], k),
        ) && instr_addr(bv0[i], k) != bv0[i].ip && is_start(bv0, instr_addr(bv0[i], k))
        implies covered_between(bv0, q0, h0 + 1, bv0[i].ip, instr_addr(bv0[i], k)) by {
        let t = instr_addr(bv0[i], k);
        let s = choose|s: SegOfs|
            spec_key(bv0[i].ip) < spec_key(s) < spec_key(t) && #[trigger] covered(bv0, q0, h0, s);
        if !is_start(bv0, s) {
            let p = choose|p: int| h0 <= p < q0.len() && q0[p] == s;
            if p == h0 {
                assert(bv0[j].ip == s);
            } else {
                assert(q0[p] == s);
            }
        }
        assert(covered(bv0, q0, h0 + 1, s));
    }
}

/// One step of the work list keeps `splits_pending`: the new block stops before
/// every start that exists; an older block whose span holds the new start was
/// split, or a block between the two was the last one at or before it.
#[verifier::rlimit(50)]
#[verifier::spinoff_prover]
proof fn lemma_step_splits(
    mem: Seq<u8>,
    bv0: Seq<BlockV>,
    q0: Seq<SegOfs>,
    h0: int,
    found: Option<int>,
    bv1: Seq<BlockV>,
    q1: Seq<SegOfs>,
    removed: bool,
    j: int,
    bv2: Seq<BlockV>,
    q2: Seq<SegOfs>,
    pos: int,
    newb: BlockV,
)
    requires
        0 <= h0 < q0.len(),
        sorted_starts(bv0),
        splits_pending(bv0, q0, h0),
        match found {
            Some(jj) => 0 <= jj < bv0.len() && spec_key(bv0[jj].ip) < spec_key(q0[h0]) && forall|i: int|
                jj < i < bv0.len() ==> spec_key(q0[h0]) < spec_key(#[trigger] bv0[i].ip),
            None => forall|i: int| 0 <= i < bv0.len() ==> spec_key(q0[h0]) < spec_key(#[trigger] bv0[i].ip),
        },
        found matches Some(jj) ==> (removed <==> block_contains(bv0[jj], q0[h0])),
        removed ==> found == Some(j) && bv1 == bv0.remove(j) && q1 == q0.push(bv0[j].ip),
        !removed ==> bv1 == bv0 && q1 == q0,
        0 <= pos <= bv1.len(),
        newb.ip == q0[h0],
        is_gathered_block(mem, q0[h0], bv1, newb),
        q1 =~= q2.take(q1.len() as int),
        q2.len() >= q1.len(),
        bv2 == bv1.insert(pos, newb),
    ensures
        splits_pending(bv2, q2, h0 + 1),
{
    let ip = q0[h0];
    lemma_bv1_from_bv0(bv0, bv1, removed, j);
    if removed {
        assert(q0.push(bv0[j].ip) =~= q2.take(q0.len() as int + 1));
    } else {
        assert(q0 =~= q2.take(q0.len() as int));
    }
    assert forall|i: int, k: int|
        0 <= i < bv2.len() && 0 < k < bv2[i].instrs.len() && block_contains(
            bv2[i],
            #[trigger] instr_addr(bv2[i], k),
        ) && instr_addr(bv2[i], k) != bv2[i].ip && is_start(bv2, instr_addr(bv2[i], k))
        implies covered_between(bv2, q2, h0 + 1, bv2[i].ip, instr_addr(bv2[i], k)) by {
        let t = instr_addr(bv2[i], k);
        let w = choose|w: int| 0 <= w < bv2.len() && (#[trigger] bv2[w]).ip == t;
        if i == pos {
            assert(bv2[i] == newb);
            assert(newb.instrs[k].iced == run_insn(mem, ip, k as nat));
            assert(t == run_addr(mem, ip, k as nat));
            assert(!is_start(bv1, run_addr(mem, ip, k as nat)));
            if w < pos {
                assert(bv2[w] == bv1[w]);
            } else if w > pos {
                assert(bv2[w] == bv1[w - 1]);
            }
            assert(false);
        } else {
            let i1 = if i > pos {
                i - 1
            } else {
                i
            };
            assert(bv2[i] == bv1[i1]);
            let i0 = src_index(removed, j, i1);
            let b = bv0[i0];
            assert(bv1[i1] == b);
            assert(spec_key(b.ip) < spec_key(t));
            if t == ip {
                match found {
                    None => {
                        assert(spec_key(ip) < spec_key(bv0[i0].ip));
                    },
                    Some(jj) => {
                        if i0 > jj {
                            assert(spec_key(ip) < spec_key(bv0[i0].ip));
                        } else if i0 == jj {
                            assert(block_contains(bv0[jj], ip));
                        } else {
                            let s = bv0[jj].ip;
                            assert(spec_key(b.ip) < spec_key(s));
                            if removed {
                                assert(q2[q0.len() as int] == q0.push(bv0[j].ip)[q0.len() as int]);
                                assert(q2[q0.len() as int] == s);
                            } else {
                                assert(bv1[jj] == bv0[jj]);
                                let w2 = if jj >= pos {
                                    jj + 1
                                } else {
                                    jj
                                };
                                assert(bv2[w2] == bv1[jj]);
                            }
                            assert(covered(bv2, q2, h0 + 1, s));
                        }
                    },
                }
            } else {
                assert(w != pos);
                let w1 = if w > pos {
                    w - 1
                } else {
                    w
                };
                assert(bv2[w] == bv1[w1]);
                let w0 = src_index(removed, j, w1);
                assert(bv0[w0].ip == t);
                assert(instr_addr(bv0[i0], k) == t);
                assert(is_start(bv0, t));
                assert(covered_between(bv0, q0, h0, b.ip, t));
                let s = choose|s: SegOfs|
                    spec_key(b.ip) < spec_key(s) < spec_key(t) && #[trigger] covered(bv0, q0, h0, s);
                lemma_step_covers(bv0, q0, h0, bv1, removed, j, bv2, q2, pos, newb, s);
                assert(covered(bv2, q2, h0 + 1, s));
            }
        }
    }
}

// ---------------------------------------------------------------------------
// Why the work list drains: the set of block starts, read as a binary number
// whose digits are indexed by address, grows with every block made.

/// The block starts as one number: a start `a` stands for `2^key(a)`.
pub open spec fn start_weight(bv: Seq<BlockV>) -> nat
    decreases bv.len(),
{
    if bv.len() == 0 {
        0
    } else {
        start_weight(bv.drop_last()) + pow2(spec_key(bv.last().ip))
    }
}

/// The number that stands for every possible set of block starts is below this.
pub open spec fn start_weight_bound() -> nat {
    pow2(0x1_0000_0000)
}

proof fn lemma_weight_concat(a: Seq<BlockV>, b: Seq<BlockV>)
    ensures
        start_weight(a + b) == start_weight(a) + start_weight(b),
    decreases b.len(),
{
    if b.len() == 0 {
        assert(a + b =~= a);
    } else {
        assert((a + b).drop_last() =~= a + b.drop_last());
        assert((a + b).last() == b.last());
        lemma_weight_concat(a, b.drop_last());
    }
}

proof fn lemma_weight_one(b: BlockV)
    ensures
        start_weight(seq![b]) == pow2(spec_key(b.ip)),
{
    assert(seq![b].drop_last() =~= Seq::<BlockV>::empty());
    assert(start_weight(Seq::<BlockV>::empty()) == 0);
    assert(seq![b].last() == b);
}

/// Taking a block out takes its start's digit away.
proof fn lemma_weight_remove(bv: Seq<BlockV>, j: int)
    requires
        0 <= j < bv.len(),
    ensures
        start_weight(bv.remove(j)) + pow2(spec_key(bv[j].ip)) == start_weight(bv),
{
    let a = bv.take(j);
    let c = bv.skip(j + 1);
    assert(bv =~= a + seq![bv[j]] + c);
    assert(bv.remove(j) =~= a + c);
    lemma_weight_concat(a + seq![bv[j]], c);
    lemma_weight_concat(a, seq![bv[j]]);
    lemma_weight_concat(a, c);
    lemma_weight_one(bv[j]);
}

/// Putting a block in adds its start's digit.
proof fn lemma_weight_insert(bv: Seq<BlockV>, p: int, b: BlockV)
    requires
        0 <= p <= bv.len(),
    ensures
        start_weight(bv.insert(p, b)) == start_weight(bv) + pow2(spec_key(b.ip)),
{
    let a = bv.take(p);
    let c = bv.skip(p);
    assert(bv =~= a + c);
    assert(bv.insert(p, b) =~= a + seq![b] + c);
    lemma_weight_concat(a + seq![b], c);
    lemma_weight_concat(a, seq![b]);
    lemma_weight_concat(a, c);
    lemma_weight_one(b);
}

proof fn lemma_key_bound(a: SegOfs)
    ensures
        spec_key(a) < 0x1_0000_0000,
{
    assert(a.seg as nat * 65536 + a.ofs as nat <= 65535 * 65536 + 65535) by (nonlinear_arith)
        requires
            a.seg <= 65535,
            a.ofs <= 65535,
    ;
}

/// Starts in increasing order stand for a number below two to the power of
/// one more than the last key.
proof fn lemma_weight_below_last(bv: Seq<BlockV>)
    requires
        sorted_starts(bv),
        bv.len() > 0,
    ensures
        start_weight(bv) < pow2(spec_key(bv.last().ip) + 1),
    decreases bv.len(),
{
    let k = spec_key(bv.last().ip);
    lemma_pow2_unfold(k + 1);
    assert(pow2((k + 1 - 1) as nat) == pow2(k));
    vstd::arithmetic::power2::lemma_pow2_pos(k);
    let dl = bv.drop_last();
    assert(start_weight(bv) == start_weight(dl) + pow2(k));
    if dl.len() == 0 {
        assert(start_weight(dl) == 0);
    } else {
        assert(sorted_starts(dl)) by {
            assert forall|i: int, j: int| 0 <= i < j < dl.len() implies spec_key(dl[i].ip) < spec_key(dl[j].ip) by {
                assert(dl[i] == bv[i] && dl[j] == bv[j]);
            }
        }
        lemma_weight_below_last(dl);
        let k2 = spec_key(dl.last().ip);
        assert(k2 < k) by {
            assert(dl.last() == bv[bv.len() - 2]);
        }
        if k2 + 1 < k {
            lemma_pow2_strictly_increases(k2 + 1, k);
        }
        assert(pow2(k2 + 1) <= pow2(k));
    }
}

/// One step of the work list that makes a block at `ip`, after taking out
/// the block at a lower start when `removed`, makes the number of the starts grow.
proof fn lemma_weight_grows(
    bv0: Seq<BlockV>,
    bv1: Seq<BlockV>,
    bv2: Seq<BlockV>,
    removed: bool,
    j: int,
    pos: int,
    newb: BlockV,
)
    requires
        removed ==> 0 <= j < bv0.len() && bv1 == bv0.remove(j) && spec_key(bv0[j].ip) < spec_key(newb.ip),
        !removed ==> bv1 == bv0,
        0 <= pos <= bv1.len(),
        bv2 == bv1.insert(pos, newb),
        sorted_starts(bv2),
    ensures
        start_weight(bv0) < start_weight(bv2),
        start_weight(bv2) < start_weight_bound(),
{
    lemma_weight_insert(bv1, pos, newb);
    vstd::arithmetic::power2::lemma_pow2_pos(spec_key(newb.ip));
    if removed {
        lemma_weight_remove(bv0, j);
        lemma_pow2_strictly_increases(spec_key(bv0[j].ip), spec_key(newb.ip));
    }
    lemma_weight_bound(bv2);
}

/// The number that any sorted set of starts stands for is below the bound.
proof fn lemma_weight_bound(bv: Seq<BlockV>)
    requires
        sorted_starts(bv),
    ensures
        start_weight(bv) < start_weight_bound(),
{
    vstd::arithmetic::power2::lemma_pow2_pos(0x1_0000_0000);
    if bv.len() > 0 {
        lemma_weight_below_last(bv);
        let k = spec_key(bv.last().ip);
        lemma_key_bound(bv.last().ip);
        if k + 1 < 0x1_0000_0000 {
            lemma_pow2_strictly_increases(k + 1, 0x1_0000_0000);
        }
    }
}

/// The blocks of a function that starts at `start`: in address order, each
/// well formed, every successor of a block starts a block, no block runs on
/// over a later start in its span, a block starts at `start`, and every block
/// starts at an address that the control flow reaches from `start`.
pub open spec fn is_disassembly(mem: Seq<u8>, start: SegOfs, bv: Seq<BlockV>) -> bool {
    &&& sorted_starts(bv)
    &&& forall|i: int| 0 <= i < bv.len() ==> block_ok(mem, #[trigger] bv[i])
    &&& closed(mem, bv)
    &&& split_at_starts(bv)
    &&& is_start(bv, start)
    &&& forall|i: int| 0 <= i < bv.len() ==> reached(mem, start, (#[trigger] bv[i]).ip)
}

/// One step of following the control flow: decoding the block at `s` (with
/// some set of blocks in place) puts `t` on the work list.
pub open spec fn flow_step(mem: Seq<u8>, s: SegOfs, t: SegOfs) -> bool {
    exists|bs: Seq<BlockV>, b: BlockV|
        #[trigger] is_gathered_block(mem, s, bs, b) && gathered_targets(s, b).contains(t)
}

/// Each address of `chain` is one flow step from the one before it.
pub open spec fn is_flow_chain(mem: Seq<u8>, chain: Seq<SegOfs>) -> bool {
    forall|i: int| 0 <= i < chain.len() - 1 ==> flow_step(mem, #[trigger] chain[i], chain[i + 1])
}

/// `a` is reached from `start` by following the control flow.
pub open spec fn reached(mem: Seq<u8>, start: SegOfs, a: SegOfs) -> bool {
    exists|chain: Seq<SegOfs>|
        chain.len() > 0 && chain[0] == start && chain.last() == a && #[trigger] is_flow_chain(mem, chain)
}

proof fn lemma_reached_start(mem: Seq<u8>, start: SegOfs)
    ensures
        reached(mem, start, start),
{
    let chain = seq![start];
    assert(is_flow_chain(mem, chain));
}

proof fn lemma_reached_step(mem: Seq<u8>, start: SegOfs, s: SegOfs, bs: Seq<BlockV>, b: BlockV, t: SegOfs)
    requires
        reached(mem, start, s),
        is_gathered_block(mem, s, bs, b),
        gathered_targets(s, b).contains(t),
    ensures
        reached(mem, start, t),
{
    let chain = choose|chain: Seq<SegOfs>|
        chain.len() > 0 && chain[0] == start && chain.last() == s && #[trigger] is_flow_chain(mem, chain);
    let c2 = chain.push(t);
    assert(flow_step(mem, s, t));
    assert forall|i: int| 0 <= i < c2.len() - 1 implies flow_step(mem, #[trigger] c2[i], c2[i + 1]) by {
        if i < chain.len() - 1 {
            assert(c2[i] == chain[i] && c2[i + 1] == chain[i + 1]);
        } else {
            assert(c2[i] == s && c2[i + 1] == t);
        }
    }
    assert(c2[0] == start);
    assert(is_flow_chain(mem, c2));
    assert(c2.last() == t);
}

/// Every address on the work list and every block start stays reached from
/// `start` through one step of the work list.
proof fn lemma_step_reached(
    mem: Seq<u8>,
    start: SegOfs,
    bv0: Seq<BlockV>,
    q0: Seq<SegOfs>,
    bv1: Seq<BlockV>,
    q1: Seq<SegOfs>,
    removed: bool,
    j: int,
    bv2: Seq<BlockV>,
    q2: Seq<SegOfs>,
    pos: int,
    newb: BlockV,
    ip: SegOfs,
)
    requires
        forall|i: int| 0 <= i < q0.len() ==> reached(mem, start, #[trigger] q0[i]),
        forall|i: int| 0 <= i < bv0.len() ==> reached(mem, start, (#[trigger] bv0[i]).ip),
        reached(mem, start, ip),
        removed ==> 0 <= j < bv0.len() && bv1 == bv0.remove(j) && q1 == q0.push(bv0[j].ip),
        !removed ==> bv1 == bv0 && q1 == q0,
        0 <= pos <= bv1.len(),
        is_gathered_block(mem, ip, bv1, newb),
        q2 == q1 + gathered_targets(ip, newb),
        bv2 == bv1.insert(pos, newb),
    ensures
        forall|i: int| 0 <= i < q2.len() ==> reached(mem, start, #[trigger] q2[i]),
        forall|i: int| 0 <= i < bv2.len() ==> reached(mem, start, (#[trigger] bv2[i]).ip),
{
    assert forall|i: int| 0 <= i < q1.len() implies reached(mem, start, #[trigger] q1[i]) by {
        if i < q0.len() {
            assert(q1[i] == q0[i]);
        } else {
            assert(q1[i] == bv0[j].ip);
        }
    }
    assert forall|i: int| 0 <= i < bv1.len() implies reached(mem, start, (#[trigger] bv1[i]).ip) by {
        if removed {
            if i < j {
                assert(bv1[i] == bv0[i]);
            } else {
                assert(bv1[i] == bv0[i + 1]);
            }
        }
    }
    assert forall|i: int| 0 <= i < q2.len() implies reached(mem, start, #[trigger] q2[i]) by {
        if i >= q1.len() {
            assert(gathered_targets(ip, newb)[i - q1.len()] == q2[i]);
            lemma_reached_step(mem, start, ip, bv1, newb, q2[i]);
        } else {
            assert(q2[i] == q1[i]);
        }
    }
    assert forall|i: int| 0 <= i < bv2.len() implies reached(mem, start, (#[trigger] bv2[i]).ip) by {
        if i < pos {
            assert(bv2[i] == bv1[i]);
        } else if i > pos {
            assert(bv2[i] == bv1[i - 1]);
        } else {
            assert(bv2[i] == newb);
        }
    }
}

/// What the memory holds when disassembly from `start` gives up with `e`: a
/// block reached from `start` would start past the end of memory, or a block
/// without instructions (at or past the end of memory) would have to be split
/// by an address reached after it, or
/// decoding from an address reached from `start` meets an instruction whose
/// flow or branch operand is not handled.
pub open spec fn gather_failure(mem: Seq<u8>, start: SegOfs, e: DisError) -> bool {
    match e {
        DisError::OutOfMemory(a) => reached(mem, start, a) && spec_abs(a) > mem.len(),
        DisError::EmptyBlock(a) => reached(mem, start, a) && spec_abs(a) >= mem.len() && exists|t: SegOfs|
            reached(mem, start, t) && spec_key(a) < #[trigger] spec_key(t),
        _ => exists|s: SegOfs, bs: Seq<BlockV>| reached(mem, start, s) && block_failure(mem, s, bs, e),
    }
}

/// Follows the control flow from `start` and returns the function's basic
/// blocks in address order: a work list of addresses, each of which becomes a
/// block unless one starts there already; an address that falls inside an
/// existing block splits it (the block is decoded again and ends where the new
/// one starts). What it returns is `gather_result`, the end of that run.
#[verifier::rlimit(60)]
#[verifier::spinoff_prover]
pub fn gather(mem: &[u8], start: SegOfs) -> (r: Result<Vec<Block>, DisError>)
    ensures
        gather_result(mem@, start) == (match r {
            Ok(bs) => Ok::<Seq<BlockV>, DisError>(block_views(bs@)),
            Err(e) => Err(e),
        }),
        r matches Ok(bs) ==> is_disassembly(mem@, start, block_views(bs@)),
        r matches Err(e) ==> gather_failure(mem@, start, e),
{
    let mut queue: Vec<SegOfs> = Vec::new();
    queue.push(start);
    let mut head: usize = 0;
    let mut blocks: Vec<Block> = Vec::new();
    proof {
        assert(queue@[0] == start);
        lemma_reached_start(mem@, start);
        assert(block_views(blocks@) =~= Seq::<BlockV>::empty());
        lemma_weight_bound(block_views(blocks@));
        assert(queue@ =~= seq![start]);
        assert forall|f: nat|
            gather_run(mem@, Seq::empty(), seq![start], 0, f + 0) == #[trigger] gather_run(
                mem@,
                block_views(blocks@),
                queue@,
                0,
                f,
            ) by {
            assert(f + 0 == f);
        }
    }
    let ghost mut steps: nat = 0;
    while head < queue.len()
        invariant
            head <= queue@.len(),
            sorted_starts(block_views(blocks@)),
            forall|i: int|
                0 <= i < blocks@.len() ==> block_ok(mem@, #[trigger] block_views(blocks@)[i]),
            closed_upto(mem@, block_views(blocks@), queue@, head as int),
            forall|i: int| 0 <= i < queue@.len() ==> reached(mem@, start, #[trigger] queue@[i]),
            forall|i: int|
                0 <= i < blocks@.len() ==> reached(mem@, start, (#[trigger] block_views(blocks@)[i]).ip),
            covered(block_views(blocks@), queue@, head as int, start),
            splits_pending(block_views(blocks@), queue@, head as int),
            run_at(mem@, start, steps, block_views(blocks@), queue@, head as int),
            start_weight(block_views(blocks@)) < start_weight_bound(),
        decreases start_weight_bound() - start_weight(block_views(blocks@)), queue@.len() - head,
    {
        let ghost bv0 = block_views(blocks@);
        let ghost q0 = queue@;
        let ghost h0 = head as int;
        let ip = queue[head];
        head += 1;
        let found = last_start_at_or_before(&blocks, ip);
        let mut removed = false;
        let mut pos: usize = 0;
        let ghost mut j_removed: int = 0;
        let ghost found_j: Option<int> = match found {
            Some(j) => Some(j as int),
            None => None,
        };
        match found {
            Some(j) => {
                if blocks[j].ip == ip {
                    proof {
                        lemma_skip(mem@, start, bv0, q0, h0, j as int);
                        lemma_skip_splits(bv0, q0, h0, j as int);
                        assert(gather_step(mem@, bv0, q0, h0) == Ok::<(Seq<BlockV>, Seq<SegOfs>), DisError>((bv0, q0)));
                        lemma_run_advance(mem@, start, steps, bv0, q0, h0, bv0, q0);
                        steps = steps + 1;
                    }
                    continue;
                }
                assert(spec_key(blocks@[j as int].ip) < spec_key(ip)) by {
                    if spec_key(blocks@[j as int].ip) == spec_key(ip) {
                        lemma_key_injective(blocks@[j as int].ip, ip);
                    }
                }
                if blocks[j].instrs.len() == 0 {
                    proof {
                        assert(block_ok(mem@, bv0[j as int]));
                        assert(bv0[j as int].instrs.len() == 0);
                        assert(run_off(mem@, bv0[j as int].ip, 0) == 0);
                        assert(reached(mem@, start, q0[h0]));
                        assert(spec_key(bv0[j as int].ip) < spec_key(ip));
                        assert(gather_step(mem@, bv0, q0, h0) == Err::<(Seq<BlockV>, Seq<SegOfs>), DisError>(
                            DisError::EmptyBlock(bv0[j as int].ip),
                        ));
                        lemma_run_fail(mem@, start, steps, bv0, q0, h0, DisError::EmptyBlock(bv0[j as int].ip));
                    }
                    return Err(DisError::EmptyBlock(blocks[j].ip));
                }
                if blocks[j].contains_ip(ip) {
                    let baddr = blocks[j].ip;
                    blocks.remove(j);
                    queue.push(baddr);
                    removed = true;
                    pos = j;
                    proof {
                        j_removed = j as int;
                    }
                } else {
                    assert(j < blocks.len());
                    pos = j + 1;
                }
            },
            None => {},
        }
        let ghost bv1 = block_views(blocks@);
        let ghost q1 = queue@;
        assert(found_j matches Some(jj) ==> (removed <==> block_contains(bv0[jj], ip)));
        proof {
            if removed {
                assert(bv1 =~= bv0.remove(j_removed));
            } else {
                assert(bv1 =~= bv0);
            }
            lemma_insert_pos(bv0, ip, found_j, removed, bv1, pos as int);
        }
        assert(reached(mem@, start, ip));
        let res = gather_block(mem, ip, &blocks, &mut queue);
        let ghost rv = block_result_view(res);
        proof {
            lemma_step_exact(mem@, bv0, q0, h0, found_j, bv1, q1, removed, j_removed, pos as int, rv);
        }
        let b = match res {
            Ok(b) => b,
            Err(e) => {
                proof {
                    lemma_run_fail(mem@, start, steps, bv0, q0, h0, e);
                }
                return Err(e);
            },
        };
        let ghost newb = b@;
        blocks.insert(pos, b);
        proof {
            let bv2 = block_views(blocks@);
            let q2 = queue@;
            assert(bv2 =~= bv1.insert(pos as int, newb));
            assert(q2 =~= q1 + gathered_targets(ip, newb));
            lemma_step(mem@, start, bv0, q0, h0, bv1, q1, removed, j_removed, bv2, q2, pos as int, newb);
            // the set of starts grew: the start at `ip` came in, and only a
            // lower one may have gone
            assert(newb.ip == ip);
            lemma_weight_grows(bv0, bv1, bv2, removed, j_removed, pos as int, newb);
            lemma_step_reached(mem@, start, bv0, q0, bv1, q1, removed, j_removed, bv2, q2, pos as int, newb, ip);
            lemma_step_splits(mem@, bv0, q0, h0, found_j, bv1, q1, removed, j_removed, bv2, q2, pos as int, newb);
            lemma_run_advance(mem@, start, steps, bv0, q0, h0, bv2, q2);
            steps = steps + 1;
        }
    }
    proof {
        let bv = block_views(blocks@);
        lemma_run_done(mem@, start, steps, bv, queue@, head as int);
        assert forall|i: int, m: int|
            0 <= i < bv.len() && 0 <= m < successors(mem@, bv[i]).len() implies is_start(
            bv,
            #[trigger] successors(mem@, bv[i])[m],
        ) by {
            assert(covered(bv, queue@, head as int, successors(mem@, bv[i])[m]));
        }
        assert forall|i: int, k: int|
            0 <= i < bv.len() && 0 < k < bv[i].instrs.len() && block_contains(
                bv[i],
                #[trigger] instr_addr(bv[i], k),
            ) && instr_addr(bv[i], k) != bv[i].ip && is_start(bv, instr_addr(bv[i], k))
            implies exists|s: SegOfs|
            spec_key(bv[i].ip) < spec_key(s) < spec_key(instr_addr(bv[i], k)) && #[trigger] is_start(
                bv,
                s,
            ) by {
            let s = choose|s: SegOfs|
                spec_key(bv[i].ip) < spec_key(s) < spec_key(instr_addr(bv[i], k)) && #[trigger] covered(
                    bv,
                    queue@,
                    head as int,
                    s,
                );
            assert(is_start(bv, s));
        }
    }
    Ok(blocks)
}

// ---------------------------------------------------------------------------
// Byte coverage of a function.

/// The instructions of the blocks, one block after the other.
pub open spec fn flat_instrs(bs: Seq<BlockV>) -> Seq<InsnV>
    decreases bs.len(),
{
    if bs.len() == 0 {
        Seq::empty()
    } else {
        flat_instrs(bs.drop_last()) + bs.last().instrs.map_values(|i: InstrV| i.iced)
    }
}

/// Byte `x` (counted from the function's first byte) is covered after the
/// first `n` instructions: some instruction `k` spans it and every later one
/// ends after it (each instruction's end cuts the coverage record to its length).
pub open spec fn covered_byte(l: Seq<(int, int)>, n: int, x: int) -> bool {
    exists|k: int|
        0 <= k < n && #[trigger] l[k].0 <= x < l[k].1 && forall|j: int| k < j < n ==> x < (
        #[trigger] l[j]).1
}

pub open spec fn count_true(v: Seq<bool>) -> nat
    decreases v.len(),
{
    if v.len() == 0 {
        0
    } else {
        count_true(v.drop_last()) + if v.last() {
            1nat
        } else {
            0nat
        }
    }
}

/// The coverage record after the first `n` instructions: as long as the `n`-th
/// instruction's end.
pub open spec fn coverage(l: Seq<(int, int)>, n: int) -> Seq<bool> {
    if n == 0 {
        Seq::empty()
    } else {
        Seq::new(l[n - 1].1 as nat, |x: int| covered_byte(l, n, x))
    }
}

/// Start and end of each instruction relative to `start`.
pub open spec fn spans(is: Seq<InsnV>, start: int) -> Seq<(int, int)> {
    is.map_values(|i: InsnV| (i.ip - start, i.ip - start + i.len))
}

proof fn lemma_flat_step(bs: Seq<BlockV>, i: int, k: int)
    requires
        0 <= i < bs.len(),
        0 <= k < bs[i].instrs.len(),
    ensures
        flat_instrs(bs.take(i)) + bs[i].instrs.take(k + 1).map_values(|x: InstrV| x.iced)
            == (flat_instrs(bs.take(i)) + bs[i].instrs.take(k).map_values(|x: InstrV| x.iced)).push(
            bs[i].instrs[k].iced,
        ),
{
    assert(bs[i].instrs.take(k + 1).map_values(|x: InstrV| x.iced) =~= bs[i].instrs.take(k).map_values(
        |x: InstrV| x.iced,
    ).push(bs[i].instrs[k].iced));
}

proof fn lemma_flat_block(bs: Seq<BlockV>, i: int)
    requires
        0 <= i < bs.len(),
    ensures
        flat_instrs(bs.take(i + 1)) == flat_instrs(bs.take(i)) + bs[i].instrs.take(
            bs[i].instrs.len() as int,
        ).map_values(|x: InstrV| x.iced),
{
    assert(bs.take(i + 1).drop_last() =~= bs.take(i));
    assert(bs[i].instrs.take(bs[i].instrs.len() as int) =~= bs[i].instrs);
}

/// The IP and length of every instruction of the blocks, in order.
fn flatten(blocks: &Vec<Block>) -> (r: Vec<(u16, usize)>)
    ensures
        r@.len() == flat_instrs(block_views(blocks@)).len(),
        forall|k: int|
            0 <= k < r@.len() ==> (#[trigger] r@[k]) == (
                flat_instrs(block_views(blocks@))[k].ip,
                flat_instrs(block_views(blocks@))[k].len,
            ),
{
    let ghost bv = block_views(blocks@);
    let mut r: Vec<(u16, usize)> = Vec::new();
    let mut i: usize = 0;
    while i < blocks.len()
        invariant
            bv == block_views(blocks@),
            i <= blocks@.len(),
            r@.len() == flat_instrs(bv.take(i as int)).len(),
            forall|k: int|
                0 <= k < r@.len() ==> (#[trigger] r@[k]) == (
                    flat_instrs(bv.take(i as int))[k].ip,
                    flat_instrs(bv.take(i as int))[k].len,
                ),
        decreases blocks@.len() - i,
    {
        let mut k: usize = 0;
        let ghost f0 = flat_instrs(bv.take(i as int));
        assert(bv[i as int].instrs.take(0).map_values(|x: InstrV| x.iced) =~= Seq::<InsnV>::empty());
        assert(f0 + Seq::<InsnV>::empty() =~= f0);
        while k < blocks[i].instrs.len()
            invariant
                bv == block_views(blocks@),
                i < blocks@.len(),
                k <= blocks@[i as int].instrs@.len(),
                f0 == flat_instrs(bv.take(i as int)),
                r@.len() == (f0 + bv[i as int].instrs.take(k as int).map_values(|x: InstrV| x.iced)).len(),
                forall|m: int|
                    0 <= m < r@.len() ==> (#[trigger] r@[m]) == (
                        (f0 + bv[i as int].instrs.take(k as int).map_values(|x: InstrV| x.iced))[m].ip,
                        (f0 + bv[i as int].instrs.take(k as int).map_values(|x: InstrV| x.iced))[m].len,
                    ),
            decreases blocks@[i as int].instrs@.len() - k,
        {
            proof {
                lemma_flat_step(bv, i as int, k as int);
                assert(bv[i as int].instrs[k as int].iced == blocks@[i as int].instrs@[k as int].iced@);
            }
            r.push((blocks[i].instrs[k].iced.ip, blocks[i].instrs[k].iced.len));
            k += 1;
        }
        proof {
            lemma_flat_block(bv, i as int);
        }
        i += 1;
    }
    assert(bv.take(blocks@.len() as int) =~= bv);
    r
}

proof fn lemma_coverage_step(l: Seq<(int, int)>, n: int, old: Seq<bool>, new: Seq<bool>)
    requires
        0 <= n < l.len(),
        0 <= l[n].0 <= l[n].1,
        old == coverage(l, n),
        new.len() == l[n].1,
        forall|y: int| 0 <= y < new.len() ==> new[y] == ((l[n].0 <= y < l[n].1) || (y < old.len() && old[y])),
    ensures
        new == coverage(l, n + 1),
{
    assert forall|y: int| 0 <= y < new.len() implies new[y] == covered_byte(l, n + 1, y) by {
        if l[n].0 <= y < l[n].1 {
            assert(covered_byte(l, n + 1, y));
        }
        if covered_byte(l, n, y) {
            let k = choose|k: int|
                0 <= k < n && #[trigger] l[k].0 <= y < l[k].1 && forall|j: int| k < j < n ==> y < (
                #[trigger] l[j]).1;
            if k < n - 1 {
                assert(y < l[n - 1].1);
            }
            assert(y < old.len());
            assert(covered_byte(l, n + 1, y));
        }
        if covered_byte(l, n + 1, y) {
            let k = choose|k: int|
                0 <= k < n + 1 && #[trigger] l[k].0 <= y < l[k].1 && forall|j: int| k < j < n + 1 ==> y < (
                #[trigger] l[j]).1;
            if k < n {
                assert(covered_byte(l, n, y));
                if k < n - 1 {
                    assert(y < l[n - 1].1);
                }
                assert(old[y] == covered_byte(l, n, y));
            }
        }
        if y < old.len() && old[y] {
            assert(old[y] == covered_byte(l, n, y));
        }
    }
    assert(new =~= coverage(l, n + 1));
}

/// How many bytes from the function's first instruction on are covered by its
/// instructions, and how long the coverage record is.
pub fn check_coverage(func: &Function) -> (r: (usize, usize))
    requires
        func.blocks@.len() > 0,
        func.blocks@[0].instrs@.len() > 0,
        forall|k: int|
            0 <= k < flat_instrs(block_views(func.blocks@)).len() ==> func.blocks@[0].instrs@[0].iced.ip
                <= (#[trigger] flat_instrs(block_views(func.blocks@))[k]).ip,
        forall|k: int|
            0 <= k < flat_instrs(block_views(func.blocks@)).len() ==> (#[trigger] flat_instrs(
                block_views(func.blocks@),
            )[k]).ip + flat_instrs(block_views(func.blocks@))[k].len <= usize::MAX,
    ensures
        ({
            let is = flat_instrs(block_views(func.blocks@));
            let l = spans(is, func.blocks@[0].instrs@[0].iced.ip as int);
            &&& r.1 == coverage(l, l.len() as int).len()
            &&& r.0 == count_true(coverage(l, l.len() as int))
        }),
{
    let flat = flatten(&func.blocks);
    let start = func.blocks[0].instrs[0].iced.ip as usize;
    let ghost is = flat_instrs(block_views(func.blocks@));
    let ghost l = spans(is, start as int);
    let mut covered: Vec<bool> = Vec::new();
    let mut n: usize = 0;
    while n < flat.len()
        invariant
            n <= flat@.len(),
            flat@.len() == is.len(),
            l == spans(is, start as int),
            forall|k: int| 0 <= k < flat@.len() ==> (#[trigger] flat@[k]) == (is[k].ip, is[k].len),
            forall|k: int| 0 <= k < is.len() ==> start <= (#[trigger] is[k]).ip,
            forall|k: int| 0 <= k < is.len() ==> (#[trigger] is[k]).ip + is[k].len <= usize::MAX,
            start < 65536,
            covered@ == coverage(l, n as int),
        decreases flat@.len() - n,
    {
        let (ip, len) = flat[n];
        assert(is[n as int].ip == ip && is[n as int].len == len);
        let s = ip as usize - start;
        let e = s + len;
        let ghost old_cov = covered@;
        covered.resize(e, false);
        proof {
            assert forall|y: int| 0 <= y < e implies covered@[y] == (y < old_cov.len() && old_cov[y]) by {
                if y < old_cov.len() {
                    if e <= old_cov.len() {
                        assert(covered@[y] == old_cov.subrange(0, e as int)[y]);
                    } else {
                        assert(covered@[y] == covered@.subrange(0, old_cov.len() as int)[y]);
                    }
                }
            }
        }
        let mut x = s;
        while x < e
            invariant
                s <= x <= e,
                covered@.len() == e,
                forall|y: int| 0 <= y < s ==> #[trigger] covered@[y] == (y < old_cov.len() && old_cov[y]),
                forall|y: int| s <= y < x ==> #[trigger] covered@[y],
                forall|y: int| x <= y < e ==> #[trigger] covered@[y] == (y < old_cov.len() && old_cov[y]),
            decreases e - x,
        {
            let ghost before = covered@;
            covered.set(x, true);
            assert(covered@ == before.update(x as int, true));
            x += 1;
        }
        proof {
            lemma_coverage_step(l, n as int, old_cov, covered@);
        }
        n += 1;
    }
    let len = covered.len();
    let mut count: usize = 0;
    let mut y: usize = 0;
    while y < len
        invariant
            len == covered@.len(),
            y <= len,
            count == count_true(covered@.take(y as int)),
            count <= y,
        decreases len - y,
    {
        proof {
            assert(covered@.take(y + 1).drop_last() =~= covered@.take(y as int));
        }
        if covered[y] {
            count += 1;
        }
        y += 1;
    }
    assert(covered@.take(len as int) =~= covered@);
    (count, len)
}

/// Disassembles the function at `ip` and stores its blocks, adding the
/// function if the database has none at `ip`; returns its index.
pub fn dis_func(db: &mut DB, ip: SegOfs) -> (r: Result<usize, DisError>)
    requires
        old(db).wf(),
    ensures
        r is Err ==> *final(db) == *old(db),
        r matches Err(e) ==> gather_failure(old(db).mem@, ip, e) && gather_result(old(db).mem@, ip)
            == Err::<Seq<BlockV>, DisError>(e),
        r matches Ok(i) ==> {
            &&& final(db).wf()
            &&& i < final(db).functions@.len()
            &&& final(db).functions@[i as int].ip == ip
            &&& is_disassembly(old(db).mem@, ip, block_views(final(db).functions@[i as int].blocks@))
            &&& gather_result(old(db).mem@, ip) == Ok::<Seq<BlockV>, DisError>(
                block_views(final(db).functions@[i as int].blocks@),
            )
            &&& fn_map(final(db).functions@) == fn_map(old(db).functions@).insert(ip, final(db).functions@[i as int])
            &&& fn_map(old(db).functions@).contains_key(ip) ==> {
                let f0 = fn_map(old(db).functions@)[ip];
                let f = final(db).functions@[i as int];
                f.name == f0.name && f.desc == f0.desc && f.details == f0.details && f.xrefs
                    == f0.xrefs && f.callers == f0.callers && f.callees == f0.callees && f.params
                    == f0.params && f.ret == f0.ret
            }
            &&& !fn_map(old(db).functions@).contains_key(ip) ==> {
                let f = final(db).functions@[i as int];
                f.name is None && f.desc is None && f.details is None && f.xrefs is None
                    && f.callers is None && f.callees is None && f.params is None && f.ret is None
            }
            &&& final(db).mem == old(db).mem
            &&& final(db).exe == old(db).exe
            &&& final(db).memory == old(db).memory
        },
{
    let blocks = match gather(&db.mem, ip) {
        Ok(b) => b,
        Err(e) => {
            return Err(e);
        },
    };
    match db.find_function(ip) {
        Some(i) => {
            let ghost fs0 = db.functions@;
            proof {
                lemma_fn_map_at(fs0, i as int);
            }
            db.functions[i].blocks = blocks;
            proof {
                let fs1 = db.functions@;
                assert(fs1 =~= fs0.update(i as int, fs1[i as int]));
                assert forall|x: int, y: int| 0 <= x < y < fs1.len() implies spec_key(fs1[x].ip) < spec_key(fs1[y].ip) by {
                    assert(fs1[x].ip == fs0[x].ip && fs1[y].ip == fs0[y].ip);
                }
                lemma_fn_map_update(fs0, i as int, fs1[i as int]);
            }
            Ok(i)
        },
        None => {
            let mut f = Function::new(ip);
            f.blocks = blocks;
            proof {
                if fn_map(db.functions@).contains_key(ip) {
                    let k = choose|k: int| 0 <= k < db.functions@.len() && db.functions@[k].ip == ip;
                }
            }
            let i = db.insert_function(f);
            Ok(i)
        },
    }
}


/// Every jump that ends a block of a disassembly leads to blocks of it: a
/// direct far jump to the block at the selector and offset `far` it encodes,
/// a direct near jump to the block at its offset in the block's segment
/// (`near`), and a conditional jump also to the block at the instruction after
/// it (`next`).
pub proof fn lemma_jump_targets_start_blocks(
    mem: Seq<u8>,
    start: SegOfs,
    bv: Seq<BlockV>,
    i: int,
    far: SegOfs,
    near: SegOfs,
    next: SegOfs,
)
    requires
        is_disassembly(mem, start, bv),
        0 <= i < bv.len(),
        bv[i].instrs.len() > 0,
        ends_block(bv[i].instrs.last().iced.flow),
        bv[i].instrs.last().iced.flow != Flow::Return,
        far.seg == bv[i].instrs.last().iced.far_branch_selector,
        far.ofs == bv[i].instrs.last().iced.far_branch16,
        near.seg == bv[i].ip.seg,
        near.ofs == bv[i].instrs.last().iced.near_branch16,
        next.seg == bv[i].ip.seg,
        next.ofs == (bv[i].instrs.last().iced.ip as int + bv[i].instrs.last().iced.len as int) % 65536,
    ensures
        bv[i].instrs.last().iced.operands[0].kind == OpKind::FarBranch16 ==> is_start(bv, far),
        bv[i].instrs.last().iced.operands[0].kind == OpKind::NearBranch16 ==> is_start(bv, near),
        bv[i].instrs.last().iced.flow == Flow::ConditionalBranch ==> is_start(bv, next),
{
    let last = bv[i].instrs.last().iced;
    let succ = successors(mem, bv[i]);
    assert(block_ok(mem, bv[i]));
    assert(succ == branch_targets(bv[i].ip, last));
    if last.operands[0].kind == OpKind::FarBranch16 || last.operands[0].kind == OpKind::NearBranch16 {
        assert(is_start(bv, succ[0]));
    }
    if last.flow == Flow::ConditionalBranch {
        assert(is_start(bv, succ[succ.len() - 1]));
    }
}

} // verus!
