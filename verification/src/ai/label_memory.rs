//! Labelling a memory location with the language model's help: which
//! functions use it, the tool that lets the model read a function, the token
//! count, and when to stop asking.
use vstd::prelude::*;

use crate::db::DB;
use crate::function::{Block, Function, Instr};
use crate::segofs::{parse_segofs, segofs_text, SegOfs};
use crate::text::string_from_chars;

verus! {

/// The number of instructions of `is` that touch `addr`.
pub open spec fn uses_in_instrs(is: Seq<Instr>, addr: SegOfs) -> nat
    decreases is.len(),
{
    if is.len() == 0 {
        0
    } else {
        uses_in_instrs(is.drop_last(), addr) + if is.last().memory matches Some(Ok(a)) && a == addr {
            1nat
        } else {
            0nat
        }
    }
}

/// The number of instructions of the blocks that touch `addr`.
pub open spec fn uses_in_blocks(bs: Seq<Block>, addr: SegOfs) -> nat
    decreases bs.len(),
{
    if bs.len() == 0 {
        0
    } else {
        uses_in_blocks(bs.drop_last(), addr) + uses_in_instrs(bs.last().instrs@, addr)
    }
}

/// The address of each function once for each of its instructions that
/// touches `addr`, in order.
pub open spec fn users(fs: Seq<Function>, addr: SegOfs) -> Seq<SegOfs>
    decreases fs.len(),
{
    if fs.len() == 0 {
        Seq::empty()
    } else {
        users(fs.drop_last(), addr) + Seq::new(uses_in_blocks(fs.last().blocks@, addr), |_i: int| fs.last().ip)
    }
}

/// The functions that use the memory at `addr`: a function's address for each
/// of its instructions that touches `addr`.
pub fn functions_using(db: &DB, addr: SegOfs) -> (r: Vec<SegOfs>)
    ensures
        r@ == users(db.functions@, addr),
{
    let ghost fs = db.functions@;
    let mut out: Vec<SegOfs> = Vec::new();
    let mut i: usize = 0;
    assert(fs.take(0) =~= Seq::<Function>::empty());
    while i < db.functions.len()
        invariant
            fs == db.functions@,
            i <= fs.len(),
            out@ == users(fs.take(i as int), addr),
        decreases fs.len() - i,
    {
        let f = &db.functions[i];
        let ghost base = out@;
        let mut j: usize = 0;
        assert(f.blocks@.take(0) =~= Seq::<Block>::empty());
        while j < f.blocks.len()
            invariant
                j <= f.blocks@.len(),
                out@ =~= base + Seq::new(uses_in_blocks(f.blocks@.take(j as int), addr), |_i: int| f.ip),
            decreases f.blocks@.len() - j,
        {
            let b = &f.blocks[j];
            let ghost mid = out@;
            let mut k: usize = 0;
            assert(b.instrs@.take(0) =~= Seq::<Instr>::empty());
            while k < b.instrs.len()
                invariant
                    k <= b.instrs@.len(),
                    out@ =~= mid + Seq::new(uses_in_instrs(b.instrs@.take(k as int), addr), |_i: int| f.ip),
                decreases b.instrs@.len() - k,
            {
                assert(b.instrs@.take(k + 1).drop_last() =~= b.instrs@.take(k as int));
                assert(b.instrs@.take(k + 1).last() == b.instrs@[k as int]);
                match &b.instrs[k].memory {
                    Some(Ok(a)) => {
                        if *a == addr {
                            out.push(f.ip);
                        }
                    },
                    _ => {},
                }
                k += 1;
            }
            assert(b.instrs@.take(k as int) =~= b.instrs@);
            assert(f.blocks@.take(j + 1).drop_last() =~= f.blocks@.take(j as int));
            assert(f.blocks@.take(j + 1).last() == f.blocks@[j as int]);
            j += 1;
        }
        assert(f.blocks@.take(j as int) =~= f.blocks@);
        assert(fs.take(i + 1).drop_last() =~= fs.take(i as int));
        assert(fs.take(i + 1).last() == fs[i as int]);
        i += 1;
    }
    assert(fs.take(i as int) =~= fs);
    out
}

/// Addresses separated by `, `.
pub open spec fn address_list(ips: Seq<SegOfs>) -> Seq<char>
    decreases ips.len(),
{
    if ips.len() == 0 {
        Seq::empty()
    } else if ips.len() == 1 {
        segofs_text(ips[0])
    } else {
        address_list(ips.drop_last()) + seq![',', ' '] + segofs_text(ips.last())
    }
}

/// The addresses as the prompt lists them: `ssss:oooo, ssss:oooo, ...`.
pub fn function_list(ips: &Vec<SegOfs>) -> (r: String)
    ensures
        r@ == address_list(ips@),
{
    let mut v: Vec<char> = Vec::new();
    let mut i: usize = 0;
    assert(ips@.take(0) =~= Seq::<SegOfs>::empty());
    while i < ips.len()
        invariant
            i <= ips@.len(),
            v@ == address_list(ips@.take(i as int)),
        decreases ips@.len() - i,
    {
        assert(ips@.take(i + 1).drop_last() =~= ips@.take(i as int));
        assert(ips@.take(i + 1).last() == ips@[i as int]);
        if i > 0 {
            v.push(',');
            v.push(' ');
        }
        ips[i].push_text(&mut v);
        proof {
            if i == 0 {
                assert(v@ =~= segofs_text(ips@[0]));
                assert(ips@.take(1)[0] == ips@[0]);
            } else {
                assert(v@ =~= address_list(ips@.take(i as int)) + seq![',', ' '] + segofs_text(ips@[i as int]));
            }
        }
        i += 1;
    }
    assert(ips@.take(i as int) =~= ips@);
    string_from_chars(&v)
}

/// The model's request to read a function.
#[derive(Clone, Debug)]
pub struct GetFunctionParams {
    /// Address of the function to get.
    pub addr: String,
}

/// Why the tool could not give the model a function.
#[derive(Clone, Debug)]
pub enum ToolError {
    /// The address does not parse; holds the text.
    BadAddress(String),
    /// No function starts at the address.
    UnknownFunction(SegOfs),
}

impl GetFunctionParams {
    /// The index of the function the model asks for.
    pub fn call(db: &DB, params: &GetFunctionParams) -> (r: Result<usize, ToolError>)
        requires
            db.wf(),
        ensures
            match parse_segofs(params.addr@) {
                Err(_) => r matches Err(ToolError::BadAddress(s)) && s@ == params.addr@,
                Ok(a) => if exists|i: int| 0 <= i < db.functions@.len() && db.functions@[i].ip == a {
                    r matches Ok(i) && i < db.functions@.len() && db.functions@[i as int].ip == a
                } else {
                    r matches Err(ToolError::UnknownFunction(b)) && b == a
                },
            },
    {
        match SegOfs::parse(params.addr.as_str()) {
            Err(_) => Err(ToolError::BadAddress(params.addr.clone())),
            Ok(a) => match db.find_function(a) {
                Some(i) => Ok(i),
                None => Err(ToolError::UnknownFunction(a)),
            },
        }
    }
}

/// The tokens used so far in a conversation.
#[derive(Clone, Copy, Debug, Default)]
pub struct Usage {
    pub prompt: u32,
    pub completion: u32,
    pub total: u32,
}

impl Usage {
    /// Counts a reply: its prompt tokens add up; the completion and total
    /// counts are the reply's own.
    pub fn add(&mut self, prompt_tokens: u32, completion_tokens: u32, total_tokens: u32)
        requires
            old(self).prompt + prompt_tokens <= u32::MAX,
        ensures
            final(self).prompt == old(self).prompt + prompt_tokens,
            final(self).completion == completion_tokens,
            final(self).total == total_tokens,
    {
        self.prompt = self.prompt + prompt_tokens;
        self.completion = completion_tokens;
        self.total = total_tokens;
    }
}

/// How many replies the model gets to come to an answer.
pub const AGENT_TURNS: u32 = 20;

/// Why the model stopped a reply.
#[derive(Clone, Copy, Debug, PartialEq, Eq, Structural)]
pub enum Finish {
    /// It asked for tools to be called.
    ToolCalls,
    /// It is done.
    Stop,
    /// Anything else.
    Other,
}

/// What to do after a reply.
#[derive(Clone, Copy, Debug, PartialEq, Eq, Structural)]
pub enum AgentStep {
    /// The reply's content is the answer.
    Done,
    /// Ask the model again.
    Continue,
    /// No answer within the turn limit.
    GiveUp,
}

/// After the reply of turn `turn` (counting from zero): a reply that stops
/// with content is the answer; otherwise the model is asked again, unless that
/// was the last turn.
pub fn agent_step(turn: u32, finish: Option<Finish>, has_content: bool) -> (r: AgentStep)
    requires
        turn < AGENT_TURNS,
        finish != Some(Finish::Other),
    ensures
        r == (if finish == Some(Finish::Stop) && has_content {
            AgentStep::Done
        } else if turn + 1 >= AGENT_TURNS {
            AgentStep::GiveUp
        } else {
            AgentStep::Continue
        }),
{
    let stop = match finish {
        Some(Finish::Stop) => true,
        _ => false,
    };
    if stop && has_content {
        AgentStep::Done
    } else if turn + 1 >= AGENT_TURNS {
        AgentStep::GiveUp
    } else {
        AgentStep::Continue
    }
}

} // verus!
