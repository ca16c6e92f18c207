//! Work for the language model: which function to annotate or which memory
//! location to label next, and what to make of its answers.
use vstd::prelude::*;

use crate::db::{has_entry, MemoryLocation, DB};
use crate::function::{Block, Function};
use crate::segofs::{segofs_text, SegOfs};
use crate::text::{chars_of, string_from_chars};

pub mod annotate_function;
pub mod comments;
pub mod label_memory;

verus! {

/// A piece of work for the language model.
#[derive(Clone, Copy, Debug, PartialEq, Eq, Structural)]
pub enum Task {
    /// Name and describe the function at this address.
    AnnotateFunction(SegOfs),
    /// Name and describe the memory at this address.
    LabelMemory(SegOfs),
}

/// What a task is, in words.
pub open spec fn task_desc(t: Task) -> Seq<char> {
    match t {
        Task::AnnotateFunction(ip) => "annotate function "@ + segofs_text(ip),
        Task::LabelMemory(addr) => "label memory "@ + segofs_text(addr),
    }
}

impl Task {
    /// `annotate function ssss:oooo` or `label memory ssss:oooo`.
    pub fn desc(&self) -> (r: String)
        ensures
            r@ == task_desc(*self),
    {
        let (mut v, a) = match self {
            Task::AnnotateFunction(ip) => (chars_of("annotate function "), *ip),
            Task::LabelMemory(addr) => (chars_of("label memory "), *addr),
        };
        a.push_text(&mut v);
        string_from_chars(&v)
    }
}

/// The first address, in instruction order, that an instruction of `is`
/// touches and that no memory entry of `es` labels.
pub open spec fn first_unlabelled_instr(is: Seq<crate::function::Instr>, es: Seq<(SegOfs, MemoryLocation)>) -> Option<SegOfs>
    decreases is.len(),
{
    if is.len() == 0 {
        None
    } else {
        match is[0].memory {
            Some(Ok(a)) => if !has_entry(es, a) {
                Some(a)
            } else {
                first_unlabelled_instr(is.drop_first(), es)
            },
            _ => first_unlabelled_instr(is.drop_first(), es),
        }
    }
}

/// The first unlabelled address touched in the blocks `bs`, block by block.
pub open spec fn first_unlabelled(bs: Seq<Block>, es: Seq<(SegOfs, MemoryLocation)>) -> Option<SegOfs>
    decreases bs.len(),
{
    if bs.len() == 0 {
        None
    } else {
        match first_unlabelled_instr(bs[0].instrs@, es) {
            Some(a) => Some(a),
            None => first_unlabelled(bs.drop_first(), es),
        }
    }
}

/// The next task, going through the functions in address order: a function
/// without a description is to be annotated; otherwise the first address its
/// instructions touch that has no memory entry is to be labelled.
pub open spec fn queued(fs: Seq<Function>, es: Seq<(SegOfs, MemoryLocation)>) -> Option<Task>
    decreases fs.len(),
{
    if fs.len() == 0 {
        None
    } else if fs[0].desc is None {
        Some(Task::AnnotateFunction(fs[0].ip))
    } else {
        match first_unlabelled(fs[0].blocks@, es) {
            Some(a) => Some(Task::LabelMemory(a)),
            None => queued(fs.drop_first(), es),
        }
    }
}

fn first_unlabelled_in_block(db: &DB, b: &Block) -> (r: Option<SegOfs>)
    ensures
        r == first_unlabelled_instr(b.instrs@, db.memory.entries@),
{
    let mut k: usize = 0;
    assert(b.instrs@.skip(0) =~= b.instrs@);
    while k < b.instrs.len()
        invariant
            k <= b.instrs@.len(),
            first_unlabelled_instr(b.instrs@, db.memory.entries@) == first_unlabelled_instr(
                b.instrs@.skip(k as int),
                db.memory.entries@,
            ),
        decreases b.instrs@.len() - k,
    {
        let ghost t = b.instrs@.skip(k as int);
        assert(t.drop_first() =~= b.instrs@.skip(k + 1));
        assert(t[0] == b.instrs@[k as int]);
        match &b.instrs[k].memory {
            Some(Ok(a)) => {
                if !db.has_memory_entry(*a) {
                    return Some(*a);
                }
            },
            _ => {},
        }
        k += 1;
    }
    None
}

fn first_unlabelled_in_function(db: &DB, f: &Function) -> (r: Option<SegOfs>)
    ensures
        r == first_unlabelled(f.blocks@, db.memory.entries@),
{
    let mut j: usize = 0;
    assert(f.blocks@.skip(0) =~= f.blocks@);
    while j < f.blocks.len()
        invariant
            j <= f.blocks@.len(),
            first_unlabelled(f.blocks@, db.memory.entries@) == first_unlabelled(
                f.blocks@.skip(j as int),
                db.memory.entries@,
            ),
        decreases f.blocks@.len() - j,
    {
        let ghost t = f.blocks@.skip(j as int);
        assert(t.drop_first() =~= f.blocks@.skip(j + 1));
        assert(t[0] == f.blocks@[j as int]);
        match first_unlabelled_in_block(db, &f.blocks[j]) {
            Some(a) => {
                return Some(a);
            },
            None => {},
        }
        j += 1;
    }
    None
}

/// The next task for the language model, if any is left.
pub fn next_queued(db: &DB) -> (r: Option<Task>)
    ensures
        r == queued(db.functions@, db.memory.entries@),
{
    let mut i: usize = 0;
    assert(db.functions@.skip(0) =~= db.functions@);
    while i < db.functions.len()
        invariant
            i <= db.functions@.len(),
            queued(db.functions@, db.memory.entries@) == queued(
                db.functions@.skip(i as int),
                db.memory.entries@,
            ),
        decreases db.functions@.len() - i,
    {
        let ghost t = db.functions@.skip(i as int);
        assert(t.drop_first() =~= db.functions@.skip(i + 1));
        assert(t[0] == db.functions@[i as int]);
        let f = &db.functions[i];
        if f.desc.is_none() {
            return Some(Task::AnnotateFunction(f.ip));
        }
        match first_unlabelled_in_function(db, f) {
            Some(a) => {
                return Some(Task::LabelMemory(a));
            },
            None => {},
        }
        i += 1;
    }
    None
}


/// The queue runs dry only when there is nothing left to do: the next task is
/// `None` exactly when every function has a description and every memory
/// address its instructions touch is labelled. In particular a function with
/// no description always yields a task.
pub proof fn lemma_queued_none_iff_done(fs: Seq<Function>, es: Seq<(SegOfs, MemoryLocation)>)
    ensures
        queued(fs, es) is None <==> forall|j: int|
            0 <= j < fs.len() ==> (#[trigger] fs[j]).desc is Some && first_unlabelled(fs[j].blocks@, es)
                is None,
    decreases fs.len(),
{
    if fs.len() > 0 {
        lemma_queued_none_iff_done(fs.drop_first(), es);
        let t = fs.drop_first();
        if queued(fs, es) is None {
            assert forall|j: int| 0 <= j < fs.len() implies (#[trigger] fs[j]).desc is Some
                && first_unlabelled(fs[j].blocks@, es) is None by {
                if j > 0 {
                    assert(fs[j] == t[j - 1]);
                }
            }
        } else {
            if fs[0].desc is Some && first_unlabelled(fs[0].blocks@, es) is None {
                let j = choose|j: int|
                    0 <= j < t.len() && !((#[trigger] t[j]).desc is Some && first_unlabelled(
                        t[j].blocks@,
                        es,
                    ) is None);
                assert(fs[j + 1] == t[j]);
            }
        }
    }
}

/// A function with no description makes the queue give a task.
pub proof fn lemma_undescribed_gives_task(fs: Seq<Function>, es: Seq<(SegOfs, MemoryLocation)>, k: int)
    requires
        0 <= k < fs.len(),
        fs[k].desc is None,
    ensures
        queued(fs, es) is Some,
{
    lemma_queued_none_iff_done(fs, es);
    assert(!(fs[k].desc is Some));
}


/// The task the queue gives is one that is due: annotating a function that
/// has no description, every function before it having one; or labelling an
/// address that a described function's instructions touch and that is not
/// labelled.
pub proof fn lemma_queued_task_is_due(fs: Seq<Function>, es: Seq<(SegOfs, MemoryLocation)>)
    ensures
        queued(fs, es) matches Some(Task::AnnotateFunction(a)) ==> exists|j: int|
            0 <= j < fs.len() && (#[trigger] fs[j]).ip == a && fs[j].desc is None && forall|k: int|
                0 <= k < j ==> (#[trigger] fs[k]).desc is Some,
        queued(fs, es) matches Some(Task::LabelMemory(a)) ==> exists|j: int|
            0 <= j < fs.len() && (#[trigger] fs[j]).desc is Some && first_unlabelled(fs[j].blocks@, es)
                == Some(a),
    decreases fs.len(),
{
    if fs.len() > 0 {
        let t = fs.drop_first();
        lemma_queued_task_is_due(t, es);
        if fs[0].desc is None {
            assert(fs[0].ip == fs[0].ip);
        } else if first_unlabelled(fs[0].blocks@, es) is Some {
        } else {
            match queued(t, es) {
                Some(Task::AnnotateFunction(a)) => {
                    let j = choose|j: int|
                        0 <= j < t.len() && (#[trigger] t[j]).ip == a && t[j].desc is None && forall|k: int|
                            0 <= k < j ==> (#[trigger] t[k]).desc is Some;
                    assert(fs[j + 1] == t[j]);
                    assert forall|k: int| 0 <= k < j + 1 implies (#[trigger] fs[k]).desc is Some by {
                        if k > 0 {
                            assert(fs[k] == t[k - 1]);
                        }
                    }
                },
                Some(Task::LabelMemory(a)) => {
                    let j = choose|j: int|
                        0 <= j < t.len() && (#[trigger] t[j]).desc is Some && first_unlabelled(
                            t[j].blocks@,
                            es,
                        ) == Some(a);
                    assert(fs[j + 1] == t[j]);
                },
                _ => {},
            }
        }
    }
}

} // verus!
