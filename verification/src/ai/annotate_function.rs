//! Taking in the language model's annotation of a function: its name,
//! descriptions, parameters, return value, labels and comments.
use vstd::prelude::*;

use crate::function::{Block, Function, Instr, Var};
use crate::segofs::{parse_segofs, SegOfs, SegOfsError};
use crate::web::{opt_var_view, opt_vars_view, vars_view};
use crate::xref::opt_view;

verus! {

/// A text about the instruction at an address.
#[derive(Clone, Debug)]
pub struct Annotation {
    pub addr: String,
    pub text: String,
}

/// What the model answers about a function.
#[derive(Clone, Debug)]
pub struct Response {
    /// Short function name, a guess at what the function does.
    pub name: String,
    /// One-line summary of what the function is for.
    pub desc: String,
    /// Two or three sentences about the function.
    pub details: String,
    /// Parameters, in registers or on the stack.
    pub parameters: Vec<Var>,
    /// Return value, if any.
    pub ret: Option<Var>,
    /// Labels for the targets of local jumps.
    pub labels: Vec<Annotation>,
    /// Comments on what an instruction or the following code does.
    pub inline_comments: Vec<Annotation>,
}

/// Why an annotation could not be taken in.
#[derive(Clone, Debug)]
pub enum MergeError {
    /// The annotation's address text does not parse.
    BadAddr(String, SegOfsError),
    /// A label is for an address with no instruction.
    LabelOnNonexistent(SegOfs),
    /// A comment is for an address with no instruction.
    CommentOnNonexistent(SegOfs),
}

pub enum MergeErrorV {
    BadAddr(Seq<char>, SegOfsError),
    LabelOnNonexistent(SegOfs),
    CommentOnNonexistent(SegOfs),
}

impl View for MergeError {
    type V = MergeErrorV;

    open spec fn view(&self) -> MergeErrorV {
        match self {
            MergeError::BadAddr(s, e) => MergeErrorV::BadAddr(s@, *e),
            MergeError::LabelOnNonexistent(a) => MergeErrorV::LabelOnNonexistent(*a),
            MergeError::CommentOnNonexistent(a) => MergeErrorV::CommentOnNonexistent(*a),
        }
    }
}

impl Annotation {
    /// The annotation's address and text.
    pub fn parse(self) -> (r: Result<(SegOfs, String), MergeError>)
        ensures
            match parse_segofs(self.addr@) {
                Ok(a) => r matches Ok((b, t)) && b == a && t@ == self.text@,
                Err(e) => r matches Err(f) && f@ == MergeErrorV::BadAddr(self.addr@, e),
            },
    {
        match SegOfs::parse(self.addr.as_str()) {
            Ok(a) => Ok((a, self.text)),
            Err(e) => Err(MergeError::BadAddr(self.addr, e)),
        }
    }
}

/// The address of an instruction of a function at `ip`: the function's
/// segment and the instruction's offset.
pub open spec fn instr_addr_in(ip: SegOfs, i: Instr) -> SegOfs {
    SegOfs { seg: ip.seg, ofs: i.iced.ip }
}

/// Whether some instruction of the blocks is at `a`.
pub open spec fn has_instr_at(ip: SegOfs, bs: Seq<Block>, a: SegOfs) -> bool {
    exists|j: int, k: int|
        0 <= j < bs.len() && 0 <= k < bs[j].instrs@.len() && #[trigger] instr_addr_in(ip, bs[j].instrs@[k]) == a
}

/// Whether an instruction after position `(j, k)`, block by block, is at the
/// same address as the one there.
pub open spec fn later_at_same(ip: SegOfs, bs: Seq<Block>, j: int, k: int) -> bool {
    exists|j2: int, k2: int|
        #![trigger bs[j2].instrs@[k2]]
        (j2 > j || (j2 == j && k2 > k)) && 0 <= j2 < bs.len() && 0 <= k2 < bs[j2].instrs@.len()
            && instr_addr_in(ip, bs[j2].instrs@[k2]) == instr_addr_in(ip, bs[j].instrs@[k])
}

/// Why annotation `a` cannot be taken in, if it cannot: its address does
/// not parse, or no instruction is there.
pub open spec fn ann_error(ip: SegOfs, bs: Seq<Block>, a: Annotation, label: bool) -> Option<MergeErrorV> {
    match parse_segofs(a.addr@) {
        Err(e) => Some(MergeErrorV::BadAddr(a.addr@, e)),
        Ok(x) => if !has_instr_at(ip, bs, x) {
            Some(
                if label {
                    MergeErrorV::LabelOnNonexistent(x)
                } else {
                    MergeErrorV::CommentOnNonexistent(x)
                },
            )
        } else {
            None
        },
    }
}

/// How many annotations at the front of `anns` can be taken in, up to the
/// first that cannot.
pub open spec fn good_prefix(ip: SegOfs, bs: Seq<Block>, anns: Seq<Annotation>, label: bool) -> nat
    decreases anns.len(),
{
    if anns.len() == 0 {
        0
    } else if ann_error(ip, bs, anns[0], label) is Some {
        0
    } else {
        1 + good_prefix(ip, bs, anns.drop_first(), label)
    }
}

/// The annotations before the first refused one are taken in; that one is refused.
proof fn lemma_good_prefix(ip: SegOfs, bs: Seq<Block>, anns: Seq<Annotation>, label: bool)
    ensures
        good_prefix(ip, bs, anns, label) <= anns.len(),
        good_prefix(ip, bs, anns, label) < anns.len() ==> ann_error(
            ip,
            bs,
            anns[good_prefix(ip, bs, anns, label) as int],
            label,
        ) is Some,
    decreases anns.len(),
{
    if anns.len() > 0 && ann_error(ip, bs, anns[0], label) is None {
        lemma_good_prefix(ip, bs, anns.drop_first(), label);
        let g = good_prefix(ip, bs, anns.drop_first(), label);
        if g < anns.drop_first().len() {
            assert(anns[g as int + 1] == anns.drop_first()[g as int]);
        }
    }
}

/// The text of the last annotation of `anns` for address `a`.
pub open spec fn last_text_for(anns: Seq<Annotation>, a: SegOfs) -> Option<Seq<char>>
    decreases anns.len(),
{
    if anns.len() == 0 {
        None
    } else if parse_segofs(anns.last().addr@) == Ok::<SegOfs, SegOfsError>(a) {
        Some(anns.last().text@)
    } else {
        last_text_for(anns.drop_last(), a)
    }
}

/// `f1` is `f0` with the response taken in as far as its first `nl` labels
/// and first `nc` comments: name, descriptions, parameters (none when the list
/// is empty) and return value replaced; every label and comment replaced by
/// the last of those for the instruction's address, given to the last
/// instruction at that address only.
pub open spec fn merged_upto(f0: Function, r: Response, f1: Function, nl: int, nc: int) -> bool {
    &&& opt_view(f1.name) == Some(r.name@)
    &&& opt_view(f1.desc) == Some(r.desc@)
    &&& opt_view(f1.details) == Some(r.details@)
    &&& opt_vars_view(f1.params) == (if r.parameters@.len() == 0 {
        None
    } else {
        Some(vars_view(r.parameters@))
    })
    &&& opt_var_view(f1.ret) == opt_var_view(r.ret)
    &&& f1.ip == f0.ip
    &&& f1.xrefs == f0.xrefs
    &&& f1.callers == f0.callers
    &&& f1.callees == f0.callees
    &&& f1.blocks@.len() == f0.blocks@.len()
    &&& forall|j: int|
        0 <= j < f0.blocks@.len() ==> {
            &&& (#[trigger] f1.blocks@[j]).ip == f0.blocks@[j].ip
            &&& f1.blocks@[j].instrs@.len() == f0.blocks@[j].instrs@.len()
        }
    &&& forall|j: int, k: int|
        0 <= j < f0.blocks@.len() && 0 <= k < f0.blocks@[j].instrs@.len() ==> {
            let i0 = f0.blocks@[j].instrs@[k];
            let i1 = #[trigger] f1.blocks@[j].instrs@[k];
            let a = instr_addr_in(f0.ip, i0);
            let last = !later_at_same(f0.ip, f0.blocks@, j, k);
            &&& i1.jmp == i0.jmp
            &&& i1.memory == i0.memory
            &&& i1.iced == i0.iced
            &&& opt_view(i1.label) == (if last {
                last_text_for(r.labels@.take(nl), a)
            } else {
                None
            })
            &&& opt_view(i1.comment) == (if last {
                last_text_for(r.inline_comments@.take(nc), a)
            } else {
                None
            })
        }
}

pub open spec fn opt_merge_error_view(e: Option<MergeError>) -> Option<MergeErrorV> {
    match e {
        Some(e) => Some(e@),
        None => None,
    }
}

fn instr_at(ip: SegOfs, bs: &Vec<Block>, a: SegOfs) -> (r: bool)
    ensures
        r == has_instr_at(ip, bs@, a),
{
    let mut j: usize = 0;
    while j < bs.len()
        invariant
            j <= bs@.len(),
            forall|j2: int, k2: int|
                0 <= j2 < j && 0 <= k2 < bs@[j2].instrs@.len() ==> #[trigger] instr_addr_in(
                    ip,
                    bs@[j2].instrs@[k2],
                ) != a,
        decreases bs@.len() - j,
    {
        let mut k: usize = 0;
        while k < bs[j].instrs.len()
            invariant
                j < bs@.len(),
                k <= bs@[j as int].instrs@.len(),
                forall|j2: int, k2: int|
                    0 <= j2 < j && 0 <= k2 < bs@[j2].instrs@.len() ==> #[trigger] instr_addr_in(
                        ip,
                        bs@[j2].instrs@[k2],
                    ) != a,
                forall|k2: int| 0 <= k2 < k ==> #[trigger] instr_addr_in(ip, bs@[j as int].instrs@[k2]) != a,
            decreases bs@[j as int].instrs@.len() - k,
        {
            if ip.seg == a.seg && bs[j].instrs[k].iced.ip == a.ofs {
                assert(instr_addr_in(ip, bs@[j as int].instrs@[k as int]) == a);
                return true;
            }
            k += 1;
        }
        j += 1;
    }
    false
}

fn check_annotations(ip: SegOfs, bs: &Vec<Block>, anns: &Vec<Annotation>, label: bool) -> (r: (
    usize,
    Option<MergeError>,
))
    ensures
        r.0 == good_prefix(ip, bs@, anns@, label),
        r.0 <= anns@.len(),
        r.0 < anns@.len() ==> opt_merge_error_view(r.1) == ann_error(ip, bs@, anns@[r.0 as int], label),
        r.0 == anns@.len() ==> r.1 is None,
{
    let mut i: usize = 0;
    assert(anns@.skip(0) =~= anns@);
    while i < anns.len()
        invariant
            i <= anns@.len(),
            good_prefix(ip, bs@, anns@, label) == i + good_prefix(ip, bs@, anns@.skip(i as int), label),
        decreases anns@.len() - i,
    {
        let ghost t = anns@.skip(i as int);
        assert(t.drop_first() =~= anns@.skip(i + 1));
        assert(t[0] == anns@[i as int]);
        match SegOfs::parse(anns[i].addr.as_str()) {
            Err(e) => {
                return (i, Some(MergeError::BadAddr(anns[i].addr.clone(), e)));
            },
            Ok(a) => {
                if !instr_at(ip, bs, a) {
                    if label {
                        return (i, Some(MergeError::LabelOnNonexistent(a)));
                    } else {
                        return (i, Some(MergeError::CommentOnNonexistent(a)));
                    }
                }
            },
        }
        i += 1;
    }
    assert(anns@.skip(i as int) =~= Seq::<Annotation>::empty());
    (i, None)
}

fn later_same(ip: SegOfs, bs: &Vec<Block>, j: usize, k: usize) -> (r: bool)
    requires
        j < bs@.len(),
        k < bs@[j as int].instrs@.len(),
    ensures
        r == later_at_same(ip, bs@, j as int, k as int),
{
    let a = bs[j].instrs[k].iced.ip;
    let len = bs[j].instrs.len();
    assert(k < len);
    let mut j2: usize = j;
    let mut k2: usize = k + 1;
    while j2 < bs.len()
        invariant
            j <= j2,
            j < bs@.len(),
            k < bs@[j as int].instrs@.len(),
            j2 == j ==> k2 == k + 1,
            j2 > j ==> k2 == 0,
            a == bs@[j as int].instrs@[k as int].iced.ip,
            forall|x: int, y: int|
                #![trigger bs@[x].instrs@[y]]
                (x > j || (x == j && y > k)) && (x < j2) && 0 <= x < bs@.len() && 0 <= y
                    < bs@[x].instrs@.len() ==> instr_addr_in(ip, bs@[x].instrs@[y]) != instr_addr_in(
                    ip,
                    bs@[j as int].instrs@[k as int],
                ),
        decreases bs@.len() - j2,
    {
        let mut y = k2;
        while y < bs[j2].instrs.len()
            invariant
                j <= j2 < bs@.len(),
                j < bs@.len(),
                k < bs@[j as int].instrs@.len(),
                j2 == j ==> k + 1 <= y,
                k2 <= y,
                j2 == j ==> k2 == k + 1,
                j2 > j ==> k2 == 0,
                a == bs@[j as int].instrs@[k as int].iced.ip,
                forall|x: int, z: int|
                    #![trigger bs@[x].instrs@[z]]
                    (x > j || (x == j && z > k)) && (x < j2) && 0 <= x < bs@.len() && 0 <= z
                        < bs@[x].instrs@.len() ==> instr_addr_in(ip, bs@[x].instrs@[z]) != instr_addr_in(
                        ip,
                        bs@[j as int].instrs@[k as int],
                    ),
                forall|z: int|
                    k2 <= z < y ==> instr_addr_in(ip, #[trigger] bs@[j2 as int].instrs@[z])
                        != instr_addr_in(ip, bs@[j as int].instrs@[k as int]),
            decreases bs@[j2 as int].instrs@.len() - y,
        {
            if bs[j2].instrs[y].iced.ip == a {
                assert(instr_addr_in(ip, bs@[j2 as int].instrs@[y as int]) == instr_addr_in(ip, bs@[j as int].instrs@[k as int]));
                return true;
            }
            y += 1;
        }
        j2 += 1;
        k2 = 0;
    }
    false
}

fn last_text(anns: &Vec<Annotation>, upto: usize, a: SegOfs) -> (r: Option<String>)
    requires
        upto <= anns@.len(),
    ensures
        opt_view(r) == last_text_for(anns@.take(upto as int), a),
{
    let mut n = upto;
    while n > 0
        invariant
            n <= upto <= anns@.len(),
            last_text_for(anns@.take(upto as int), a) == last_text_for(anns@.take(n as int), a),
        decreases n,
    {
        let ghost t = anns@.take(n as int);
        assert(t.drop_last() =~= anns@.take(n - 1));
        assert(t.last() == anns@[n - 1]);
        match SegOfs::parse(anns[n - 1].addr.as_str()) {
            Ok(b) => {
                if b == a {
                    return Some(anns[n - 1].text.clone());
                }
            },
            Err(_) => {},
        }
        n -= 1;
    }
    None
}

/// The new label and comment of instruction `i` at position `(j, k)`.
pub open spec fn update_of(
    f0: Function,
    r: Response,
    nl: int,
    nc: int,
    j: int,
    k: int,
    u: (Option<String>, Option<String>),
) -> bool {
    let i0 = f0.blocks@[j].instrs@[k];
    let a = instr_addr_in(f0.ip, i0);
    let last = !later_at_same(f0.ip, f0.blocks@, j, k);
    &&& opt_view(u.0) == (if last {
        last_text_for(r.labels@.take(nl), a)
    } else {
        None
    })
    &&& opt_view(u.1) == (if last {
        last_text_for(r.inline_comments@.take(nc), a)
    } else {
        None
    })
}

fn block_updates(f: &Function, r: &Response, nl: usize, nc: usize, j: usize) -> (u: Vec<(Option<String>, Option<String>)>)
    requires
        j < f.blocks@.len(),
        nl <= r.labels@.len(),
        nc <= r.inline_comments@.len(),
    ensures
        u@.len() == f.blocks@[j as int].instrs@.len(),
        forall|k: int| 0 <= k < u@.len() ==> update_of(*f, *r, nl as int, nc as int, j as int, k, #[trigger] u@[k]),
{
    let mut u: Vec<(Option<String>, Option<String>)> = Vec::new();
    let mut k: usize = 0;
    while k < f.blocks[j].instrs.len()
        invariant
            j < f.blocks@.len(),
            k <= f.blocks@[j as int].instrs@.len(),
            u@.len() == k,
            nl <= r.labels@.len(),
            nc <= r.inline_comments@.len(),
            forall|m: int| 0 <= m < k ==> update_of(*f, *r, nl as int, nc as int, j as int, m, #[trigger] u@[m]),
        decreases f.blocks@[j as int].instrs@.len() - k,
    {
        let a = f.ip.with_ofs(f.blocks[j].instrs[k].iced.ip);
        if later_same(f.ip, &f.blocks, j, k) {
            u.push((None, None));
        } else {
            let l = last_text(&r.labels, nl, a);
            let c = last_text(&r.inline_comments, nc, a);
            u.push((l, c));
        }
        k += 1;
    }
    u
}

/// Takes the model's answer about `func` in: its name, descriptions,
/// parameters (none for an empty list) and return value replace the function's;
/// every label and comment is dropped, and each label and comment of the
/// answer goes to the last instruction at its address, a later one for the
/// same address replacing an earlier one. The labels are taken in first, then
/// the comments; at the first one whose address does not parse, or has no
/// instruction, the function keeps what was taken in before it and the
/// annotation is refused.
pub fn merge(func: &mut Function, response: Response) -> (r: Result<(), MergeError>)
    ensures
        ({
            let nl = good_prefix(old(func).ip, old(func).blocks@, response.labels@, true);
            let nc = good_prefix(old(func).ip, old(func).blocks@, response.inline_comments@, false);
            if nl < response.labels@.len() {
                &&& r matches Err(x) && Some(x@) == ann_error(
                    old(func).ip,
                    old(func).blocks@,
                    response.labels@[nl as int],
                    true,
                )
                &&& merged_upto(*old(func), response, *final(func), nl as int, 0)
            } else if nc < response.inline_comments@.len() {
                &&& r matches Err(x) && Some(x@) == ann_error(
                    old(func).ip,
                    old(func).blocks@,
                    response.inline_comments@[nc as int],
                    false,
                )
                &&& merged_upto(*old(func), response, *final(func), nl as int, nc as int)
            } else {
                &&& r is Ok
                &&& merged_upto(*old(func), response, *final(func), nl as int, nc as int)
            }
        }),
{
    proof {
        lemma_good_prefix(func.ip, func.blocks@, response.labels@, true);
        lemma_good_prefix(func.ip, func.blocks@, response.inline_comments@, false);
    }
    let (nl, el) = check_annotations(func.ip, &func.blocks, &response.labels, true);
    let (nc0, ec) = check_annotations(func.ip, &func.blocks, &response.inline_comments, false);
    let nc = if nl < response.labels.len() {
        0
    } else {
        nc0
    };
    let ghost f0 = *func;
    let mut updates: Vec<Vec<(Option<String>, Option<String>)>> = Vec::new();
    let mut j: usize = 0;
    while j < func.blocks.len()
        invariant
            *func == f0,
            j <= f0.blocks@.len(),
            updates@.len() == j,
            forall|m: int| 0 <= m < j ==> (#[trigger] updates@[m])@.len() == f0.blocks@[m].instrs@.len(),
            forall|m: int, k: int|
                0 <= m < j && 0 <= k < updates@[m]@.len() ==> update_of(f0, response, nl as int, nc as int, m, k, #[trigger] updates@[m]@[k]),
            nl <= response.labels@.len(),
            nc <= response.inline_comments@.len(),
        decreases f0.blocks@.len() - j,
    {
        let u = block_updates(func, &response, nl, nc, j);
        updates.push(u);
        j += 1;
    }
    let mut j: usize = 0;
    while j < func.blocks.len()
        invariant
            j <= f0.blocks@.len(),
            func.blocks@.len() == f0.blocks@.len(),
            func.ip == f0.ip,
            func.name == f0.name,
            func.desc == f0.desc,
            func.details == f0.details,
            func.xrefs == f0.xrefs,
            func.callers == f0.callers,
            func.callees == f0.callees,
            func.params == f0.params,
            func.ret == f0.ret,
            updates@.len() == f0.blocks@.len(),
            forall|m: int| 0 <= m < f0.blocks@.len() ==> (#[trigger] updates@[m])@.len() == f0.blocks@[m].instrs@.len(),
            forall|m: int, k: int|
                0 <= m < f0.blocks@.len() && 0 <= k < updates@[m]@.len() ==> update_of(f0, response, nl as int, nc as int, m, k, #[trigger] updates@[m]@[k]),
            forall|m: int|
                0 <= m < f0.blocks@.len() ==> {
                    &&& (#[trigger] func.blocks@[m]).ip == f0.blocks@[m].ip
                    &&& func.blocks@[m].instrs@.len() == f0.blocks@[m].instrs@.len()
                },
            forall|m: int, k: int|
                j <= m < f0.blocks@.len() && 0 <= k < f0.blocks@[m].instrs@.len() ==> #[trigger] func.blocks@[m].instrs@[k] == f0.blocks@[m].instrs@[k],
            forall|m: int, k: int|
                0 <= m < j && 0 <= k < f0.blocks@[m].instrs@.len() ==> {
                    let i0 = f0.blocks@[m].instrs@[k];
                    let i1 = #[trigger] func.blocks@[m].instrs@[k];
                    &&& i1.jmp == i0.jmp
                    &&& i1.memory == i0.memory
                    &&& i1.iced == i0.iced
                    &&& opt_view(i1.label) == opt_view(updates@[m]@[k].0)
                    &&& opt_view(i1.comment) == opt_view(updates@[m]@[k].1)
                },
        decreases f0.blocks@.len() - j,
    {
        let mut k: usize = 0;
        while k < func.blocks[j].instrs.len()
            invariant
                j < f0.blocks@.len(),
                k <= f0.blocks@[j as int].instrs@.len(),
                func.blocks@.len() == f0.blocks@.len(),
                func.ip == f0.ip,
                func.name == f0.name,
                func.desc == f0.desc,
                func.details == f0.details,
                func.xrefs == f0.xrefs,
                func.callers == f0.callers,
                func.callees == f0.callees,
                func.params == f0.params,
                func.ret == f0.ret,
                updates@.len() == f0.blocks@.len(),
                forall|m: int| 0 <= m < f0.blocks@.len() ==> (#[trigger] updates@[m])@.len() == f0.blocks@[m].instrs@.len(),
                forall|m: int|
                    0 <= m < f0.blocks@.len() ==> {
                        &&& (#[trigger] func.blocks@[m]).ip == f0.blocks@[m].ip
                        &&& func.blocks@[m].instrs@.len() == f0.blocks@[m].instrs@.len()
                    },
                forall|m: int, x: int|
                    j < m < f0.blocks@.len() && 0 <= x < f0.blocks@[m].instrs@.len() ==> #[trigger] func.blocks@[m].instrs@[x] == f0.blocks@[m].instrs@[x],
                forall|x: int|
                    k <= x < f0.blocks@[j as int].instrs@.len() ==> #[trigger] func.blocks@[j as int].instrs@[x] == f0.blocks@[j as int].instrs@[x],
                forall|m: int, x: int|
                    0 <= m < j && 0 <= x < f0.blocks@[m].instrs@.len() ==> {
                        let i0 = f0.blocks@[m].instrs@[x];
                        let i1 = #[trigger] func.blocks@[m].instrs@[x];
                        &&& i1.jmp == i0.jmp
                        &&& i1.memory == i0.memory
                        &&& i1.iced == i0.iced
                        &&& opt_view(i1.label) == opt_view(updates@[m]@[x].0)
                        &&& opt_view(i1.comment) == opt_view(updates@[m]@[x].1)
                    },
                forall|x: int|
                    0 <= x < k ==> {
                        let i0 = f0.blocks@[j as int].instrs@[x];
                        let i1 = #[trigger] func.blocks@[j as int].instrs@[x];
                        &&& i1.jmp == i0.jmp
                        &&& i1.memory == i0.memory
                        &&& i1.iced == i0.iced
                        &&& opt_view(i1.label) == opt_view(updates@[j as int]@[x].0)
                        &&& opt_view(i1.comment) == opt_view(updates@[j as int]@[x].1)
                    },
            decreases f0.blocks@[j as int].instrs@.len() - k,
        {
            let l = crate::xref::opt_string_clone(&updates[j][k].0);
            let c = crate::xref::opt_string_clone(&updates[j][k].1);
            func.blocks[j].instrs[k].label = l;
            func.blocks[j].instrs[k].comment = c;
            k += 1;
        }
        j += 1;
    }
    func.name = Some(response.name);
    func.desc = Some(response.desc);
    func.details = Some(response.details);
    func.params = if response.parameters.len() == 0 {
        None
    } else {
        Some(response.parameters)
    };
    func.ret = response.ret;
    assert(merged_upto(f0, response, *func, nl as int, nc as int));
    let err = if nl < response.labels.len() {
        el
    } else {
        ec
    };
    match err {
        Some(e) => Err(e),
        None => Ok(()),
    }
}

} // verus!
