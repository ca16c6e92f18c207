//! The data the web interface serves: a function with its blocks, the labelled
//! memory, and an overview of the project, each as plain text fields.
use vstd::prelude::*;

use crate::db::{EXE, MemoryLocation, DB};
use crate::function::{Block, Function, Instr, Var};
use crate::segofs::{parse_segofs, segofs_text, SegOfs};
use crate::text::{chars_of, slice_range};
use crate::xref::{opt_string_clone, opt_view, xref_text, XRef, XRefV};

verus! {

/// A reference as the interface shows it: a display name and the target
/// address; an empty address marks a reference that is not to a function.
#[derive(Clone, Debug)]
pub struct XRefDetail(pub String, pub String);

/// The display name and address text of a reference.
pub open spec fn xref_detail_spec(x: XRefV) -> (Seq<char>, Seq<char>) {
    match x {
        XRefV::External(name, ip) => (
            match name {
                Some(n) => n,
                None => segofs_text(ip),
            },
            segofs_text(ip),
        ),
        XRefV::Block(Some(label), _) => (label, Seq::empty()),
        _ => (xref_text(x), Seq::empty()),
    }
}

pub open spec fn detail_view(d: XRefDetail) -> (Seq<char>, Seq<char>) {
    (d.0@, d.1@)
}

impl XRefDetail {
    /// The detail of a reference: an outside one shows its name (its address
    /// when unnamed) and its address; a labelled block shows its label; any
    /// other reference shows its text form.
    pub fn from(xref: &XRef) -> (r: XRefDetail)
        ensures
            detail_view(r) == xref_detail_spec(xref@),
    {
        match xref {
            XRef::External(name, ip) => {
                let ip = ip.to_string();
                let n = match name {
                    Some(n) => n.clone(),
                    None => ip.clone(),
                };
                XRefDetail(n, ip)
            },
            XRef::Block(Some(label), _) => XRefDetail(label.clone(), String::new()),
            _ => XRefDetail(xref.to_string(), String::new()),
        }
    }
}

/// The detail of a reference to a function, `None` for any other reference.
pub fn function_ref(xref: &XRef) -> (r: Option<XRefDetail>)
    ensures
        match xref@ {
            XRefV::External(_, _) => r matches Some(d) && detail_view(d) == xref_detail_spec(xref@),
            _ => r is None,
        },
{
    match xref {
        XRef::External(_, _) => Some(XRefDetail::from(xref)),
        _ => None,
    }
}

/// The details of the references to functions among `xs`, in order.
pub open spec fn function_refs_spec(xs: Seq<XRefV>) -> Seq<(Seq<char>, Seq<char>)>
    decreases xs.len(),
{
    if xs.len() == 0 {
        Seq::empty()
    } else {
        let rest = function_refs_spec(xs.drop_last());
        match xs.last() {
            XRefV::External(_, _) => rest.push(xref_detail_spec(xs.last())),
            _ => rest,
        }
    }
}

pub open spec fn details_view(ds: Seq<XRefDetail>) -> Seq<(Seq<char>, Seq<char>)> {
    ds.map_values(|d: XRefDetail| detail_view(d))
}

fn function_refs(xs: &Vec<XRef>) -> (r: Vec<XRefDetail>)
    ensures
        details_view(r@) == function_refs_spec(crate::xref::xref_views(xs@)),
{
    let ghost xv = crate::xref::xref_views(xs@);
    let mut out: Vec<XRefDetail> = Vec::new();
    let mut i: usize = 0;
    while i < xs.len()
        invariant
            i <= xs@.len(),
            xv == crate::xref::xref_views(xs@),
            details_view(out@) == function_refs_spec(xv.take(i as int)),
        decreases xs@.len() - i,
    {
        proof {
            assert(xv.take(i + 1).drop_last() =~= xv.take(i as int));
            assert(xv.take(i + 1).last() == xs@[i as int]@);
        }
        let ghost before = out@;
        match function_ref(&xs[i]) {
            Some(d) => {
                out.push(d);
                assert(details_view(out@) =~= details_view(before).push(detail_view(d)));
            },
            None => {},
        }
        i += 1;
    }
    assert(xv.take(xs@.len() as int) =~= xv);
    out
}

fn opt_function_refs(xs: &Option<Vec<XRef>>) -> (r: Option<Vec<XRefDetail>>)
    ensures
        match xs {
            Some(v) => r matches Some(d) && details_view(d@) == function_refs_spec(
                crate::xref::xref_views(v@),
            ),
            None => r is None,
        },
{
    match xs {
        Some(v) => Some(function_refs(v)),
        None => None,
    }
}

/// One instruction as the interface shows it.
#[derive(Clone, Debug)]
pub struct InstructionDetail {
    /// The address: the block's segment and the instruction's offset.
    pub ip: String,
    pub text: String,
    pub comment: Option<String>,
    pub label: Option<String>,
    pub jmp: Option<XRefDetail>,
}

/// One block as the interface shows it.
#[derive(Clone, Debug)]
pub struct BlockDetail {
    pub ip: String,
    pub instrs: Vec<InstructionDetail>,
}

/// A function as the interface shows it.
#[derive(Clone, Debug)]
pub struct FunctionDetail {
    pub ip: String,
    pub name: Option<String>,
    pub desc: Option<String>,
    pub details: Option<String>,
    pub callers: Option<Vec<XRefDetail>>,
    pub callees: Option<Vec<XRefDetail>>,
    pub params: Option<Vec<Var>>,
    pub ret: Option<Var>,
    pub blocks: Vec<BlockDetail>,
}

/// `d` shows instruction `i` of a block at segment `seg`.
pub open spec fn instruction_detail_of(seg: u16, i: Instr, d: InstructionDetail) -> bool {
    &&& d.ip@ == segofs_text(SegOfs { seg, ofs: i.iced.ip })
    &&& d.text@ == i.iced.text@
    &&& opt_view(d.comment) == opt_view(i.comment)
    &&& opt_view(d.label) == opt_view(i.label)
    &&& match i.jmp {
        Some(x) => d.jmp matches Some(j) && detail_view(j) == xref_detail_spec(x@),
        None => d.jmp is None,
    }
}

/// `d` shows block `b`.
pub open spec fn block_detail_of(b: Block, d: BlockDetail) -> bool {
    &&& d.ip@ == segofs_text(b.ip)
    &&& d.instrs@.len() == b.instrs@.len()
    &&& forall|k: int|
        0 <= k < b.instrs@.len() ==> instruction_detail_of(b.ip.seg, #[trigger] b.instrs@[k], d.instrs@[k])
}

pub open spec fn opt_var_view(v: Option<Var>) -> Option<crate::function::VarV> {
    match v {
        Some(v) => Some(v@),
        None => None,
    }
}

pub open spec fn vars_view(v: Seq<Var>) -> Seq<crate::function::VarV> {
    v.map_values(|x: Var| x@)
}

pub open spec fn opt_vars_view(v: Option<Vec<Var>>) -> Option<Seq<crate::function::VarV>> {
    match v {
        Some(v) => Some(vars_view(v@)),
        None => None,
    }
}

pub open spec fn opt_refs_view(v: Option<Vec<XRefDetail>>) -> Option<Seq<(Seq<char>, Seq<char>)>> {
    match v {
        Some(v) => Some(details_view(v@)),
        None => None,
    }
}

pub open spec fn opt_function_refs_spec(v: Option<Vec<XRef>>) -> Option<Seq<(Seq<char>, Seq<char>)>> {
    match v {
        Some(v) => Some(function_refs_spec(crate::xref::xref_views(v@))),
        None => None,
    }
}

/// `d` shows function `f`: its address, annotations, the references among its
/// callers and callees that are to functions, and its blocks.
pub open spec fn function_detail_of(f: Function, d: FunctionDetail) -> bool {
    &&& d.ip@ == segofs_text(f.ip)
    &&& opt_view(d.name) == opt_view(f.name)
    &&& opt_view(d.desc) == opt_view(f.desc)
    &&& opt_view(d.details) == opt_view(f.details)
    &&& opt_refs_view(d.callers) == opt_function_refs_spec(f.callers)
    &&& opt_refs_view(d.callees) == opt_function_refs_spec(f.callees)
    &&& opt_vars_view(d.params) == opt_vars_view(f.params)
    &&& opt_var_view(d.ret) == opt_var_view(f.ret)
    &&& d.blocks@.len() == f.blocks@.len()
    &&& forall|j: int| 0 <= j < f.blocks@.len() ==> block_detail_of(#[trigger] f.blocks@[j], d.blocks@[j])
}

impl Var {
    /// A copy with the same fields.
    pub fn copy(&self) -> (r: Var)
        ensures
            r@ == self@,
    {
        Var {
            name: self.name.clone(),
            value: self.value.clone(),
            typ: self.typ.clone(),
            desc: self.desc.clone(),
        }
    }
}

fn copy_vars(v: &Option<Vec<Var>>) -> (r: Option<Vec<Var>>)
    ensures
        opt_vars_view(r) == opt_vars_view(*v),
{
    match v {
        Some(v) => {
            let mut out: Vec<Var> = Vec::new();
            let mut i: usize = 0;
            while i < v.len()
                invariant
                    i <= v@.len(),
                    vars_view(out@) == vars_view(v@.take(i as int)),
                decreases v@.len() - i,
            {
                let ghost before = out@;
                let c = v[i].copy();
                out.push(c);
                assert(out@ =~= before.push(c));
                assert(v@.take(i + 1) =~= v@.take(i as int).push(v@[i as int]));
                assert(vars_view(out@) =~= vars_view(before).push(c@));
                assert(vars_view(v@.take(i + 1)) =~= vars_view(v@.take(i as int)).push(v@[i as int]@));
                i += 1;
            }
            assert(v@.take(v@.len() as int) =~= v@);
            Some(out)
        },
        None => None,
    }
}

fn copy_var(v: &Option<Var>) -> (r: Option<Var>)
    ensures
        opt_var_view(r) == opt_var_view(*v),
{
    match v {
        Some(v) => Some(v.copy()),
        None => None,
    }
}

fn instruction_detail(seg: u16, instr: &Instr) -> (r: InstructionDetail)
    ensures
        instruction_detail_of(seg, *instr, r),
{
    InstructionDetail {
        ip: SegOfs::new(seg, instr.iced.ip).to_string(),
        text: instr.iced.text.clone(),
        comment: opt_string_clone(&instr.comment),
        label: opt_string_clone(&instr.label),
        jmp: match &instr.jmp {
            Some(x) => Some(XRefDetail::from(x)),
            None => None,
        },
    }
}

fn block_detail(block: &Block) -> (r: BlockDetail)
    ensures
        block_detail_of(*block, r),
{
    let mut instrs: Vec<InstructionDetail> = Vec::new();
    let mut k: usize = 0;
    while k < block.instrs.len()
        invariant
            k <= block.instrs@.len(),
            instrs@.len() == k,
            forall|m: int|
                0 <= m < k ==> instruction_detail_of(block.ip.seg, #[trigger] block.instrs@[m], instrs@[m]),
        decreases block.instrs@.len() - k,
    {
        instrs.push(instruction_detail(block.ip.seg, &block.instrs[k]));
        k += 1;
    }
    BlockDetail { ip: block.ip.to_string(), instrs }
}

/// The function as the interface shows it.
pub fn function_detail(func: &Function) -> (r: FunctionDetail)
    ensures
        function_detail_of(*func, r),
{
    let mut blocks: Vec<BlockDetail> = Vec::new();
    let mut j: usize = 0;
    while j < func.blocks.len()
        invariant
            j <= func.blocks@.len(),
            blocks@.len() == j,
            forall|m: int| 0 <= m < j ==> block_detail_of(#[trigger] func.blocks@[m], blocks@[m]),
        decreases func.blocks@.len() - j,
    {
        blocks.push(block_detail(&func.blocks[j]));
        j += 1;
    }
    FunctionDetail {
        ip: func.ip.to_string(),
        name: opt_string_clone(&func.name),
        desc: opt_string_clone(&func.desc),
        details: opt_string_clone(&func.details),
        callers: opt_function_refs(&func.callers),
        callees: opt_function_refs(&func.callees),
        params: copy_vars(&func.params),
        ret: copy_var(&func.ret),
        blocks,
    }
}

/// A labelled memory location as the interface shows it.
#[derive(Clone, Debug)]
pub struct MemoryEntry {
    pub addr: String,
    pub name: String,
    pub desc: String,
    pub typ: String,
}

/// The labelled memory, in address order.
#[derive(Clone, Debug)]
pub struct MemoryDetail {
    pub entries: Vec<MemoryEntry>,
}

pub open spec fn memory_entry_of(e: (SegOfs, MemoryLocation), d: MemoryEntry) -> bool {
    &&& d.addr@ == segofs_text(e.0)
    &&& d.name@ == e.1.name@
    &&& d.desc@ == e.1.desc@
    &&& d.typ@ == e.1.typ@
}

/// The labelled memory of the database, entry by entry in its order.
pub fn memory_detail(db: &DB) -> (r: MemoryDetail)
    ensures
        r.entries@.len() == db.memory.entries@.len(),
        forall|i: int|
            0 <= i < db.memory.entries@.len() ==> memory_entry_of(
                #[trigger] db.memory.entries@[i],
                r.entries@[i],
            ),
{
    let mut entries: Vec<MemoryEntry> = Vec::new();
    let mut i: usize = 0;
    while i < db.memory.entries.len()
        invariant
            i <= db.memory.entries@.len(),
            entries@.len() == i,
            forall|k: int| 0 <= k < i ==> memory_entry_of(#[trigger] db.memory.entries@[k], entries@[k]),
        decreases db.memory.entries@.len() - i,
    {
        let e = &db.memory.entries[i];
        entries.push(
            MemoryEntry {
                addr: e.0.to_string(),
                name: e.1.name.clone(),
                desc: e.1.desc.clone(),
                typ: e.1.typ.clone(),
            },
        );
        i += 1;
    }
    MemoryDetail { entries }
}

/// A function in the overview: its address and annotations.
#[derive(Clone, Debug)]
pub struct FunctionOverview {
    pub ip: SegOfs,
    pub name: Option<String>,
    pub desc: Option<String>,
}

/// The overview of the project: memory size, executable, functions.
#[derive(Clone, Debug)]
pub struct Overview {
    pub mem_size: usize,
    pub exe: EXE,
    pub functions: Vec<FunctionOverview>,
}

pub open spec fn function_overview_of(f: Function, o: FunctionOverview) -> bool {
    &&& o.ip == f.ip
    &&& opt_view(o.name) == opt_view(f.name)
    &&& opt_view(o.desc) == opt_view(f.desc)
}

impl EXE {
    /// A copy with the same fields.
    pub fn copy(&self) -> (r: EXE)
        ensures
            r.filename@ == self.filename@,
            r.entry_point == self.entry_point,
    {
        EXE { filename: self.filename.clone(), entry_point: self.entry_point }
    }
}

/// The overview: the size of the memory image, the executable, and each
/// function in address order.
pub fn overview(db: &DB) -> (r: Overview)
    ensures
        r.mem_size == db.mem@.len(),
        r.exe.filename@ == db.exe.filename@,
        r.exe.entry_point == db.exe.entry_point,
        r.functions@.len() == db.functions@.len(),
        forall|i: int|
            0 <= i < db.functions@.len() ==> function_overview_of(#[trigger] db.functions@[i], r.functions@[i]),
{
    let mut functions: Vec<FunctionOverview> = Vec::new();
    let mut i: usize = 0;
    while i < db.functions.len()
        invariant
            i <= db.functions@.len(),
            functions@.len() == i,
            forall|k: int| 0 <= k < i ==> function_overview_of(#[trigger] db.functions@[k], functions@[k]),
        decreases db.functions@.len() - i,
    {
        let f = &db.functions[i];
        functions.push(
            FunctionOverview {
                ip: f.ip,
                name: opt_string_clone(&f.name),
                desc: opt_string_clone(&f.desc),
            },
        );
        i += 1;
    }
    Overview { mem_size: db.mem.len(), exe: db.exe.copy(), functions }
}

/// Why a request for a function was refused.
#[derive(Clone, Copy, Debug, PartialEq, Eq, Structural)]
pub enum LookupError {
    /// The path is not `ssss:oooo.json`.
    BadRequest,
    /// No function starts at the address.
    NotFound,
}

pub open spec fn json_suffix() -> Seq<char> {
    seq!['.', 'j', 's', 'o', 'n']
}

/// The function a request path `ssss:oooo.json` asks for.
pub open spec fn lookup_spec(fs: Seq<Function>, path: Seq<char>) -> Result<SegOfs, LookupError> {
    if path.len() >= 5 && path.skip(path.len() - 5) == json_suffix() {
        match parse_segofs(path.take(path.len() - 5)) {
            Ok(a) => if exists|i: int| 0 <= i < fs.len() && fs[i].ip == a {
                Ok(a)
            } else {
                Err(LookupError::NotFound)
            },
            Err(_) => Err(LookupError::BadRequest),
        }
    } else {
        Err(LookupError::BadRequest)
    }
}

/// The index of the function that a request path `ssss:oooo.json` asks for.
pub fn lookup_function(db: &DB, path: &str) -> (r: Result<usize, LookupError>)
    requires
        db.wf(),
    ensures
        match lookup_spec(db.functions@, path@) {
            Ok(a) => r matches Ok(i) && i < db.functions@.len() && db.functions@[i as int].ip == a,
            Err(e) => r == Err::<usize, LookupError>(e),
        },
{
    let s = chars_of(path);
    let n = s.len();
    if n < 5 || s[n - 5] != '.' || s[n - 4] != 'j' || s[n - 3] != 's' || s[n - 2] != 'o' || s[n - 1] != 'n' {
        proof {
            if n >= 5 && s@.skip(n - 5) == json_suffix() {
                assert(s@.skip(n - 5)[0] == s@[n - 5]);
                assert(s@.skip(n - 5)[1] == s@[n - 4]);
                assert(s@.skip(n - 5)[2] == s@[n - 3]);
                assert(s@.skip(n - 5)[3] == s@[n - 2]);
                assert(s@.skip(n - 5)[4] == s@[n - 1]);
            }
        }
        return Err(LookupError::BadRequest);
    }
    assert(s@.skip(n - 5) =~= json_suffix());
    let head = slice_range(&s, 0, n - 5);
    assert(head@ =~= s@.take(n - 5));
    match SegOfs::parse_chars(&head) {
        Ok(a) => match db.find_function(a) {
            Some(i) => Ok(i),
            None => Err(LookupError::NotFound),
        },
        Err(_) => Err(LookupError::BadRequest),
    }
}

} // verus!
