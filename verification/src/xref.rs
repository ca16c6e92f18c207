//! Cross references from an instruction to a jump or call target, and their
//! text form (`name@ssss:oooo`, `ssss:oooo`, `'label@3`, `'3`).
use vstd::prelude::*;

use crate::segofs::{
    lemma_segofs_round_trip, lemma_segofs_text_shape, parse_segofs, segofs_error_text,
    segofs_text, SegOfs, SegOfsError,
};
use crate::function::{block_views, opt_xref_view, Block, BlockV, Function, InstrV};
use crate::db::{fn_names, fns_sorted, DB};
use crate::segofs::spec_key;
use crate::insn::{Flow, InsnV, OpKind};
use crate::order::{
    chars_compare, chars_lt, ext_lt, lemma_chars_lt_irrefl, lemma_ext_lt_irrefl, lemma_ext_lt_total,
    lemma_ext_lt_trans,
};
use crate::text::{
    chars_of, debug_quoted, dec_chars, dec_string, first_index, str_debug, usize_error_str,
    usize_error_text, lemma_first_index, lemma_first_index_unique,
    lemma_parse_usize_dec_string, parse_usize, parse_usize_chars, slice_range, split_once,
    split_once_char, string_from_chars, strip_prefix,
};

verus! {

/// Where a jump or call goes.
#[derive(Clone, Debug, PartialEq, Eq, Hash, PartialOrd, Ord)]
pub enum XRef {
    /// Another function (or an unknown target), by optional name and address.
    External(Option<String>, SegOfs),
    /// A block of the same function, by optional label and block index.
    Block(Option<String>, usize),
}

/// The mathematical value of an [`XRef`]: names as character sequences.
pub enum XRefV {
    External(Option<Seq<char>>, SegOfs),
    Block(Option<Seq<char>>, usize),
}

pub open spec fn opt_view(o: Option<String>) -> Option<Seq<char>> {
    match o {
        Some(s) => Some(s@),
        None => None,
    }
}

impl View for XRef {
    type V = XRefV;

    open spec fn view(&self) -> XRefV {
        match self {
            XRef::External(name, ip) => XRefV::External(opt_view(*name), *ip),
            XRef::Block(label, idx) => XRefV::Block(opt_view(*label), *idx),
        }
    }
}

/// Why an xref text was refused.
#[derive(Clone, Copy, Debug, PartialEq, Eq, Structural)]
pub enum XRefError {
    /// A block reference (`'...`) whose index is not a `usize`.
    BadBlockIndex,
    /// An external reference whose address is not `segment:offset`.
    BadAddress(SegOfsError),
}

/// The message `FromStr` gives for `s` when it refuses it with `e`: for a block
/// reference, `xref {s:?}: ` and the message of `usize::from_str`'s error on the
/// index; for an external one, the address's error.
pub open spec fn xref_error_text(s: Seq<char>, e: XRefError) -> Seq<char> {
    match e {
        XRefError::BadBlockIndex => "xref "@ + str_debug(s) + ": "@ + usize_error_text(
            split_name(s.drop_first()).1,
        ),
        XRefError::BadAddress(a) => segofs_error_text(a),
    }
}

impl XRefError {
    /// The message for this error, which `FromStr` gave for `s`.
    pub fn message(&self, s: &str) -> (r: String)
        requires
            parse_xref(s@) == Err::<XRefV, XRefError>(*self),
        ensures
            r@ == xref_error_text(s@, *self),
    {
        match self {
            XRefError::BadBlockIndex => {
                let v = chars_of(s);
                let local = slice_range(&v, 1, v.len());
                assert(local@ =~= s@.drop_first());
                let (_, block) = split_name_chars(&local);
                let text = usize_error_str(&block);
                let q = debug_quoted(s);
                let mut out = chars_of("xref ");
                let qc = chars_of(q.as_str());
                out.extend_from_slice(&qc);
                let sep = chars_of(": ");
                out.extend_from_slice(&sep);
                let tc = chars_of(text);
                out.extend_from_slice(&tc);
                string_from_chars(&out)
            },
            XRefError::BadAddress(e) => {
                let m = chars_of(e.message());
                string_from_chars(&m)
            },
        }
    }
}

/// The text form of an xref (what `Display` writes).
pub open spec fn xref_text(x: XRefV) -> Seq<char> {
    match x {
        XRefV::External(None, ip) => segofs_text(ip),
        XRefV::External(Some(name), ip) => name + seq!['@'] + segofs_text(ip),
        XRefV::Block(None, idx) => seq!['\''] + dec_string(idx as nat),
        XRefV::Block(Some(label), idx) => seq!['\''] + label + seq!['@'] + dec_string(idx as nat),
    }
}

/// Splits `s` at its first `@` into an optional name and the rest.
pub open spec fn split_name(s: Seq<char>) -> (Option<Seq<char>>, Seq<char>) {
    match split_once(s, '@') {
        Some((name, rest)) => (Some(name), rest),
        None => (None, s),
    }
}

/// The meaning of an xref text (what `FromStr` reads): a leading `'` marks a
/// block reference `'[label@]index`, anything else is `[name@]ssss:oooo`.
pub open spec fn parse_xref(s: Seq<char>) -> Result<XRefV, XRefError> {
    match strip_prefix(s, '\'') {
        Some(local) => {
            let (label, block) = split_name(local);
            match parse_usize(block) {
                Some(idx) => Ok(XRefV::Block(label, idx)),
                None => Err(XRefError::BadBlockIndex),
            }
        },
        None => {
            let (name, ip) = split_name(s);
            match parse_segofs(ip) {
                Ok(ip) => Ok(XRefV::External(name, ip)),
                Err(e) => Err(XRefError::BadAddress(e)),
            }
        },
    }
}

/// Names that the text form can carry unambiguously: no `@` in any name, and
/// no external name that starts with `'`.
pub open spec fn xref_names_ok(x: XRefV) -> bool {
    match x {
        XRefV::External(Some(name), _) => !name.contains('@') && (name.len() == 0 || name[0]
            != '\''),
        XRefV::Block(Some(label), _) => !label.contains('@'),
        _ => true,
    }
}

pub fn opt_string_clone(o: &Option<String>) -> (r: Option<String>)
    ensures
        opt_view(r) == opt_view(*o),
{
    match o {
        Some(s) => Some(s.clone()),
        None => None,
    }
}

impl XRef {
    /// Appends the text form to `out`.
    pub fn push_text(&self, out: &mut Vec<char>)
        ensures
            final(out)@ == old(out)@ + xref_text(self@),
    {
        match self {
            XRef::External(None, ip) => {
                ip.push_text(out);
            },
            XRef::External(Some(name), ip) => {
                let n = chars_of(name.as_str());
                out.extend_from_slice(&n);
                out.push('@');
                ip.push_text(out);
            },
            XRef::Block(None, idx) => {
                out.push('\'');
                let d = dec_chars(*idx);
                out.extend_from_slice(&d);
            },
            XRef::Block(Some(label), idx) => {
                out.push('\'');
                let n = chars_of(label.as_str());
                out.extend_from_slice(&n);
                out.push('@');
                let d = dec_chars(*idx);
                out.extend_from_slice(&d);
            },
        }
        assert(out@ =~= old(out)@ + xref_text(self@));
    }

    /// The text form, as `Display` writes it.
    pub fn to_string(&self) -> (r: String)
        ensures
            r@ == xref_text(self@),
    {
        let mut v: Vec<char> = Vec::new();
        self.push_text(&mut v);
        assert(v@ =~= xref_text(self@));
        string_from_chars(&v)
    }

    /// Parses the text form, as `FromStr` does.
    pub fn from_str(s: &str) -> (r: Result<XRef, XRefError>)
        ensures
            match (r, parse_xref(s@)) {
                (Ok(x), Ok(v)) => x@ == v,
                (Err(e), Err(f)) => e == f,
                _ => false,
            },
    {
        let v = chars_of(s);
        Self::from_chars(&v)
    }

    pub fn from_chars(s: &[char]) -> (r: Result<XRef, XRefError>)
        ensures
            match (r, parse_xref(s@)) {
                (Ok(x), Ok(v)) => x@ == v,
                (Err(e), Err(f)) => e == f,
                _ => false,
            },
    {
        if s.len() > 0 && s[0] == '\'' {
            let local = slice_range(s, 1, s.len());
            assert(local@ =~= s@.drop_first());
            let (label, block) = split_name_chars(&local);
            match parse_usize_chars(&block) {
                Some(idx) => Ok(XRef::Block(label, idx)),
                None => Err(XRefError::BadBlockIndex),
            }
        } else {
            let (name, ip) = split_name_chars(s);
            match SegOfs::parse_chars(&ip) {
                Ok(ip) => Ok(XRef::External(name, ip)),
                Err(e) => Err(XRefError::BadAddress(e)),
            }
        }
    }
}

fn split_name_chars(s: &[char]) -> (r: (Option<String>, Vec<char>))
    ensures
        opt_view(r.0) == split_name(s@).0,
        r.1@ == split_name(s@).1,
{
    match split_once_char(s, '@') {
        Some((name, rest)) => (Some(string_from_chars(&name)), rest),
        None => (None, slice_range(s, 0, s.len())),
    }
}

proof fn lemma_split_name_at(s: Seq<char>, name: Seq<char>, rest: Seq<char>)
    requires
        s == name + seq!['@'] + rest,
        !name.contains('@'),
    ensures
        split_name(s) == (Some(name), rest),
{
    assert forall|j: int| 0 <= j < name.len() implies s[j] != '@' by {
        assert(s[j] == name[j]);
    }
    lemma_first_index_unique(s, '@', name.len() as int);
    assert(s.take(name.len() as int) =~= name);
    assert(s.skip(name.len() as int + 1) =~= rest);
}

proof fn lemma_split_name_none(s: Seq<char>)
    requires
        !s.contains('@'),
    ensures
        split_name(s) == (None::<Seq<char>>, s),
{
    lemma_first_index(s, '@');
    match crate::text::first_index(s, '@') {
        Some(i) => {
            assert(s[i] == '@');
        },
        None => {},
    }
}

proof fn lemma_dec_string_no_at(n: nat)
    ensures
        !dec_string(n).contains('@'),
{
    crate::text::lemma_dec_string(n);
    let s = dec_string(n);
    if s.contains('@') {
        let i = choose|i: int| 0 <= i < s.len() && s[i] == '@';
        assert(crate::text::is_dec_digit(s[i]));
    }
}

/// Printing an xref and parsing the text gives back the same xref, provided
/// its names avoid `@` (and an external name does not start with `'`).
pub proof fn lemma_xref_round_trip(x: XRefV)
    requires
        xref_names_ok(x),
    ensures
        parse_xref(xref_text(x)) == Ok::<XRefV, XRefError>(x),
{
    let s = xref_text(x);
    match x {
        XRefV::External(None, ip) => {
            lemma_segofs_text_shape(ip);
            lemma_segofs_round_trip(ip);
            lemma_split_name_none(s);
        },
        XRefV::External(Some(name), ip) => {
            lemma_segofs_text_shape(ip);
            lemma_segofs_round_trip(ip);
            lemma_split_name_at(s, name, segofs_text(ip));
            if name.len() == 0 {
                assert(s[0] == '@');
            } else {
                assert(s[0] == name[0]);
            }
        },
        XRefV::Block(None, idx) => {
            lemma_dec_string_no_at(idx as nat);
            lemma_parse_usize_dec_string(idx);
            assert(s.drop_first() =~= dec_string(idx as nat));
            lemma_split_name_none(s.drop_first());
        },
        XRefV::Block(Some(label), idx) => {
            lemma_parse_usize_dec_string(idx);
            assert(s.drop_first() =~= label + seq!['@'] + dec_string(idx as nat));
            lemma_split_name_at(s.drop_first(), label, dec_string(idx as nat));
        },
    }
}

/// Text that is the printed form of what it parses to: the address part is
/// four lower-case hex digits, `:`, four more, and a block index is decimal
/// without sign or leading zeros.
pub open spec fn xref_canonical(s: Seq<char>) -> bool {
    match strip_prefix(s, '\'') {
        Some(local) => {
            let (_, block) = split_name(local);
            match parse_usize(block) {
                Some(n) => dec_string(n as nat) == block,
                None => false,
            }
        },
        None => {
            let (_, ip) = split_name(s);
            match parse_segofs(ip) {
                Ok(a) => segofs_text(a) == ip,
                Err(_) => false,
            }
        },
    }
}

proof fn lemma_split_name_joins(s: Seq<char>)
    ensures
        match split_name(s) {
            (Some(name), rest) => s == name + seq!['@'] + rest,
            (None, rest) => s == rest,
        },
{
    lemma_first_index(s, '@');
    match first_index(s, '@') {
        Some(i) => {
            assert(s =~= s.take(i) + seq!['@'] + s.skip(i + 1));
        },
        None => {},
    }
}

/// Parsing canonical xref text and printing the result gives the text back.
pub proof fn lemma_xref_text_of_parse(s: Seq<char>)
    requires
        xref_canonical(s),
    ensures
        parse_xref(s) matches Ok(x) && xref_text(x) == s,
{
    match strip_prefix(s, '\'') {
        Some(local) => {
            lemma_split_name_joins(local);
            assert(s =~= seq!['\''] + local);
            match split_name(local) {
                (Some(label), block) => {
                    assert(s =~= seq!['\''] + label + seq!['@'] + block);
                },
                (None, block) => {},
            }
        },
        None => {
            lemma_split_name_joins(s);
        },
    }
}

// ---------------------------------------------------------------------------
// Working out the jump and call targets of a function.

/// Index of the last block that starts at `ip`.
pub open spec fn last_block_index(bs: Seq<BlockV>, ip: SegOfs) -> Option<int>
    decreases bs.len(),
{
    if bs.len() == 0 {
        None
    } else if bs.last().ip == ip {
        Some(bs.len() - 1)
    } else {
        last_block_index(bs.drop_last(), ip)
    }
}

/// The name that `names` gives to `ip` (its first entry for `ip`).
pub open spec fn name_of(names: Seq<(SegOfs, Seq<char>)>, ip: SegOfs) -> Option<Seq<char>>
    decreases names.len(),
{
    if names.len() == 0 {
        None
    } else if names[0].0 == ip {
        Some(names[0].1)
    } else {
        name_of(names.drop_first(), ip)
    }
}

/// What a jump or call to `target` refers to: a block of the function (by the
/// label of its first instruction and its index), else an outside address with
/// the name that `names` gives it.
pub open spec fn resolve(bs: Seq<BlockV>, names: Seq<(SegOfs, Seq<char>)>, target: SegOfs) -> XRefV {
    match last_block_index(bs, target) {
        Some(i) => XRefV::Block(bs[i].instrs[0].label, i as usize),
        None => XRefV::External(name_of(names, target), target),
    }
}

/// Jumps, calls and their indirect forms.
pub open spec fn is_transfer(f: Flow) -> bool {
    f == Flow::Call || f == Flow::IndirectCall || f == Flow::IndirectBranch || f
        == Flow::UnconditionalBranch || f == Flow::ConditionalBranch
}

/// Instructions whose target can be worked out: no transactional or exception
/// flow, and a transfer's first operand is a near or far target, memory or a register.
pub open spec fn xref_supported(i: InsnV) -> bool {
    &&& !(i.flow == Flow::XbeginXabortXend || i.flow == Flow::Exception)
    &&& is_transfer(i.flow) ==> i.operands.len() >= 1 && {
        let k = i.operands[0].kind;
        k == OpKind::NearBranch16 || k == OpKind::FarBranch16 || k == OpKind::Memory || k
            == OpKind::Register
    }
}

/// The target of instruction `i` in the block at `b`, if it transfers control:
/// `mem?` and `reg?` (at `0000:0000`) stand for targets read from memory or a register.
pub open spec fn xref_of(bs: Seq<BlockV>, names: Seq<(SegOfs, Seq<char>)>, b: SegOfs, i: InsnV) -> Option<
    XRefV,
> {
    if !is_transfer(i.flow) {
        None
    } else {
        let k = i.operands[0].kind;
        if k == OpKind::NearBranch16 {
            Some(resolve(bs, names, SegOfs { seg: b.seg, ofs: i.near_branch16 }))
        } else if k == OpKind::FarBranch16 {
            Some(resolve(bs, names, SegOfs { seg: i.far_branch_selector, ofs: i.far_branch16 }))
        } else if k == OpKind::Memory {
            Some(XRefV::External(Some(seq!['m', 'e', 'm', '?']), SegOfs { seg: 0, ofs: 0 }))
        } else {
            Some(XRefV::External(Some(seq!['r', 'e', 'g', '?']), SegOfs { seg: 0, ofs: 0 }))
        }
    }
}

/// The outside references among the targets of the function's instructions.
pub open spec fn is_outside_target(
    bs: Seq<BlockV>,
    names: Seq<(SegOfs, Seq<char>)>,
    x: (Option<Seq<char>>, SegOfs),
) -> bool {
    exists|i: int, k: int|
        0 <= i < bs.len() && 0 <= k < bs[i].instrs.len() && #[trigger] xref_of(
            bs,
            names,
            bs[i].ip,
            bs[i].instrs[k].iced,
        ) == Some(XRefV::External(x.0, x.1))
}

/// `xs` lists the outside references `(name, address)` in increasing order, each once.
pub open spec fn sorted_outside(xs: Seq<XRefV>) -> bool {
    &&& forall|i: int| 0 <= i < xs.len() ==> (#[trigger] xs[i]) is External
    &&& forall|i: int, j: int|
        0 <= i < j < xs.len() ==> ext_lt(ext_pair(#[trigger] xs[i]), ext_pair(#[trigger] xs[j]))
}

pub open spec fn ext_pair(x: XRefV) -> (Option<Seq<char>>, SegOfs) {
    match x {
        XRefV::External(n, a) => (n, a),
        XRefV::Block(_, _) => (None, SegOfs { seg: 0, ofs: 0 }),
    }
}

pub open spec fn xref_views(xs: Seq<XRef>) -> Seq<XRefV> {
    xs.map_values(|x: XRef| x@)
}

pub open spec fn names_view(names: Seq<(SegOfs, String)>) -> Seq<(SegOfs, Seq<char>)> {
    names.map_values(|p: (SegOfs, String)| (p.0, p.1@))
}

pub proof fn lemma_last_block_index(bs: Seq<BlockV>, ip: SegOfs)
    ensures
        last_block_index(bs, ip) matches Some(i) ==> 0 <= i < bs.len() && bs[i].ip == ip,
    decreases bs.len(),
{
    if bs.len() > 0 && bs.last().ip != ip {
        lemma_last_block_index(bs.drop_last(), ip);
    }
}

fn last_block_index_exec(bs: &Vec<Block>, ip: SegOfs) -> (r: Option<usize>)
    ensures
        match (r, last_block_index(block_views(bs@), ip)) {
            (Some(i), Some(j)) => i == j,
            (None, None) => true,
            _ => false,
        },
{
    let ghost bv = block_views(bs@);
    let mut n: usize = bs.len();
    assert(bv.take(n as int) =~= bv);
    while n > 0
        invariant
            n <= bs.len(),
            bv == block_views(bs@),
            last_block_index(bv, ip) == last_block_index(bv.take(n as int), ip),
        decreases n,
    {
        assert(bv.take(n as int).drop_last() =~= bv.take(n - 1));
        assert(bv.take(n as int).last() == bv[n - 1]);
        if bs[n - 1].ip == ip {
            return Some(n - 1);
        }
        n -= 1;
    }
    None
}

fn name_of_exec(names: &Vec<(SegOfs, String)>, ip: SegOfs) -> (r: Option<String>)
    ensures
        opt_view(r) == name_of(names_view(names@), ip),
{
    let ghost nv = names_view(names@);
    let mut i: usize = 0;
    assert(nv.skip(0) =~= nv);
    while i < names.len()
        invariant
            i <= names.len(),
            nv == names_view(names@),
            name_of(nv, ip) == name_of(nv.skip(i as int), ip),
        decreases names.len() - i,
    {
        assert(nv.skip(i as int).drop_first() =~= nv.skip(i + 1));
        assert(nv.skip(i as int)[0] == nv[i as int]);
        if names[i].0 == ip {
            return Some(names[i].1.clone());
        }
        i += 1;
    }
    None
}

fn resolve_exec(bs: &Vec<Block>, names: &Vec<(SegOfs, String)>, target: SegOfs) -> (r: XRef)
    requires
        forall|i: int| 0 <= i < bs@.len() ==> (#[trigger] bs@[i]).instrs@.len() > 0,
    ensures
        r@ == resolve(block_views(bs@), names_view(names@), target),
{
    match last_block_index_exec(bs, target) {
        Some(i) => {
            proof {
                lemma_last_block_index(block_views(bs@), target);
                assert(bs@[i as int].instrs@.len() > 0);
                assert(block_views(bs@)[i as int] == bs@[i as int]@);
                assert(block_views(bs@)[i as int].instrs[0] == bs@[i as int].instrs@[0]@);
            }
            XRef::Block(opt_string_clone(&bs[i].instrs[0].label), i)
        },
        None => XRef::External(name_of_exec(names, target), target),
    }
}

/// The target of instruction `insn` in the block at `ip`, if it transfers
/// control (`xref_from_instr`).
pub fn xref_from_instr(bs: &Vec<Block>, names: &Vec<(SegOfs, String)>, ip: SegOfs, insn: &crate::insn::Insn) -> (r: Option<XRef>)
    requires
        xref_supported(insn@),
        forall|i: int| 0 <= i < bs@.len() ==> (#[trigger] bs@[i]).instrs@.len() > 0,
    ensures
        opt_xref_view(r) == xref_of(block_views(bs@), names_view(names@), ip, insn@),
{
    match insn.flow {
        Flow::Call | Flow::IndirectCall | Flow::IndirectBranch | Flow::UnconditionalBranch
        | Flow::ConditionalBranch => {
            match insn.operands[0].kind {
                OpKind::NearBranch16 => Some(resolve_exec(bs, names, ip.with_ofs(insn.near_branch16))),
                OpKind::FarBranch16 => Some(
                    resolve_exec(
                        bs,
                        names,
                        SegOfs::new(insn.far_branch_selector, insn.far_branch16),
                    ),
                ),
                OpKind::Memory => {
                    let n = string_from_chars(&['m', 'e', 'm', '?']);
                    assert(n@ =~= seq!['m', 'e', 'm', '?']);
                    Some(XRef::External(Some(n), SegOfs::new(0, 0)))
                },
                _ => {
                    let n = string_from_chars(&['r', 'e', 'g', '?']);
                    assert(n@ =~= seq!['r', 'e', 'g', '?']);
                    Some(XRef::External(Some(n), SegOfs::new(0, 0)))
                },
            }
        },
        _ => None,
    }
}

pub fn clone_xref(x: &XRef) -> (r: XRef)
    ensures
        r@ == x@,
{
    match x {
        XRef::External(n, a) => XRef::External(opt_string_clone(n), *a),
        XRef::Block(l, i) => XRef::Block(opt_string_clone(l), *i),
    }
}

pub fn clone_opt_xref(x: &Option<XRef>) -> (r: Option<XRef>)
    ensures
        opt_xref_view(r) == opt_xref_view(*x),
{
    match x {
        Some(x) => Some(clone_xref(x)),
        None => None,
    }
}

/// `iv` with its jump target replaced by `x`, when there is one.
pub open spec fn instr_with_jmp(iv: InstrV, x: Option<XRefV>) -> InstrV {
    match x {
        Some(_) => InstrV { jmp: x, ..iv },
        None => iv,
    }
}

pub open spec fn apply_jmps(b: BlockV, ts: Seq<Option<XRefV>>) -> BlockV {
    BlockV { ip: b.ip, instrs: Seq::new(b.instrs.len(), |k: int| instr_with_jmp(b.instrs[k], ts[k])) }
}

/// The targets of the instructions of block `b`.
pub open spec fn block_targets(bs: Seq<BlockV>, names: Seq<(SegOfs, Seq<char>)>, b: BlockV) -> Seq<
    Option<XRefV>,
> {
    Seq::new(b.instrs.len(), |k: int| xref_of(bs, names, b.ip, b.instrs[k].iced))
}

/// The blocks with every transferring instruction's jump target set.
pub open spec fn blocks_with_xrefs(bs: Seq<BlockV>, names: Seq<(SegOfs, Seq<char>)>) -> Seq<BlockV> {
    Seq::new(bs.len(), |i: int| apply_jmps(bs[i], block_targets(bs, names, bs[i])))
}

pub open spec fn opt_views(s: Seq<Option<XRef>>) -> Seq<Option<XRefV>> {
    s.map_values(|x: Option<XRef>| opt_xref_view(x))
}

fn apply_block(block: &mut Block, ts: &Vec<Option<XRef>>)
    requires
        ts@.len() == old(block).instrs@.len(),
    ensures
        final(block)@ == apply_jmps(old(block)@, opt_views(ts@)),
{
    let n = block.instrs.len();
    let mut k: usize = 0;
    while k < n
        invariant
            n == old(block).instrs@.len(),
            ts@.len() == n,
            k <= n,
            block.ip == old(block).ip,
            block.instrs@.len() == n,
            forall|m: int| 0 <= m < k ==> (#[trigger] block.instrs@[m])@ == instr_with_jmp(
                old(block).instrs@[m]@,
                opt_views(ts@)[m],
            ),
            forall|m: int| k <= m < n ==> (#[trigger] block.instrs@[m]) == old(block).instrs@[m],
        decreases n - k,
    {
        match &ts[k] {
            Some(x) => {
                block.instrs[k].jmp = Some(clone_xref(x));
            },
            None => {},
        }
        k += 1;
    }
    assert(block@.instrs =~= apply_jmps(old(block)@, opt_views(ts@)).instrs);
}

/// Compares two outside references by `(name, address)`: -1, 0 or 1.
fn ext_compare(an: &Option<String>, aa: SegOfs, bn: &Option<String>, ba: SegOfs) -> (r: i8)
    ensures
        r == -1 <==> ext_lt((opt_view(*an), aa), (opt_view(*bn), ba)),
        r == 1 <==> ext_lt((opt_view(*bn), ba), (opt_view(*an), aa)),
        r == 0 <==> (opt_view(*an), aa) == (opt_view(*bn), ba),
{
    let c: i8 = match (an, bn) {
        (None, None) => 0,
        (None, Some(_)) => -1,
        (Some(_), None) => 1,
        (Some(x), Some(y)) => {
            let xc = chars_of(x.as_str());
            let yc = chars_of(y.as_str());
            chars_compare(&xc, &yc)
        },
    };
    proof {
        lemma_ext_lt_irrefl((opt_view(*an), aa));
        lemma_ext_lt_irrefl((opt_view(*bn), ba));
        lemma_ext_lt_total((opt_view(*an), aa), (opt_view(*bn), ba));
        match (opt_view(*an), opt_view(*bn)) {
            (Some(x), Some(y)) => {
                lemma_chars_lt_irrefl(x);
                if chars_lt(x, y) && chars_lt(y, x) {
                    crate::order::lemma_chars_lt_trans(x, y, x);
                }
            },
            _ => {},
        }
    }
    if c != 0 {
        return c;
    }
    let ak = aa.key();
    let bk = ba.key();
    if ak < bk {
        -1
    } else if ak > bk {
        1
    } else {
        assert(aa == ba);
        0
    }
}

pub open spec fn lists(xs: Seq<XRefV>, p: (Option<Seq<char>>, SegOfs)) -> bool {
    exists|i: int| 0 <= i < xs.len() && ext_pair(#[trigger] xs[i]) == p
}

fn ext_parts(x: &XRef) -> (r: (&Option<String>, SegOfs))
    requires
        x@ is External,
    ensures
        (opt_view(*r.0), r.1) == ext_pair(x@),
{
    match x {
        XRef::External(n, a) => (n, *a),
        XRef::Block(l, _) => (l, SegOfs::new(0, 0)),
    }
}

/// Adds the outside reference `(name, addr)` to the sorted list unless it is there.
fn insert_sorted(xs: &mut Vec<XRef>, name: &Option<String>, addr: SegOfs)
    requires
        sorted_outside(xref_views(old(xs)@)),
    ensures
        sorted_outside(xref_views(final(xs)@)),
        forall|p: (Option<Seq<char>>, SegOfs)|
            lists(xref_views(final(xs)@), p) <==> (lists(xref_views(old(xs)@), p) || p == (
                opt_view(*name),
                addr,
            )),
{
    let ghost xv = xref_views(xs@);
    let ghost p = (opt_view(*name), addr);
    let mut i: usize = 0;
    while i < xs.len()
        invariant
            i <= xs@.len(),
            xs@ == old(xs)@,
            xv == xref_views(xs@),
            p == (opt_view(*name), addr),
            sorted_outside(xv),
            forall|m: int| 0 <= m < i ==> ext_lt(ext_pair(#[trigger] xv[m]), p),
        ensures
            i <= xs@.len(),
            xs@ == old(xs)@,
            xv == xref_views(xs@),
            p == (opt_view(*name), addr),
            sorted_outside(xv),
            forall|m: int| 0 <= m < i ==> ext_lt(ext_pair(#[trigger] xv[m]), p),
            i < xs@.len() ==> ext_lt(p, ext_pair(xv[i as int])),
        decreases xs@.len() - i,
    {
        assert(xv[i as int] == xs@[i as int]@);
        assert(xv[i as int] is External);
        let (n, a) = ext_parts(&xs[i]);
        let c = ext_compare(n, a, name, addr);
        proof {
            lemma_ext_lt_total((opt_view(*n), a), p);
        }
        if c == 0 {
            proof {
                assert(ext_pair(xv[i as int]) == p);
                assert forall|q: (Option<Seq<char>>, SegOfs)| lists(xref_views(xs@), q) <==> (lists(xv, q) || q == p) by {
                    if q == p {
                        assert(ext_pair(xv[i as int]) == q);
                    }
                }
            }
            return;
        }
        if c == 1 {
            break;
        }
        i += 1;
    }
    let x = XRef::External(opt_string_clone(name), addr);
    xs.insert(i, x);
    proof {
        let nv = xref_views(xs@);
        assert(nv =~= xv.insert(i as int, x@));
        assert forall|m: int| i <= m < xv.len() implies ext_lt(p, ext_pair(#[trigger] xv[m])) by {
            if m > i {
                assert(ext_lt(ext_pair(xv[i as int]), ext_pair(xv[m])));
                lemma_ext_lt_trans(p, ext_pair(xv[i as int]), ext_pair(xv[m]));
            }
        }
        assert forall|a: int, b: int| 0 <= a < b < nv.len() implies ext_lt(
            ext_pair(#[trigger] nv[a]),
            ext_pair(#[trigger] nv[b]),
        ) by {
            if b < i {
                assert(nv[a] == xv[a] && nv[b] == xv[b]);
            } else if b == i {
                assert(nv[a] == xv[a]);
            } else if a < i {
                assert(nv[a] == xv[a] && nv[b] == xv[b - 1]);
            } else if a == i {
                assert(nv[b] == xv[b - 1]);
            } else {
                assert(nv[a] == xv[a - 1] && nv[b] == xv[b - 1]);
            }
        }
        assert forall|m: int| 0 <= m < nv.len() implies (#[trigger] nv[m]) is External by {
            if m < i {
                assert(nv[m] == xv[m]);
            } else if m > i {
                assert(nv[m] == xv[m - 1]);
            }
        }
        assert forall|q: (Option<Seq<char>>, SegOfs)| lists(nv, q) <==> (lists(xv, q) || q == p) by {
            if lists(nv, q) {
                let m = choose|m: int| 0 <= m < nv.len() && ext_pair(#[trigger] nv[m]) == q;
                if m < i {
                    assert(nv[m] == xv[m]);
                } else if m > i {
                    assert(nv[m] == xv[m - 1]);
                }
            }
            if lists(xv, q) {
                let m = choose|m: int| 0 <= m < xv.len() && ext_pair(#[trigger] xv[m]) == q;
                if m < i {
                    assert(nv[m] == xv[m]);
                } else {
                    assert(nv[m + 1] == xv[m]);
                }
            }
            if q == p {
                assert(nv[i as int] == x@);
            }
        }
    }
}

pub open spec fn rows_view(ts: Seq<Vec<Option<XRef>>>) -> Seq<Seq<Option<XRefV>>> {
    ts.map_values(|r: Vec<Option<XRef>>| opt_views(r@))
}

/// The outside reference `p` is among the targets of the rows before row `i`,
/// or of row `i` before column `k`.
pub open spec fn seen_outside(
    ts: Seq<Seq<Option<XRefV>>>,
    i: int,
    k: int,
    p: (Option<Seq<char>>, SegOfs),
) -> bool {
    exists|a: int, b: int|
        0 <= a <= i && a < ts.len() && 0 <= b < ts[a].len() && (a < i || b < k) && #[trigger] ts[a][b]
            == Some(XRefV::External(p.0, p.1))
}

/// What updating the cross references does to a function: the jump targets of
/// its instructions are set, `xrefs` lists the outside targets when there are
/// any, and nothing else changes.
pub open spec fn xrefs_updated(old: Function, new: Function, nv: Seq<(SegOfs, Seq<char>)>) -> bool {
    let bv0 = block_views(old.blocks@);
    &&& block_views(new.blocks@) == blocks_with_xrefs(bv0, nv)
    &&& (exists|p: (Option<Seq<char>>, SegOfs)| is_outside_target(bv0, nv, p)) ==> {
        &&& new.xrefs is Some
        &&& sorted_outside(xref_views(new.xrefs->0@))
        &&& forall|p: (Option<Seq<char>>, SegOfs)|
            lists(xref_views(new.xrefs->0@), p) <==> is_outside_target(bv0, nv, p)
    }
    &&& !(exists|p: (Option<Seq<char>>, SegOfs)| is_outside_target(bv0, nv, p)) ==> new.xrefs
        == old.xrefs
    &&& new.name == old.name
    &&& new.desc == old.desc
    &&& new.details == old.details
    &&& new.callers == old.callers
    &&& new.callees == old.callees
    &&& new.params == old.params
    &&& new.ret == old.ret
    &&& new.ip == old.ip
}

/// The conditions under which the targets of a function can be worked out:
/// every block has an instruction and every instruction's flow is handled.
pub open spec fn xrefs_supported(f: Function) -> bool {
    &&& forall|i: int| 0 <= i < f.blocks@.len() ==> (#[trigger] f.blocks@[i]).instrs@.len() > 0
    &&& forall|i: int, k: int|
        0 <= i < f.blocks@.len() && 0 <= k < f.blocks@[i].instrs@.len() ==> xref_supported(
            (#[trigger] f.blocks@[i].instrs@[k]).iced@,
        )
}

/// Works out the jump and call targets of the function's instructions: each
/// transferring instruction's `jmp` is set to its target (another block of the
/// function, or an outside address with its name from `names`), and when there
/// are outside targets, `xrefs` becomes their sorted list, each once.
pub fn update_xrefs(func: &mut Function, names: &Vec<(SegOfs, String)>)
    requires
        xrefs_supported(*old(func)),
    ensures
        xrefs_updated(*old(func), *final(func), names_view(names@)),
{
    let ghost bv0 = block_views(func.blocks@);
    let ghost nv = names_view(names@);
    let nb = func.blocks.len();
    // the target of every instruction
    let mut targets: Vec<Vec<Option<XRef>>> = Vec::new();
    let mut i: usize = 0;
    while i < nb
        invariant
            nb == func.blocks@.len(),
            *func == *old(func),
            bv0 == block_views(func.blocks@),
            nv == names_view(names@),
            forall|a: int| 0 <= a < nb ==> (#[trigger] func.blocks@[a]).instrs@.len() > 0,
            forall|a: int, b: int|
                0 <= a < nb && 0 <= b < func.blocks@[a].instrs@.len() ==> xref_supported(
                    (#[trigger] func.blocks@[a].instrs@[b]).iced@,
                ),
            i <= nb,
            targets@.len() == i,
            forall|a: int| 0 <= a < i ==> (#[trigger] rows_view(targets@)[a]) == block_targets(bv0, nv, bv0[a]),
        decreases nb - i,
    {
        let ni = func.blocks[i].instrs.len();
        let mut row: Vec<Option<XRef>> = Vec::new();
        let mut k: usize = 0;
        while k < ni
            invariant
                nb == func.blocks@.len(),
                *func == *old(func),
                bv0 == block_views(func.blocks@),
                nv == names_view(names@),
                forall|a: int| 0 <= a < nb ==> (#[trigger] func.blocks@[a]).instrs@.len() > 0,
                forall|a: int, b: int|
                    0 <= a < nb && 0 <= b < func.blocks@[a].instrs@.len() ==> xref_supported(
                        (#[trigger] func.blocks@[a].instrs@[b]).iced@,
                    ),
                i < nb,
                ni == func.blocks@[i as int].instrs@.len(),
                k <= ni,
                row@.len() == k,
                forall|b: int| 0 <= b < k ==> opt_xref_view(#[trigger] row@[b]) == xref_of(
                    bv0,
                    nv,
                    bv0[i as int].ip,
                    bv0[i as int].instrs[b].iced,
                ),
            decreases ni - k,
        {
            let t = xref_from_instr(&func.blocks, names, func.blocks[i].ip, &func.blocks[i].instrs[k].iced);
            proof {
                assert(bv0[i as int] == func.blocks@[i as int]@);
                assert(bv0[i as int].instrs[k as int] == func.blocks@[i as int].instrs@[k as int]@);
            }
            row.push(t);
            k += 1;
        }
        proof {
            assert(opt_views(row@) =~= block_targets(bv0, nv, bv0[i as int]));
        }
        let ghost old_t = targets@;
        targets.push(row);
        proof {
            assert forall|a: int| 0 <= a < i + 1 implies (#[trigger] rows_view(targets@)[a]) == block_targets(bv0, nv, bv0[a]) by {
                assert(rows_view(targets@)[a] == opt_views(targets@[a]@));
                if a < i {
                    assert(targets@[a] == old_t[a]);
                    assert(rows_view(old_t)[a] == opt_views(old_t[a]@));
                }
            }
        }
        i += 1;
    }
    // the outside targets, sorted
    let mut xs: Vec<XRef> = Vec::new();
    let ghost tv = rows_view(targets@);
    let mut i: usize = 0;
    while i < nb
        invariant
            nb == targets@.len(),
            tv == rows_view(targets@),
            i <= nb,
            sorted_outside(xref_views(xs@)),
            forall|p: (Option<Seq<char>>, SegOfs)| lists(xref_views(xs@), p) <==> seen_outside(tv, i as int, 0, p),
        decreases nb - i,
    {
        let ni = targets[i].len();
        let mut k: usize = 0;
        while k < ni
            invariant
                nb == targets@.len(),
                tv == rows_view(targets@),
                i < nb,
                ni == targets@[i as int]@.len(),
                k <= ni,
                sorted_outside(xref_views(xs@)),
                forall|p: (Option<Seq<char>>, SegOfs)| lists(xref_views(xs@), p) <==> seen_outside(tv, i as int, k as int, p),
            decreases ni - k,
        {
            let ghost old_xs = xref_views(xs@);
            assert(tv[i as int][k as int] == opt_xref_view(targets@[i as int]@[k as int]));
            match &targets[i][k] {
                Some(XRef::External(n, a)) => {
                    insert_sorted(&mut xs, n, *a);
                },
                _ => {},
            }
            proof {
                assert forall|p: (Option<Seq<char>>, SegOfs)| lists(xref_views(xs@), p) <==> seen_outside(tv, i as int, k + 1, p) by {
                    if seen_outside(tv, i as int, k + 1, p) && !seen_outside(tv, i as int, k as int, p) {
                        let (a, b) = choose|a: int, b: int|
                            0 <= a <= i && a < tv.len() && 0 <= b < tv[a].len() && (a < i || b < k + 1) && #[trigger] tv[a][b]
                                == Some(XRefV::External(p.0, p.1));
                        assert(a == i && b == k);
                    }
                    if seen_outside(tv, i as int, k as int, p) {
                        let (a, b) = choose|a: int, b: int|
                            0 <= a <= i && a < tv.len() && 0 <= b < tv[a].len() && (a < i || b < k) && #[trigger] tv[a][b]
                                == Some(XRefV::External(p.0, p.1));
                        assert(seen_outside(tv, i as int, k + 1, p));
                    }
                }
            }
            k += 1;
        }
        proof {
            assert forall|p: (Option<Seq<char>>, SegOfs)| seen_outside(tv, i as int, ni as int, p) <==> seen_outside(tv, i + 1, 0, p) by {
                if seen_outside(tv, i + 1, 0, p) {
                    let (a, b) = choose|a: int, b: int|
                        0 <= a <= i + 1 && a < tv.len() && 0 <= b < tv[a].len() && (a < i + 1 || b < 0) && #[trigger] tv[a][b]
                            == Some(XRefV::External(p.0, p.1));
                    assert(seen_outside(tv, i as int, ni as int, p));
                }
                if seen_outside(tv, i as int, ni as int, p) {
                    let (a, b) = choose|a: int, b: int|
                        0 <= a <= i && a < tv.len() && 0 <= b < tv[a].len() && (a < i || b < ni) && #[trigger] tv[a][b]
                            == Some(XRefV::External(p.0, p.1));
                    assert(seen_outside(tv, i + 1, 0, p));
                }
            }
        }
        i += 1;
    }
    // set the jump targets
    let mut i: usize = 0;
    while i < nb
        invariant
            nb == targets@.len(),
            nb == func.blocks@.len(),
            tv == rows_view(targets@),
            forall|a: int| 0 <= a < nb ==> (#[trigger] tv[a]) == block_targets(bv0, nv, bv0[a]),
            bv0.len() == nb,
            i <= nb,
            forall|a: int| 0 <= a < i ==> (#[trigger] func.blocks@[a])@ == apply_jmps(bv0[a], block_targets(bv0, nv, bv0[a])),
            forall|a: int| i <= a < nb ==> (#[trigger] func.blocks@[a])@ == bv0[a],
            func.name == old(func).name,
            func.desc == old(func).desc,
            func.details == old(func).details,
            func.callers == old(func).callers,
            func.callees == old(func).callees,
            func.params == old(func).params,
            func.ret == old(func).ret,
            func.ip == old(func).ip,
            func.xrefs == old(func).xrefs,
        decreases nb - i,
    {
        assert(tv[i as int] == opt_views(targets@[i as int]@));
        apply_block(&mut func.blocks[i], &targets[i]);
        i += 1;
    }
    proof {
        assert(block_views(func.blocks@) =~= blocks_with_xrefs(bv0, nv));
        assert forall|p: (Option<Seq<char>>, SegOfs)| seen_outside(tv, nb as int, 0, p) <==> is_outside_target(bv0, nv, p) by {
            if seen_outside(tv, nb as int, 0, p) {
                let (a, b) = choose|a: int, b: int|
                    0 <= a <= nb && a < tv.len() && 0 <= b < tv[a].len() && (a < nb || b < 0) && #[trigger] tv[a][b]
                        == Some(XRefV::External(p.0, p.1));
                assert(tv[a][b] == xref_of(bv0, nv, bv0[a].ip, bv0[a].instrs[b].iced));
            }
            if is_outside_target(bv0, nv, p) {
                let (a, b) = choose|a: int, b: int|
                    0 <= a < bv0.len() && 0 <= b < bv0[a].instrs.len() && #[trigger] xref_of(
                        bv0,
                        nv,
                        bv0[a].ip,
                        bv0[a].instrs[b].iced,
                    ) == Some(XRefV::External(p.0, p.1));
                assert(tv[a][b] == xref_of(bv0, nv, bv0[a].ip, bv0[a].instrs[b].iced));
            }
        }
    }
    if xs.len() > 0 {
        proof {
            let x = xref_views(xs@)[0];
            assert(lists(xref_views(xs@), ext_pair(x)));
            assert(is_outside_target(bv0, nv, ext_pair(x)));
        }
        func.xrefs = Some(xs);
    } else {
        proof {
            assert forall|p: (Option<Seq<char>>, SegOfs)| !is_outside_target(bv0, nv, p) by {
                assert(!lists(xref_views(xs@), p));
            }
        }
    }
}

/// Whether every block of `f` has instructions and each instruction's target
/// can be worked out (what `update_xrefs` needs).
pub fn check_xrefs_supported(f: &Function) -> (r: bool)
    ensures
        r == xrefs_supported(*f),
{
    let mut i: usize = 0;
    while i < f.blocks.len()
        invariant
            i <= f.blocks@.len(),
            forall|j: int| 0 <= j < i ==> (#[trigger] f.blocks@[j]).instrs@.len() > 0,
            forall|j: int, k: int|
                0 <= j < i && 0 <= k < f.blocks@[j].instrs@.len() ==> xref_supported(
                    (#[trigger] f.blocks@[j].instrs@[k]).iced@,
                ),
        decreases f.blocks@.len() - i,
    {
        let b = &f.blocks[i];
        if b.instrs.len() == 0 {
            return false;
        }
        let mut k: usize = 0;
        while k < b.instrs.len()
            invariant
                i < f.blocks@.len(),
                *b == f.blocks@[i as int],
                k <= b.instrs@.len(),
                forall|m: int| 0 <= m < k ==> xref_supported((#[trigger] b.instrs@[m]).iced@),
            decreases b.instrs@.len() - k,
        {
            let ins = &b.instrs[k].iced;
            let flow = ins.flow;
            let bad_flow = match flow {
                Flow::XbeginXabortXend | Flow::Exception => true,
                _ => false,
            };
            if bad_flow {
                return false;
            }
            let transfer = match flow {
                Flow::Call | Flow::IndirectCall | Flow::IndirectBranch | Flow::UnconditionalBranch
                | Flow::ConditionalBranch => true,
                _ => false,
            };
            if transfer {
                if ins.operands.len() < 1 {
                    return false;
                }
                assert(ins@.operands[0] == ins.operands@[0]@);
                let ok = match ins.operands[0].kind {
                    OpKind::NearBranch16 | OpKind::FarBranch16 | OpKind::Memory | OpKind::Register => true,
                    _ => false,
                };
                if !ok {
                    return false;
                }
            }
            k += 1;
        }
        i += 1;
    }
    true
}

/// Works out the cross references of every function, naming outside
/// targets after the functions that start there.
pub fn update_all_xrefs(db: &mut DB)
    requires
        old(db).wf(),
        forall|i: int| 0 <= i < old(db).functions@.len() ==> xrefs_supported(#[trigger] old(db).functions@[i]),
    ensures
        final(db).wf(),
        final(db).functions@.len() == old(db).functions@.len(),
        forall|i: int|
            0 <= i < old(db).functions@.len() ==> xrefs_updated(
                #[trigger] old(db).functions@[i],
                final(db).functions@[i],
                fn_names(old(db).functions@),
            ),
        final(db).mem == old(db).mem,
        final(db).exe == old(db).exe,
        final(db).memory == old(db).memory,
{
    let ghost fs0 = db.functions@;
    let mut names: Vec<(SegOfs, String)> = Vec::new();
    let mut i: usize = 0;
    while i < db.functions.len()
        invariant
            db.functions@ == fs0,
            i <= fs0.len(),
            names_view(names@) == fn_names(fs0.take(i as int)),
        decreases fs0.len() - i,
    {
        proof {
            assert(fs0.take(i + 1).drop_last() =~= fs0.take(i as int));
            assert(fs0.take(i + 1).last() == fs0[i as int]);
        }
        match &db.functions[i].name {
            Some(n) => {
                names.push((db.functions[i].ip, n.clone()));
                assert(names_view(names@) =~= fn_names(fs0.take(i as int)).push((fs0[i as int].ip, n@)));
            },
            None => {},
        }
        i += 1;
    }
    assert(fs0.take(fs0.len() as int) =~= fs0);
    let mut i: usize = 0;
    while i < db.functions.len()
        invariant
            db.functions@.len() == fs0.len(),
            fns_sorted(fs0),
            old(db).functions@ == fs0,
            names_view(names@) == fn_names(fs0),
            i <= fs0.len(),
            forall|k: int| 0 <= k < fs0.len() ==> xrefs_supported(#[trigger] fs0[k]),
            forall|k: int| 0 <= k < i ==> xrefs_updated(#[trigger] fs0[k], db.functions@[k], fn_names(fs0)),
            forall|k: int| i <= k < fs0.len() ==> #[trigger] db.functions@[k] == fs0[k],
            db.mem == old(db).mem,
            db.exe == old(db).exe,
            db.memory == old(db).memory,
        decreases fs0.len() - i,
    {
        update_xrefs(&mut db.functions[i], &names);
        i += 1;
    }
    proof {
        assert forall|x: int, y: int| 0 <= x < y < db.functions@.len() implies spec_key(db.functions@[x].ip) < spec_key(db.functions@[y].ip) by {
            assert(xrefs_updated(fs0[x], db.functions@[x], fn_names(fs0)));
            assert(xrefs_updated(fs0[y], db.functions@[y], fn_names(fs0)));
        }
    }
}


/// A far jump or call names its target by the selector and offset it encodes,
/// whatever block it stands in: from any two blocks it gives the same cross
/// reference; when a block of the function starts at that address it is that
/// block, and otherwise it is an outside reference to exactly that address.
pub proof fn lemma_far_xref(
    bs: Seq<BlockV>,
    names: Seq<(SegOfs, Seq<char>)>,
    b1: SegOfs,
    b2: SegOfs,
    i: InsnV,
    t: SegOfs,
)
    requires
        is_transfer(i.flow),
        i.operands.len() >= 1,
        i.operands[0].kind == OpKind::FarBranch16,
        t.seg == i.far_branch_selector,
        t.ofs == i.far_branch16,
        bs.len() <= usize::MAX,
    ensures
        xref_of(bs, names, b1, i) == xref_of(bs, names, b2, i),
        (forall|j: int| 0 <= j < bs.len() ==> (#[trigger] bs[j]).ip != t) ==> (xref_of(bs, names, b1, i)
            matches Some(XRefV::External(_, a)) && a == t),
        (xref_of(bs, names, b1, i) matches Some(XRefV::Block(_, k)) ==> 0 <= k < bs.len() && bs[k as int].ip
            == t),
{
    lemma_last_block_index(bs, t);
}

/// A near jump or call goes to its offset in the segment of the block it
/// stands in: when no block of the function starts there, it is an outside
/// reference to exactly that address.
pub proof fn lemma_near_xref(bs: Seq<BlockV>, names: Seq<(SegOfs, Seq<char>)>, b: SegOfs, i: InsnV, t: SegOfs)
    requires
        is_transfer(i.flow),
        i.operands.len() >= 1,
        i.operands[0].kind == OpKind::NearBranch16,
        t.seg == b.seg,
        t.ofs == i.near_branch16,
        bs.len() <= usize::MAX,
    ensures
        (forall|j: int| 0 <= j < bs.len() ==> (#[trigger] bs[j]).ip != t) ==> (xref_of(bs, names, b, i)
            matches Some(XRefV::External(_, a)) && a == t),
        (xref_of(bs, names, b, i) matches Some(XRefV::Block(_, k)) ==> 0 <= k < bs.len() && bs[k as int].ip
            == t),
{
    lemma_last_block_index(bs, t);
}


/// Only jumps and calls have a cross reference; one through memory or a
/// register is named `mem?` or `reg?` at `0000:0000`, whatever else holds.
pub proof fn lemma_xref_kinds(bs: Seq<BlockV>, names: Seq<(SegOfs, Seq<char>)>, b: SegOfs, i: InsnV)
    ensures
        (i.flow == Flow::Next || i.flow == Flow::Return || i.flow == Flow::Interrupt) ==> xref_of(
            bs,
            names,
            b,
            i,
        ) is None,
        is_transfer(i.flow) && i.operands[0].kind == OpKind::Memory ==> xref_of(bs, names, b, i) == Some(
            XRefV::External(Some(seq!['m', 'e', 'm', '?']), (SegOfs { seg: 0, ofs: 0 })),
        ),
        is_transfer(i.flow) && i.operands[0].kind == OpKind::Register ==> xref_of(bs, names, b, i) == Some(
            XRefV::External(Some(seq!['r', 'e', 'g', '?']), (SegOfs { seg: 0, ofs: 0 })),
        ),
{
}

} // verus!
