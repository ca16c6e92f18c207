//! The text file that holds a function: a header, a `---` line, then the
//! function's blocks, one instruction per line with its annotations on the
//! lines above it and a blank line after each block.
use vstd::prelude::*;

use crate::function::{
    block_views, instr_views, opt_xref_view, Block, BlockV, Function, Instr, InstrV,
};
use crate::insn::{decode, spec_decode};
use crate::segofs::{parse_segofs, segofs_text, spec_abs, SegOfs, SegOfsError};
use crate::text::{
    chars_of, first_index, lemma_first_index, lemma_first_index_unique, slice_range,
    split_once, split_once_char, string_from_chars,
};
use crate::xref::{opt_view, parse_xref, xref_text, XRef, XRefError, XRefV};

verus! {

/// Why a function file was refused. Line numbers count from zero in the part
/// after the separator.
#[derive(Clone, Copy, Debug, PartialEq, Eq, Structural)]
pub enum FnTextError {
    /// There is no `\n---\n` between header and body.
    MissingSeparator,
    /// An `@jmp` line whose target does not parse.
    BadXRef(usize, XRefError),
    /// An instruction line without a space after its address.
    MissingAddr(usize),
    /// An instruction line whose address does not parse.
    BadAddr(usize, SegOfsError),
    /// An instruction line whose address lies past the end of the memory
    /// image, where there is no position to decode from (an address at the
    /// very end decodes as iced's empty invalid instruction). `deserialize`
    /// does not take such a body; `body_fits_memory` tells it apart.
    AddrOutOfRange(usize),
}

// ---------------------------------------------------------------------------
// The separator between header and body

/// The separator `\n---\n`.
pub open spec fn sep() -> Seq<char> {
    seq!['\n', '-', '-', '-', '\n']
}

/// Whether the separator starts at index `i` of `s`.
pub open spec fn sep_at(s: Seq<char>, i: int) -> bool {
    0 <= i && i + 5 <= s.len() && s.subrange(i, i + 5) == sep()
}

/// The first index at or after `i` where the separator starts.
pub open spec fn first_sep(s: Seq<char>, i: int) -> Option<int>
    decreases s.len() - i,
{
    if i < 0 || i + 5 > s.len() {
        None
    } else if sep_at(s, i) {
        Some(i)
    } else {
        first_sep(s, i + 1)
    }
}

/// `str::split_once("\n---\n")`: the text before and after the first separator.
pub open spec fn split_sections_spec(s: Seq<char>) -> Option<(Seq<char>, Seq<char>)> {
    match first_sep(s, 0) {
        Some(i) => Some((s.take(i), s.skip(i + 5))),
        None => None,
    }
}

// ---------------------------------------------------------------------------
// Lines

/// A line without the `\r` of a `\r\n` ending.
pub open spec fn strip_cr(l: Seq<char>) -> Seq<char> {
    if l.len() > 0 && l.last() == '\r' {
        l.drop_last()
    } else {
        l
    }
}

/// `str::lines`: the text split at each `\n`, a `\r` before it dropped, with
/// no line after a final `\n`.
pub open spec fn lines(s: Seq<char>) -> Seq<Seq<char>>
    decreases s.len(),
{
    if s.len() == 0 {
        Seq::empty()
    } else {
        match first_index(s, '\n') {
            Some(i) => if 0 <= i < s.len() {
                seq![strip_cr(s.take(i))] + lines(s.skip(i + 1))
            } else {
                Seq::empty()
            },
            None => seq![s],
        }
    }
}

pub open spec fn lines_view(v: Seq<Vec<char>>) -> Seq<Seq<char>> {
    v.map_values(|l: Vec<char>| l@)
}

// ---------------------------------------------------------------------------
// Writing

pub open spec fn comment_prefix() -> Seq<char> {
    seq![';', ' ']
}

pub open spec fn label_prefix() -> Seq<char> {
    seq!['@', 'l', 'a', 'b', 'e', 'l', ' ']
}

pub open spec fn jmp_prefix() -> Seq<char> {
    seq!['@', 'j', 'm', 'p', ' ']
}

/// The address of an instruction of a function in segment `seg`.
pub open spec fn instr_addr(seg: u16, i: InstrV) -> SegOfs {
    SegOfs { seg, ofs: i.iced.ip }
}

/// The line of the instruction itself: its address, a space, its text.
pub open spec fn instr_line(seg: u16, i: InstrV) -> Seq<char> {
    segofs_text(instr_addr(seg, i)) + seq![' '] + i.iced.text
}

/// The lines that stand for one instruction: its comment, label and jump
/// target where it has them, then the instruction line.
pub open spec fn instr_lines(seg: u16, i: InstrV) -> Seq<Seq<char>> {
    (match i.comment {
        Some(c) => seq![comment_prefix() + c],
        None => Seq::empty(),
    }) + (match i.label {
        Some(l) => seq![label_prefix() + l],
        None => Seq::empty(),
    }) + (match i.jmp {
        Some(x) => seq![jmp_prefix() + xref_text(x)],
        None => Seq::empty(),
    }) + seq![instr_line(seg, i)]
}

pub open spec fn instrs_lines(seg: u16, is: Seq<InstrV>) -> Seq<Seq<char>>
    decreases is.len(),
{
    if is.len() == 0 {
        Seq::empty()
    } else {
        instrs_lines(seg, is.drop_last()) + instr_lines(seg, is.last())
    }
}

/// The lines of the blocks: each block's instructions, then a blank line.
pub open spec fn blocks_lines(seg: u16, bs: Seq<BlockV>) -> Seq<Seq<char>>
    decreases bs.len(),
{
    if bs.len() == 0 {
        Seq::empty()
    } else {
        blocks_lines(seg, bs.drop_last()) + instrs_lines(seg, bs.last().instrs) + seq![
            Seq::<char>::empty(),
        ]
    }
}

/// Lines written one after the other, each ended by `\n`.
pub open spec fn join_lines(ls: Seq<Seq<char>>) -> Seq<char>
    decreases ls.len(),
{
    if ls.len() == 0 {
        Seq::empty()
    } else {
        join_lines(ls.drop_last()) + ls.last() + seq!['\n']
    }
}

/// The body text of a function in segment `seg` with blocks `bs`.
pub open spec fn body_text(seg: u16, bs: Seq<BlockV>) -> Seq<char> {
    join_lines(blocks_lines(seg, bs))
}

/// The whole file: the header, the separator, the body.
pub open spec fn file_text(header: Seq<char>, seg: u16, bs: Seq<BlockV>) -> Seq<char> {
    header + sep() + body_text(seg, bs)
}

// ---------------------------------------------------------------------------
// Reading

/// `s` without the prefix `p`, when it starts with it.
pub open spec fn strip_str(s: Seq<char>, p: Seq<char>) -> Option<Seq<char>> {
    if p.len() <= s.len() && s.take(p.len() as int) == p {
        Some(s.skip(p.len() as int))
    } else {
        None
    }
}

/// What reading has gathered so far: the blocks (the last one still being
/// filled), and the comment, label and jump target waiting for the next
/// instruction.
pub struct BodyState {
    pub blocks: Seq<BlockV>,
    pub comment: Seq<char>,
    pub label: Option<Seq<char>>,
    pub jmp: Option<XRefV>,
}

pub open spec fn null_addr() -> SegOfs {
    SegOfs { seg: 0, ofs: 0 }
}

pub open spec fn empty_block() -> BlockV {
    BlockV { ip: null_addr(), instrs: Seq::empty() }
}

pub open spec fn start_state() -> BodyState {
    BodyState { blocks: seq![empty_block()], comment: Seq::empty(), label: None, jmp: None }
}

/// Adds the instruction at `a`, decoded from `mem`, to the last block with the
/// waiting annotations; the block takes `a` as its address while it has none.
pub open spec fn push_instr(mem: Seq<u8>, st: BodyState, a: SegOfs) -> BodyState {
    let b = st.blocks.last();
    let ins = InstrV {
        comment: if st.comment.len() == 0 {
            None
        } else {
            Some(st.comment)
        },
        label: st.label,
        jmp: st.jmp,
        memory: None,
        iced: spec_decode(mem, spec_abs(a) as int, a.ofs),
    };
    let nb = BlockV {
        ip: if b.ip == null_addr() {
            a
        } else {
            b.ip
        },
        instrs: b.instrs.push(ins),
    };
    BodyState {
        blocks: st.blocks.update(st.blocks.len() - 1, nb),
        comment: Seq::empty(),
        label: None,
        jmp: None,
    }
}

/// Reading line `i`: a blank line starts a new block; `; ` adds to the
/// comment, `@jmp ` sets the jump target, `@label ` the label; any other line
/// is an instruction whose address is the text before its first space.
pub open spec fn body_step(mem: Seq<u8>, st: BodyState, i: int, line: Seq<char>) -> Result<
    BodyState,
    FnTextError,
> {
    if line.len() == 0 {
        Ok(BodyState { blocks: st.blocks.push(empty_block()), ..st })
    } else {
        match strip_str(line, comment_prefix()) {
            Some(c) => Ok(BodyState { comment: st.comment + c, ..st }),
            None => match strip_str(line, jmp_prefix()) {
                Some(r) => match parse_xref(r) {
                    Ok(x) => Ok(BodyState { jmp: Some(x), ..st }),
                    Err(e) => Err(FnTextError::BadXRef(i as usize, e)),
                },
                None => match strip_str(line, label_prefix()) {
                    Some(l) => Ok(BodyState { label: Some(l), ..st }),
                    None => match split_once(line, ' ') {
                        None => Err(FnTextError::MissingAddr(i as usize)),
                        Some((addr, _)) => match parse_segofs(addr) {
                            Err(e) => Err(FnTextError::BadAddr(i as usize, e)),
                            Ok(a) => if spec_abs(a) <= mem.len() {
                                Ok(push_instr(mem, st, a))
                            } else {
                                Err(FnTextError::AddrOutOfRange(i as usize))
                            },
                        },
                    },
                },
            },
        }
    }
}

/// Reading the lines `ls` from state `st`, the first of them being line `base`.
pub open spec fn read_lines(mem: Seq<u8>, st: BodyState, ls: Seq<Seq<char>>, base: int) -> Result<
    BodyState,
    FnTextError,
>
    decreases ls.len(),
{
    if ls.len() == 0 {
        Ok(st)
    } else {
        match read_lines(mem, st, ls.drop_last(), base) {
            Ok(s1) => body_step(mem, s1, base + ls.len() - 1, ls.last()),
            Err(e) => Err(e),
        }
    }
}

/// The blocks read, without a last block that got no instruction.
pub open spec fn finish_blocks(bs: Seq<BlockV>) -> Seq<BlockV> {
    if bs.len() > 0 && bs.last().instrs.len() == 0 {
        bs.drop_last()
    } else {
        bs
    }
}

/// Reading `body` comes, before any other error, to an instruction whose
/// address lies past the end of `mem`.
pub open spec fn body_past_end(mem: Seq<u8>, body: Seq<char>) -> bool {
    parse_body(mem, body) matches Err(FnTextError::AddrOutOfRange(_))
}

/// The blocks that the body text stands for, decoding instructions from `mem`.
pub open spec fn parse_body(mem: Seq<u8>, body: Seq<char>) -> Result<Seq<BlockV>, FnTextError> {
    match read_lines(mem, start_state(), lines(body), 0) {
        Ok(st) => Ok(finish_blocks(st.blocks)),
        Err(e) => Err(e),
    }
}

/// `f` has the annotations of `head` and, after its blocks, the blocks `bs`.
pub open spec fn read_into(head: Function, bs: Seq<BlockV>, f: Function) -> bool {
    &&& f.name == head.name
    &&& f.desc == head.desc
    &&& f.details == head.details
    &&& f.xrefs == head.xrefs
    &&& f.callers == head.callers
    &&& f.callees == head.callees
    &&& f.params == head.params
    &&& f.ret == head.ret
    &&& f.ip == head.ip
    &&& block_views(f.blocks@) == block_views(head.blocks@) + bs
}

// ---------------------------------------------------------------------------
// Executable parts

fn push_str_chars(out: &mut Vec<char>, s: &str)
    ensures
        final(out)@ == old(out)@ + s@,
{
    let v = chars_of(s);
    out.extend_from_slice(&v);
}

fn comment_prefix_chars() -> (v: Vec<char>)
    ensures
        v@ == comment_prefix(),
{
    let mut v: Vec<char> = Vec::new();
    v.push(';');
    v.push(' ');
    assert(v@ =~= comment_prefix());
    v
}

fn label_prefix_chars() -> (v: Vec<char>)
    ensures
        v@ == label_prefix(),
{
    let mut v: Vec<char> = Vec::new();
    v.push('@');
    v.push('l');
    v.push('a');
    v.push('b');
    v.push('e');
    v.push('l');
    v.push(' ');
    assert(v@ =~= label_prefix());
    v
}

fn jmp_prefix_chars() -> (v: Vec<char>)
    ensures
        v@ == jmp_prefix(),
{
    let mut v: Vec<char> = Vec::new();
    v.push('@');
    v.push('j');
    v.push('m');
    v.push('p');
    v.push(' ');
    assert(v@ =~= jmp_prefix());
    v
}

/// Whether `s` starts with `p`.
fn has_prefix(s: &[char], p: &[char]) -> (r: bool)
    ensures
        r == (p@.len() <= s@.len() && s@.take(p@.len() as int) == p@),
{
    if p.len() > s.len() {
        return false;
    }
    let mut i: usize = 0;
    while i < p.len()
        invariant
            p@.len() <= s@.len(),
            i <= p@.len(),
            forall|j: int| 0 <= j < i ==> s@[j] == p@[j],
        decreases p@.len() - i,
    {
        if s[i] != p[i] {
            assert(s@.take(p@.len() as int)[i as int] != p@[i as int]);
            return false;
        }
        i += 1;
    }
    assert(s@.take(p@.len() as int) =~= p@);
    true
}

/// Splits a text into its lines as `str::lines` does.
pub fn split_lines(s: &[char]) -> (r: Vec<Vec<char>>)
    ensures
        lines_view(r@) == lines(s@),
{
    let mut out: Vec<Vec<char>> = Vec::new();
    let mut start: usize = 0;
    let mut i: usize = 0;
    assert(s@.skip(0) =~= s@);
    while i < s.len()
        invariant
            start <= i <= s@.len(),
            lines_view(out@) + lines(s@.skip(start as int)) == lines(s@),
            forall|j: int| start <= j < i ==> s@[j] != '\n',
        decreases s@.len() - i,
    {
        if s[i] == '\n' {
            let ghost t = s@.skip(start as int);
            proof {
                assert forall|j: int| 0 <= j < i - start implies t[j] != '\n' by {
                    assert(t[j] == s@[start + j]);
                }
                lemma_first_index_unique(t, '\n', i - start);
                assert(t.take(i - start) =~= s@.subrange(start as int, i as int));
                assert(t.skip(i - start + 1) =~= s@.skip(i + 1));
            }
            let end: usize = if i > start && s[i - 1] == '\r' {
                i - 1
            } else {
                i
            };
            let line = slice_range(s, start, end);
            assert(line@ =~= strip_cr(s@.subrange(start as int, i as int)));
            let ghost before = lines_view(out@);
            out.push(line);
            proof {
                assert(lines_view(out@) =~= before.push(line@));
                assert(lines(t) == seq![strip_cr(t.take(i - start))] + lines(t.skip(i - start + 1)));
                assert(lines_view(out@) + lines(s@.skip(i + 1)) =~= before + lines(t));
            }
            start = i + 1;
        }
        i += 1;
    }
    if start < s.len() {
        let ghost t = s@.skip(start as int);
        proof {
            lemma_first_index(t, '\n');
            assert forall|j: int| 0 <= j < t.len() implies t[j] != '\n' by {
                assert(t[j] == s@[start + j]);
            }
            assert(first_index(t, '\n') is None);
        }
        let line = slice_range(s, start, s.len());
        assert(line@ =~= t);
        let ghost before = lines_view(out@);
        out.push(line);
        assert(lines_view(out@) =~= before.push(line@));
        assert(lines_view(out@) =~= before + lines(t));
    } else {
        assert(s@.skip(start as int) =~= Seq::<char>::empty());
        assert(lines_view(out@) =~= lines_view(out@) + lines(s@.skip(start as int)));
    }
    out
}

/// Splits a function file into header and body at the first `\n---\n`.
pub fn split_sections(buf: &str) -> (r: Result<(String, String), FnTextError>)
    ensures
        match split_sections_spec(buf@) {
            Some((h, b)) => r matches Ok((rh, rb)) && rh@ == h && rb@ == b,
            None => r == Err::<(String, String), FnTextError>(FnTextError::MissingSeparator),
        },
{
    let s = chars_of(buf);
    let ghost g = s@;
    let mut i: usize = 0;
    while s.len() >= 5 && i <= s.len() - 5
        invariant
            g == s@,
            g == buf@,
            i <= g.len() + 1,
            first_sep(g, 0) == first_sep(g, i as int),
        decreases g.len() + 1 - i,
    {
        if s[i] == '\n' && s[i + 1] == '-' && s[i + 2] == '-' && s[i + 3] == '-' && s[i + 4] == '\n' {
            assert(g.subrange(i as int, i + 5) =~= sep());
            let h = slice_range(&s, 0, i);
            let b = slice_range(&s, i + 5, s.len());
            assert(h@ =~= g.take(i as int));
            assert(b@ =~= g.skip(i + 5));
            return Ok((string_from_chars(&h), string_from_chars(&b)));
        }
        assert(!sep_at(g, i as int)) by {
            if sep_at(g, i as int) {
                assert(g.subrange(i as int, i + 5)[0] == g[i as int]);
                assert(g.subrange(i as int, i + 5)[1] == g[i + 1]);
                assert(g.subrange(i as int, i + 5)[2] == g[i + 2]);
                assert(g.subrange(i as int, i + 5)[3] == g[i + 3]);
                assert(g.subrange(i as int, i + 5)[4] == g[i + 4]);
            }
        }
        i += 1;
    }
    Err(FnTextError::MissingSeparator)
}

/// Appends `l` and a `\n` to `out`.
fn push_line(out: &mut Vec<char>, l: &[char])
    ensures
        final(out)@ == old(out)@ + l@ + seq!['\n'],
{
    out.extend_from_slice(l);
    out.push('\n');
    assert(out@ =~= old(out)@ + l@ + seq!['\n']);
}

/// Appends the lines of one instruction of a function in segment `seg`.
fn push_instr_text(out: &mut Vec<char>, seg: u16, ins: &Instr)
    ensures
        final(out)@ == old(out)@ + join_lines(instr_lines(seg, ins@)),
{
    let ghost o0 = out@;
    let ghost ls = instr_lines(seg, ins@);
    let ghost mut done: Seq<Seq<char>> = Seq::empty();
    match &ins.comment {
        Some(c) => {
            let mut l = comment_prefix_chars();
            push_str_chars(&mut l, c.as_str());
            push_line(out, &l);
            proof {
                done = seq![l@];
                assert(join_lines(done) =~= l@ + seq!['\n']) by {
                    assert(done.drop_last() =~= Seq::<Seq<char>>::empty());
                    assert(join_lines(done.drop_last()) == Seq::<char>::empty());
                }
            }
        },
        None => {},
    }
    assert(out@ == o0 + join_lines(done));
    match &ins.label {
        Some(lb) => {
            let mut l = label_prefix_chars();
            push_str_chars(&mut l, lb.as_str());
            push_line(out, &l);
            proof {
                let d0 = done;
                done = done.push(l@);
                assert(done.drop_last() =~= d0);
            }
        },
        None => {},
    }
    assert(out@ =~= o0 + join_lines(done));
    match &ins.jmp {
        Some(x) => {
            let mut l = jmp_prefix_chars();
            x.push_text(&mut l);
            push_line(out, &l);
            proof {
                let d0 = done;
                done = done.push(l@);
                assert(done.drop_last() =~= d0);
            }
        },
        None => {},
    }
    assert(out@ =~= o0 + join_lines(done));
    let mut l: Vec<char> = Vec::new();
    let a = SegOfs::new(seg, ins.iced.ip);
    a.push_text(&mut l);
    l.push(' ');
    push_str_chars(&mut l, ins.iced.text.as_str());
    assert(l@ =~= instr_line(seg, ins@));
    push_line(out, &l);
    proof {
        let d0 = done;
        done = done.push(l@);
        assert(done.drop_last() =~= d0);
        assert(done =~= ls);
    }
    assert(out@ =~= o0 + join_lines(done));
}

/// Writing lines one after another: the text of `a + b` is that of `a`, then that of `b`.
pub proof fn lemma_join_lines_append(a: Seq<Seq<char>>, b: Seq<Seq<char>>)
    ensures
        join_lines(a + b) == join_lines(a) + join_lines(b),
    decreases b.len(),
{
    if b.len() == 0 {
        assert(a + b =~= a);
        assert(join_lines(a) + join_lines(b) =~= join_lines(a));
    } else {
        assert((a + b).drop_last() =~= a + b.drop_last());
        assert((a + b).last() == b.last());
        lemma_join_lines_append(a, b.drop_last());
        assert(join_lines(a + b) =~= join_lines(a) + join_lines(b));
    }
}

impl Function {
    /// The function file: `header` (the function's annotations, written by the
    /// caller), the `---` separator, then each block's instructions, each with
    /// its comment, label and jump target above it, and a blank line after each
    /// block. Instruction addresses are in the function's segment.
    pub fn serialize(&self, header: &str) -> (r: String)
        ensures
            r@ == file_text(header@, self.ip.seg, block_views(self.blocks@)),
    {
        let seg = self.ip.seg;
        let ghost bs = block_views(self.blocks@);
        let mut out = chars_of(header);
        out.push('\n');
        out.push('-');
        out.push('-');
        out.push('-');
        out.push('\n');
        let ghost start = out@;
        assert(start =~= header@ + sep());
        let mut j: usize = 0;
        assert(bs.take(0) =~= Seq::<BlockV>::empty());
        while j < self.blocks.len()
            invariant
                j <= self.blocks@.len(),
                bs == block_views(self.blocks@),
                seg == self.ip.seg,
                start == header@ + sep(),
                out@ == start + join_lines(blocks_lines(seg, bs.take(j as int))),
            decreases self.blocks@.len() - j,
        {
            let b = &self.blocks[j];
            let ghost is = instr_views(b.instrs@);
            let ghost before = out@;
            let mut k: usize = 0;
            assert(is.take(0) =~= Seq::<InstrV>::empty());
            while k < b.instrs.len()
                invariant
                    k <= b.instrs@.len(),
                    is == instr_views(b.instrs@),
                    out@ == before + join_lines(instrs_lines(seg, is.take(k as int))),
                decreases b.instrs@.len() - k,
            {
                push_instr_text(&mut out, seg, &b.instrs[k]);
                proof {
                    assert(is.take(k + 1).drop_last() =~= is.take(k as int));
                    assert(is.take(k + 1).last() == b.instrs@[k as int]@);
                    lemma_join_lines_append(instrs_lines(seg, is.take(k as int)), instr_lines(seg, b.instrs@[k as int]@));
                }
                k += 1;
            }
            out.push('\n');
            proof {
                assert(is.take(k as int) =~= is);
                assert(bs.take(j + 1).drop_last() =~= bs.take(j as int));
                assert(bs.take(j + 1).last() == b@);
                let bl = blocks_lines(seg, bs.take(j as int));
                let il = instrs_lines(seg, is);
                lemma_join_lines_append(bl, il);
                lemma_join_lines_append(bl + il, seq![Seq::<char>::empty()]);
                let e = seq![Seq::<char>::empty()];
                assert(e.drop_last() =~= Seq::<Seq<char>>::empty());
                assert(join_lines(e.drop_last()) == Seq::<char>::empty());
                assert(join_lines(e) =~= seq!['\n']);
                assert(out@ =~= start + join_lines(blocks_lines(seg, bs.take(j + 1))));
            }
            j += 1;
        }
        assert(bs.take(j as int) =~= bs);
        string_from_chars(&out)
    }
}

/// Reading `a + b` is reading `a`, then reading `b` from where `a` left off.
pub proof fn lemma_read_lines_append(
    mem: Seq<u8>,
    st: BodyState,
    a: Seq<Seq<char>>,
    b: Seq<Seq<char>>,
    base: int,
)
    ensures
        read_lines(mem, st, a + b, base) == match read_lines(mem, st, a, base) {
            Ok(s1) => read_lines(mem, s1, b, base + a.len()),
            Err(e) => Err(e),
        },
    decreases b.len(),
{
    if b.len() == 0 {
        assert(a + b =~= a);
    } else {
        assert((a + b).drop_last() =~= a + b.drop_last());
        assert((a + b).last() == b.last());
        lemma_read_lines_append(mem, st, a, b.drop_last(), base);
    }
}

/// Once reading fails at some line, reading all the lines fails the same way.
proof fn lemma_read_lines_fails(mem: Seq<u8>, ls: Seq<Seq<char>>, n: int, e: FnTextError)
    requires
        0 <= n <= ls.len(),
        read_lines(mem, start_state(), ls.take(n), 0) == Err::<BodyState, FnTextError>(e),
    ensures
        read_lines(mem, start_state(), ls, 0) == Err::<BodyState, FnTextError>(e),
{
    lemma_read_lines_append(mem, start_state(), ls.take(n), ls.skip(n), 0);
    assert(ls.take(n) + ls.skip(n) =~= ls);
}

impl Function {
    /// Reads the body of a function file: `head` holds the annotations read
    /// from the header, and the blocks read from `body` follow its blocks.
    /// Each instruction is decoded from `mem` at its address. A body that would
    /// place an instruction past the end of `mem` (see `body_fits_memory`) has
    /// no position to decode from and is not taken.
    pub fn deserialize(mem: &[u8], head: Function, body: &str) -> (r: Result<Function, FnTextError>)
        requires
            !body_past_end(mem@, body@),
        ensures
            match parse_body(mem@, body@) {
                Ok(bs) => r matches Ok(f) && read_into(head, bs, f),
                Err(e) => r == Err::<Function, FnTextError>(e),
            },
    {
        Self::read_body(mem, head, body)
    }

    /// Whether every instruction the reader of `body` comes to lies at or
    /// before the end of `mem`, so that `deserialize` takes `body`.
    pub fn body_fits_memory(mem: &[u8], body: &str) -> (r: bool)
        ensures
            r == !body_past_end(mem@, body@),
    {
        match Self::read_body(mem, Function::new(SegOfs::new(0, 0)), body) {
            Err(FnTextError::AddrOutOfRange(_)) => false,
            _ => true,
        }
    }

    fn read_body(mem: &[u8], head: Function, body: &str) -> (r: Result<Function, FnTextError>)
        ensures
            match parse_body(mem@, body@) {
                Ok(bs) => r matches Ok(f) && read_into(head, bs, f),
                Err(e) => r == Err::<Function, FnTextError>(e),
            },
    {
        let chars = chars_of(body);
        let ls = split_lines(&chars);
        let ghost gl = lines(body@);
        let cp = comment_prefix_chars();
        let jp = jmp_prefix_chars();
        let lp = label_prefix_chars();
        let mut done: Vec<Block> = Vec::new();
        let mut cur = Block { ip: SegOfs::new(0, 0), instrs: Vec::new() };
        let mut comment: Vec<char> = Vec::new();
        let mut label: Option<String> = None;
        let mut jmp: Option<XRef> = None;
        let mut i: usize = 0;
        proof {
            assert(gl.take(0) =~= Seq::<Seq<char>>::empty());
            assert(instr_views(cur.instrs@) =~= Seq::<InstrV>::empty());
            assert(block_views(done@).push(cur@) =~= start_state().blocks);
        }
        while i < ls.len()
            invariant
                lines_view(ls@) == gl,
                gl == lines(body@),
                cp@ == comment_prefix(),
                jp@ == jmp_prefix(),
                lp@ == label_prefix(),
                i <= ls@.len(),
                read_lines(mem@, start_state(), gl.take(i as int), 0) == Ok::<BodyState, FnTextError>(
                    BodyState {
                        blocks: block_views(done@).push(cur@),
                        comment: comment@,
                        label: opt_view(label),
                        jmp: opt_xref_view(jmp),
                    },
                ),
            decreases ls@.len() - i,
        {
            let line = &ls[i];
            let ghost st = BodyState {
                blocks: block_views(done@).push(cur@),
                comment: comment@,
                label: opt_view(label),
                jmp: opt_xref_view(jmp),
            };
            proof {
                assert(gl.take(i + 1).drop_last() =~= gl.take(i as int));
                assert(gl.take(i + 1).last() == line@);
                assert(read_lines(mem@, start_state(), gl.take(i + 1), 0) == body_step(mem@, st, i as int, line@));
            }
            if line.len() == 0 {
                let ghost d0 = done@;
                done.push(cur);
                cur = Block { ip: SegOfs::new(0, 0), instrs: Vec::new() };
                proof {
                    assert(instr_views(cur.instrs@) =~= Seq::<InstrV>::empty());
                    assert(block_views(done@) =~= block_views(d0).push(st.blocks.last()));
                    assert(block_views(done@).push(cur@) =~= st.blocks.push(empty_block()));
                }
            } else if has_prefix(line, &cp) {
                let rest = slice_range(line, 2, line.len());
                comment.extend_from_slice(&rest);
                assert(comment@ =~= st.comment + line@.skip(2));
            } else if has_prefix(line, &jp) {
                let rest = slice_range(line, 5, line.len());
                assert(rest@ =~= line@.skip(5));
                match XRef::from_chars(&rest) {
                    Ok(x) => {
                        jmp = Some(x);
                    },
                    Err(e) => {
                        proof {
                            lemma_read_lines_fails(mem@, gl, i + 1, FnTextError::BadXRef(i, e));
                        }
                        return Err(FnTextError::BadXRef(i, e));
                    },
                }
            } else if has_prefix(line, &lp) {
                let rest = slice_range(line, 7, line.len());
                assert(rest@ =~= line@.skip(7));
                label = Some(string_from_chars(&rest));
            } else {
                match split_once_char(line, ' ') {
                    None => {
                        proof {
                            lemma_read_lines_fails(mem@, gl, i + 1, FnTextError::MissingAddr(i));
                        }
                        return Err(FnTextError::MissingAddr(i));
                    },
                    Some((addr, _)) => match SegOfs::parse_chars(&addr) {
                        Err(e) => {
                            proof {
                                lemma_read_lines_fails(mem@, gl, i + 1, FnTextError::BadAddr(i, e));
                            }
                            return Err(FnTextError::BadAddr(i, e));
                        },
                        Ok(a) => {
                            let abs = a.abs() as usize;
                            if abs > mem.len() {
                                proof {
                                    lemma_read_lines_fails(mem@, gl, i + 1, FnTextError::AddrOutOfRange(i));
                                }
                                return Err(FnTextError::AddrOutOfRange(i));
                            }
                            let iced = decode(mem, abs, a.ofs);
                            let c = if comment.len() == 0 {
                                None
                            } else {
                                Some(string_from_chars(&comment))
                            };
                            let ins = Instr { comment: c, label, jmp, memory: None, iced };
                            label = None;
                            jmp = None;
                            comment = Vec::new();
                            if cur.ip.is_null() {
                                cur.ip = a;
                            }
                            let ghost is0 = instr_views(cur.instrs@);
                            cur.instrs.push(ins);
                            proof {
                                assert(instr_views(cur.instrs@) =~= is0.push(ins@));
                                assert(comment@ =~= Seq::<char>::empty());
                                assert(block_views(done@).push(cur@) =~= push_instr(mem@, st, a).blocks);
                            }
                        },
                    },
                }
            }
            i += 1;
        }
        proof {
            assert(gl.take(i as int) =~= gl);
        }
        if cur.instrs.len() > 0 {
            let ghost d0 = done@;
            done.push(cur);
            assert(block_views(done@) =~= block_views(d0).push(cur@));
        } else {
            assert(block_views(done@) =~= block_views(done@).push(cur@).drop_last());
        }
        let mut f = head;
        let ghost hb = f.blocks@;
        let ghost db = done@;
        f.blocks.append(&mut done);
        assert(block_views(f.blocks@) =~= block_views(hb) + block_views(db));
        Ok(f)
    }
}

// ---------------------------------------------------------------------------
// Reading back what was written

/// A line that `str::lines` gives back whole: no `\n` in it and no `\r` at its end.
pub open spec fn line_ok(l: Seq<char>) -> bool {
    !l.contains('\n') && (l.len() == 0 || l.last() != '\r')
}

/// The names an xref carries fit on a line and read back unchanged.
pub open spec fn xref_writable(x: XRefV) -> bool {
    &&& crate::xref::xref_names_ok(x)
    &&& match x {
        XRefV::External(Some(n), _) => !n.contains('\n'),
        XRefV::Block(Some(n), _) => !n.contains('\n'),
        _ => true,
    }
}

/// An instruction that reads back as written from a file of a function in
/// segment `seg` over `mem`: its comment is not empty, its annotations and its
/// text fit on a line, and it is the instruction decoded from `mem` at its address.
pub open spec fn instr_writable(mem: Seq<u8>, seg: u16, i: InstrV) -> bool {
    &&& (i.comment matches Some(c) ==> c.len() > 0 && line_ok(c))
    &&& (i.label matches Some(l) ==> line_ok(l))
    &&& (i.jmp matches Some(x) ==> xref_writable(x))
    &&& line_ok(i.iced.text)
    &&& spec_abs(instr_addr(seg, i)) <= mem.len()
    &&& i.iced == spec_decode(mem, spec_abs(instr_addr(seg, i)) as int, i.iced.ip)
}

/// A block that reads back as written: it has instructions, starts at the
/// address of its first one, which is not `0000:0000`, and each instruction
/// reads back as written.
pub open spec fn block_writable(mem: Seq<u8>, seg: u16, b: BlockV) -> bool {
    &&& b.instrs.len() > 0
    &&& b.ip == instr_addr(seg, b.instrs[0])
    &&& b.ip != null_addr()
    &&& forall|k: int| 0 <= k < b.instrs.len() ==> instr_writable(mem, seg, #[trigger] b.instrs[k])
}

/// What the file keeps of an instruction: everything but the memory address.
pub open spec fn without_memory(i: InstrV) -> InstrV {
    InstrV { memory: None, ..i }
}

pub open spec fn block_without_memory(b: BlockV) -> BlockV {
    BlockV { ip: b.ip, instrs: b.instrs.map_values(|i: InstrV| without_memory(i)) }
}

/// What the file keeps of the blocks.
pub open spec fn written_blocks(bs: Seq<BlockV>) -> Seq<BlockV> {
    bs.map_values(|b: BlockV| block_without_memory(b))
}

proof fn lemma_contains_concat(a: Seq<char>, b: Seq<char>, c: char)
    ensures
        (a + b).contains(c) <==> (a.contains(c) || b.contains(c)),
{
    if (a + b).contains(c) {
        let k = choose|k: int| 0 <= k < (a + b).len() && (a + b)[k] == c;
        if k < a.len() {
            assert(a[k] == c);
        } else {
            assert(b[k - a.len()] == c);
        }
    }
    if a.contains(c) {
        let k = choose|k: int| 0 <= k < a.len() && a[k] == c;
        assert((a + b)[k] == c);
    }
    if b.contains(c) {
        let k = choose|k: int| 0 <= k < b.len() && b[k] == c;
        assert((a + b)[k + a.len()] == c);
    }
}

proof fn lemma_lines_cons(l: Seq<char>, rest: Seq<char>)
    requires
        line_ok(l),
    ensures
        lines(l + seq!['\n'] + rest) == seq![l] + lines(rest),
{
    let s = l + seq!['\n'] + rest;
    assert forall|j: int| 0 <= j < l.len() implies s[j] != '\n' by {
        assert(s[j] == l[j]);
        if l[j] == '\n' {
            assert(l.contains('\n'));
        }
    }
    assert(s[l.len() as int] == '\n');
    lemma_first_index_unique(s, '\n', l.len() as int);
    assert(s.take(l.len() as int) =~= l);
    assert(s.skip(l.len() as int + 1) =~= rest);
}

/// Splitting written lines into lines gives them back.
pub proof fn lemma_lines_join(ls: Seq<Seq<char>>, rest: Seq<char>)
    requires
        forall|k: int| 0 <= k < ls.len() ==> line_ok(#[trigger] ls[k]),
    ensures
        lines(join_lines(ls) + rest) == ls + lines(rest),
    decreases ls.len(),
{
    if ls.len() == 0 {
        assert(join_lines(ls) + rest =~= rest);
        assert(ls + lines(rest) =~= lines(rest));
    } else {
        let dl = ls.drop_last();
        let r2 = ls.last() + seq!['\n'] + rest;
        assert(join_lines(ls) + rest =~= join_lines(dl) + r2);
        assert(line_ok(ls[ls.len() - 1]));
        lemma_lines_join(dl, r2);
        lemma_lines_cons(ls.last(), rest);
        assert(ls + lines(rest) =~= dl + (seq![ls.last()] + lines(rest)));
    }
}

pub open spec fn all_lines_ok(ls: Seq<Seq<char>>) -> bool {
    forall|k: int| 0 <= k < ls.len() ==> line_ok(#[trigger] ls[k])
}

proof fn lemma_all_lines_ok_concat(a: Seq<Seq<char>>, b: Seq<Seq<char>>)
    requires
        all_lines_ok(a),
        all_lines_ok(b),
    ensures
        all_lines_ok(a + b),
{
    assert forall|k: int| 0 <= k < (a + b).len() implies line_ok(#[trigger] (a + b)[k]) by {
        if k < a.len() {
            assert((a + b)[k] == a[k]);
        } else {
            assert((a + b)[k] == b[k - a.len()]);
        }
    }
}

/// The printed form of an address: nine characters, hexadecimal digits and one `:`.
proof fn lemma_segofs_text_chars(a: SegOfs)
    ensures
        segofs_text(a).len() == 9,
        forall|j: int|
            0 <= j < 9 ==> crate::text::is_hex_digit(#[trigger] segofs_text(a)[j]) || segofs_text(
                a,
            )[j] == ':',
        crate::text::is_hex_digit(segofs_text(a)[0]),
        crate::text::is_hex_digit(segofs_text(a)[8]),
{
    crate::text::lemma_hex4(a.seg);
    crate::text::lemma_hex4(a.ofs);
    let s = segofs_text(a);
    assert forall|j: int| 0 <= j < 9 implies crate::text::is_hex_digit(#[trigger] s[j]) || s[j] == ':' by {
        if j < 4 {
            assert(s[j] == hex4_of(a.seg)[j]);
        } else if j > 4 {
            assert(s[j] == hex4_of(a.ofs)[j - 5]);
        }
    }
    assert(s[0] == hex4_of(a.seg)[0]);
    assert(s[8] == hex4_of(a.ofs)[3]);
}

spec fn hex4_of(v: u16) -> Seq<char> {
    crate::text::hex4(v)
}

proof fn lemma_segofs_text_no(a: SegOfs, c: char)
    requires
        !crate::text::is_hex_digit(c),
        c != ':',
    ensures
        !segofs_text(a).contains(c),
{
    lemma_segofs_text_chars(a);
    if segofs_text(a).contains(c) {
        let j = choose|j: int| 0 <= j < segofs_text(a).len() && segofs_text(a)[j] == c;
        assert(crate::text::is_hex_digit(segofs_text(a)[j]) || segofs_text(a)[j] == ':');
    }
}

proof fn lemma_dec_string_no(n: nat, c: char)
    requires
        !crate::text::is_dec_digit(c),
    ensures
        !crate::text::dec_string(n).contains(c),
        !crate::text::is_dec_digit(c) ==> crate::text::dec_string(n).last() != c,
{
    crate::text::lemma_dec_string(n);
    let s = crate::text::dec_string(n);
    if s.contains(c) {
        let j = choose|j: int| 0 <= j < s.len() && s[j] == c;
        assert(crate::text::is_dec_digit(s[j]));
    }
    assert(crate::text::is_dec_digit(s[s.len() - 1]));
}

/// The text of a writable xref fits on a line.
proof fn lemma_xref_text_line(x: XRefV)
    requires
        xref_writable(x),
    ensures
        !xref_text(x).contains('\n'),
        xref_text(x).len() > 0,
        xref_text(x).last() != '\r',
{
    let t = xref_text(x);
    match x {
        XRefV::External(None, ip) => {
            lemma_segofs_text_chars(ip);
            lemma_segofs_text_no(ip, '\n');
        },
        XRefV::External(Some(n), ip) => {
            lemma_segofs_text_chars(ip);
            lemma_segofs_text_no(ip, '\n');
            lemma_contains_concat(n, seq!['@'], '\n');
            lemma_contains_concat(n + seq!['@'], segofs_text(ip), '\n');
            assert(t.last() == segofs_text(ip)[8]);
        },
        XRefV::Block(None, idx) => {
            lemma_dec_string_no(idx as nat, '\n');
            lemma_dec_string_no(idx as nat, '\r');
            lemma_contains_concat(seq!['\''], crate::text::dec_string(idx as nat), '\n');
            assert(t.last() == crate::text::dec_string(idx as nat).last());
        },
        XRefV::Block(Some(l), idx) => {
            lemma_dec_string_no(idx as nat, '\n');
            lemma_dec_string_no(idx as nat, '\r');
            crate::text::lemma_dec_string(idx as nat);
            lemma_contains_concat(seq!['\''], l, '\n');
            lemma_contains_concat(seq!['\''] + l, seq!['@'], '\n');
            lemma_contains_concat(seq!['\''] + l + seq!['@'], crate::text::dec_string(idx as nat), '\n');
            assert(t.last() == crate::text::dec_string(idx as nat).last());
        },
    }
}

/// The lines written for a writable instruction each fit on a line.
proof fn lemma_instr_lines_ok(mem: Seq<u8>, seg: u16, i: InstrV)
    requires
        instr_writable(mem, seg, i),
    ensures
        all_lines_ok(instr_lines(seg, i)),
{
    let a: Seq<Seq<char>> = match i.comment {
        Some(c) => seq![comment_prefix() + c],
        None => Seq::empty(),
    };
    let b: Seq<Seq<char>> = match i.label {
        Some(l) => seq![label_prefix() + l],
        None => Seq::empty(),
    };
    let c: Seq<Seq<char>> = match i.jmp {
        Some(x) => seq![jmp_prefix() + xref_text(x)],
        None => Seq::empty(),
    };
    let d = seq![instr_line(seg, i)];
    match i.comment {
        Some(t) => {
            lemma_contains_concat(comment_prefix(), t, '\n');
            assert(!comment_prefix().contains('\n')) by {
                if comment_prefix().contains('\n') {
                    let j = choose|j: int| 0 <= j < 2 && comment_prefix()[j] == '\n';
                }
            }
            assert((comment_prefix() + t).last() == t.last());
            assert(line_ok(a[0]));
        },
        None => {},
    }
    match i.label {
        Some(t) => {
            lemma_contains_concat(label_prefix(), t, '\n');
            assert(!label_prefix().contains('\n')) by {
                if label_prefix().contains('\n') {
                    let j = choose|j: int| 0 <= j < 7 && label_prefix()[j] == '\n';
                }
            }
            if t.len() > 0 {
                assert((label_prefix() + t).last() == t.last());
            } else {
                assert((label_prefix() + t).last() == ' ');
            }
            assert(line_ok(b[0]));
        },
        None => {},
    }
    match i.jmp {
        Some(x) => {
            lemma_xref_text_line(x);
            lemma_contains_concat(jmp_prefix(), xref_text(x), '\n');
            assert(!jmp_prefix().contains('\n')) by {
                if jmp_prefix().contains('\n') {
                    let j = choose|j: int| 0 <= j < 5 && jmp_prefix()[j] == '\n';
                }
            }
            assert((jmp_prefix() + xref_text(x)).last() == xref_text(x).last());
            assert(line_ok(c[0]));
        },
        None => {},
    }
    let a0 = instr_addr(seg, i);
    lemma_segofs_text_no(a0, '\n');
    lemma_contains_concat(segofs_text(a0), seq![' '], '\n');
    lemma_contains_concat(segofs_text(a0) + seq![' '], i.iced.text, '\n');
    if i.iced.text.len() > 0 {
        assert(instr_line(seg, i).last() == i.iced.text.last());
    } else {
        assert(instr_line(seg, i).last() == ' ');
    }
    assert(line_ok(d[0]));
    lemma_all_lines_ok_concat(a, b);
    lemma_all_lines_ok_concat(a + b, c);
    lemma_all_lines_ok_concat(a + b + c, d);
}

proof fn lemma_read_one(mem: Seq<u8>, st: BodyState, line: Seq<char>, base: int)
    ensures
        read_lines(mem, st, seq![line], base) == body_step(mem, st, base, line),
{
    assert(seq![line].drop_last() =~= Seq::<Seq<char>>::empty());
    assert(read_lines(mem, st, Seq::<Seq<char>>::empty(), base) == Ok::<BodyState, FnTextError>(st));
    assert(seq![line].last() == line);
}

/// A state with nothing waiting for the next instruction.
pub open spec fn clean(st: BodyState) -> bool {
    st.comment.len() == 0 && st.label is None && st.jmp is None && st.blocks.len() > 0
}

/// Reading the lines of a writable instruction adds it to the last block.
#[verifier::rlimit(40)]
#[verifier::spinoff_prover]
proof fn lemma_read_instr(mem: Seq<u8>, seg: u16, st: BodyState, i: InstrV, base: int)
    requires
        instr_writable(mem, seg, i),
        clean(st),
    ensures
        read_lines(mem, st, instr_lines(seg, i), base) == Ok::<BodyState, FnTextError>(
            BodyState {
                blocks: st.blocks.update(
                    st.blocks.len() - 1,
                    BlockV {
                        ip: if st.blocks.last().ip == null_addr() {
                            instr_addr(seg, i)
                        } else {
                            st.blocks.last().ip
                        },
                        instrs: st.blocks.last().instrs.push(without_memory(i)),
                    },
                ),
                comment: Seq::empty(),
                label: None,
                jmp: None,
            },
        ),
{
    let a: Seq<Seq<char>> = match i.comment {
        Some(c) => seq![comment_prefix() + c],
        None => Seq::empty(),
    };
    let b: Seq<Seq<char>> = match i.label {
        Some(l) => seq![label_prefix() + l],
        None => Seq::empty(),
    };
    let c: Seq<Seq<char>> = match i.jmp {
        Some(x) => seq![jmp_prefix() + xref_text(x)],
        None => Seq::empty(),
    };
    let d = seq![instr_line(seg, i)];
    assert(instr_lines(seg, i) == a + b + c + d);
    lemma_read_lines_append(mem, st, a + b + c, d, base);
    lemma_read_lines_append(mem, st, a + b, c, base);
    lemma_read_lines_append(mem, st, a, b, base);
    // after the comment line
    let st1 = BodyState {
        comment: match i.comment {
            Some(t) => t,
            None => Seq::empty(),
        },
        ..st
    };
    match i.comment {
        Some(t) => {
            let line = comment_prefix() + t;
            lemma_read_one(mem, st, line, base);
            assert(line.take(2) =~= comment_prefix());
            assert(line.skip(2) =~= t);
            assert(st.comment + t =~= t);
        },
        None => {
            assert(st.comment =~= Seq::<char>::empty());
            assert(st1 == st);
        },
    }
    assert(read_lines(mem, st, a, base) == Ok::<BodyState, FnTextError>(st1));
    // after the label line
    let st2 = BodyState { label: i.label, ..st1 };
    match i.label {
        Some(t) => {
            let line = label_prefix() + t;
            lemma_read_one(mem, st1, line, base + a.len());
            assert(line[0] == '@');
            assert(line.take(2)[0] != comment_prefix()[0]);
            assert(strip_str(line, comment_prefix()) is None);
            assert(line.take(5)[1] != jmp_prefix()[1]);
            assert(strip_str(line, jmp_prefix()) is None);
            assert(line.take(7) =~= label_prefix());
            assert(line.skip(7) =~= t);
        },
        None => {},
    }
    assert(read_lines(mem, st1, b, base + a.len()) == Ok::<BodyState, FnTextError>(st2));
    // after the jump line
    let st3 = BodyState { jmp: i.jmp, ..st2 };
    match i.jmp {
        Some(x) => {
            let line = jmp_prefix() + xref_text(x);
            lemma_read_one(mem, st2, line, base + a.len() + b.len());
            assert(line.take(2)[0] != comment_prefix()[0]);
            assert(strip_str(line, comment_prefix()) is None);
            assert(line.take(5) =~= jmp_prefix());
            assert(line.skip(5) =~= xref_text(x));
            crate::xref::lemma_xref_round_trip(x);
        },
        None => {},
    }
    assert(read_lines(mem, st2, c, base + (a + b).len()) == Ok::<BodyState, FnTextError>(st3));
    // the instruction line
    let ad = instr_addr(seg, i);
    let line = instr_line(seg, i);
    lemma_read_one(mem, st3, line, base + (a + b + c).len());
    lemma_segofs_text_chars(ad);
    assert(line[0] == segofs_text(ad)[0]);
    assert(line.take(2)[0] != comment_prefix()[0]);
    assert(strip_str(line, comment_prefix()) is None);
    assert(line.take(5)[0] != jmp_prefix()[0]);
    assert(strip_str(line, jmp_prefix()) is None);
    assert(line.take(7)[0] != label_prefix()[0]);
    assert(strip_str(line, label_prefix()) is None);
    assert forall|j: int| 0 <= j < 9 implies line[j] != ' ' by {
        assert(line[j] == segofs_text(ad)[j]);
    }
    assert(line[9] == ' ');
    lemma_first_index_unique(line, ' ', 9);
    assert(line.take(9) =~= segofs_text(ad));
    crate::segofs::lemma_segofs_round_trip(ad);
    assert(body_step(mem, st3, base + (a + b + c).len(), line) == Ok::<BodyState, FnTextError>(
        push_instr(mem, st3, ad),
    ));
    let ins = InstrV {
        comment: if st3.comment.len() == 0 {
            None
        } else {
            Some(st3.comment)
        },
        label: st3.label,
        jmp: st3.jmp,
        memory: None,
        iced: spec_decode(mem, spec_abs(ad) as int, ad.ofs),
    };
    assert(ins == without_memory(i));
}

proof fn lemma_instrs_lines_ok(mem: Seq<u8>, seg: u16, is: Seq<InstrV>)
    requires
        forall|k: int| 0 <= k < is.len() ==> instr_writable(mem, seg, #[trigger] is[k]),
    ensures
        all_lines_ok(instrs_lines(seg, is)),
    decreases is.len(),
{
    if is.len() > 0 {
        lemma_instrs_lines_ok(mem, seg, is.drop_last());
        assert(instr_writable(mem, seg, is[is.len() - 1]));
        lemma_instr_lines_ok(mem, seg, is.last());
        lemma_all_lines_ok_concat(instrs_lines(seg, is.drop_last()), instr_lines(seg, is.last()));
    }
}

proof fn lemma_blocks_lines_ok(mem: Seq<u8>, seg: u16, bs: Seq<BlockV>)
    requires
        forall|k: int| 0 <= k < bs.len() ==> block_writable(mem, seg, #[trigger] bs[k]),
    ensures
        all_lines_ok(blocks_lines(seg, bs)),
    decreases bs.len(),
{
    if bs.len() > 0 {
        lemma_blocks_lines_ok(mem, seg, bs.drop_last());
        let b = bs.last();
        assert(block_writable(mem, seg, bs[bs.len() - 1]));
        lemma_instrs_lines_ok(mem, seg, b.instrs);
        let e = seq![Seq::<char>::empty()];
        assert(line_ok(e[0]));
        lemma_all_lines_ok_concat(blocks_lines(seg, bs.drop_last()), instrs_lines(seg, b.instrs));
        lemma_all_lines_ok_concat(blocks_lines(seg, bs.drop_last()) + instrs_lines(seg, b.instrs), e);
    }
}

/// A block read up to its `m`-th instruction.
pub open spec fn partial_block(b: BlockV, m: int) -> BlockV {
    BlockV {
        ip: if m == 0 {
            null_addr()
        } else {
            b.ip
        },
        instrs: b.instrs.take(m).map_values(|i: InstrV| without_memory(i)),
    }
}

pub open spec fn clean_state(blocks: Seq<BlockV>) -> BodyState {
    BodyState { blocks, comment: Seq::empty(), label: None, jmp: None }
}

proof fn lemma_read_block_instrs(mem: Seq<u8>, seg: u16, pre: Seq<BlockV>, b: BlockV, m: int, base: int)
    requires
        block_writable(mem, seg, b),
        0 <= m <= b.instrs.len(),
    ensures
        read_lines(mem, clean_state(pre.push(empty_block())), instrs_lines(seg, b.instrs.take(m)), base)
            == Ok::<BodyState, FnTextError>(clean_state(pre.push(partial_block(b, m)))),
    decreases m,
{
    let st0 = clean_state(pre.push(empty_block()));
    if m == 0 {
        assert(b.instrs.take(0) =~= Seq::<InstrV>::empty());
        assert(partial_block(b, 0).instrs =~= Seq::<InstrV>::empty());
        assert(partial_block(b, 0) == empty_block());
    } else {
        let t = b.instrs.take(m);
        assert(t.drop_last() =~= b.instrs.take(m - 1));
        assert(t.last() == b.instrs[m - 1]);
        lemma_read_block_instrs(mem, seg, pre, b, m - 1, base);
        let l0 = instrs_lines(seg, b.instrs.take(m - 1));
        lemma_read_lines_append(mem, st0, l0, instr_lines(seg, b.instrs[m - 1]), base);
        let s1 = clean_state(pre.push(partial_block(b, m - 1)));
        assert(instr_writable(mem, seg, b.instrs[m - 1]));
        lemma_read_instr(mem, seg, s1, b.instrs[m - 1], base + l0.len());
        assert(s1.blocks.last() == partial_block(b, m - 1));
        if m - 1 == 0 {
            assert(partial_block(b, m - 1).ip == null_addr());
        } else {
            assert(partial_block(b, m - 1).ip != null_addr());
        }
        assert(partial_block(b, m - 1).instrs.push(without_memory(b.instrs[m - 1])) =~= partial_block(
            b,
            m,
        ).instrs);
        assert(s1.blocks.update(s1.blocks.len() - 1, partial_block(b, m)) =~= pre.push(
            partial_block(b, m),
        ));
    }
}

proof fn lemma_read_blocks(mem: Seq<u8>, seg: u16, bs: Seq<BlockV>, base: int)
    requires
        forall|k: int| 0 <= k < bs.len() ==> block_writable(mem, seg, #[trigger] bs[k]),
    ensures
        read_lines(mem, start_state(), blocks_lines(seg, bs), base) == Ok::<BodyState, FnTextError>(
            clean_state(written_blocks(bs).push(empty_block())),
        ),
    decreases bs.len(),
{
    if bs.len() == 0 {
        assert(written_blocks(bs).push(empty_block()) =~= seq![empty_block()]);
        assert(start_state() == clean_state(written_blocks(bs).push(empty_block())));
    } else {
        let dl = bs.drop_last();
        let b = bs.last();
        assert(block_writable(mem, seg, bs[bs.len() - 1]));
        lemma_read_blocks(mem, seg, dl, base);
        let l0 = blocks_lines(seg, dl);
        let l1 = instrs_lines(seg, b.instrs);
        let e = seq![Seq::<char>::empty()];
        lemma_read_lines_append(mem, start_state(), l0 + l1, e, base);
        lemma_read_lines_append(mem, start_state(), l0, l1, base);
        let pre = written_blocks(dl);
        assert(b.instrs.take(b.instrs.len() as int) =~= b.instrs);
        lemma_read_block_instrs(mem, seg, pre, b, b.instrs.len() as int, base + l0.len());
        assert(partial_block(b, b.instrs.len() as int) =~= block_without_memory(b));
        let s2 = clean_state(pre.push(block_without_memory(b)));
        lemma_read_one(mem, s2, Seq::<char>::empty(), base + (l0 + l1).len());
        assert(written_blocks(bs) =~= pre.push(block_without_memory(b)));
    }
}

/// Reading the body that was written for blocks that read back as written
/// gives the blocks back, without their memory addresses, which the file does
/// not hold.
pub proof fn lemma_body_round_trip(mem: Seq<u8>, seg: u16, bs: Seq<BlockV>)
    requires
        forall|k: int| 0 <= k < bs.len() ==> block_writable(mem, seg, #[trigger] bs[k]),
    ensures
        parse_body(mem, body_text(seg, bs)) == Ok::<Seq<BlockV>, FnTextError>(written_blocks(bs)),
{
    lemma_blocks_lines_ok(mem, seg, bs);
    lemma_lines_join(blocks_lines(seg, bs), Seq::empty());
    assert(join_lines(blocks_lines(seg, bs)) + Seq::<char>::empty() =~= body_text(seg, bs));
    assert(lines(Seq::<char>::empty()) == Seq::<Seq<char>>::empty());
    assert(blocks_lines(seg, bs) + Seq::<Seq<char>>::empty() =~= blocks_lines(seg, bs));
    lemma_read_blocks(mem, seg, bs, 0);
    assert(written_blocks(bs).push(empty_block()).drop_last() =~= written_blocks(bs));
}

/// A header that leaves the first separator of the file to the one written
/// after it: no separator starts inside it.
pub open spec fn header_ok(h: Seq<char>) -> bool {
    forall|j: int| 0 <= j < h.len() ==> !sep_at(h + sep(), j)
}

proof fn lemma_first_sep_at(s: Seq<char>, i: int, k: int)
    requires
        0 <= i <= k,
        sep_at(s, k),
        forall|j: int| i <= j < k ==> !sep_at(s, j),
    ensures
        first_sep(s, i) == Some(k),
    decreases k - i,
{
    if i < k {
        lemma_first_sep_at(s, i + 1, k);
    }
}

/// Splitting a written file at its first separator gives back the header and
/// the body.
pub proof fn lemma_sections_round_trip(header: Seq<char>, body: Seq<char>)
    requires
        header_ok(header),
    ensures
        split_sections_spec(header + sep() + body) == Some((header, body)),
{
    let s = header + sep() + body;
    let n = header.len() as int;
    assert forall|j: int| 0 <= j < n implies !sep_at(s, j) by {
        assert(!sep_at(header + sep(), j));
        if sep_at(s, j) {
            assert(s.subrange(j, j + 5) =~= (header + sep()).subrange(j, j + 5));
        }
    }
    assert(s.subrange(n, n + 5) =~= sep());
    lemma_first_sep_at(s, 0, n);
    assert(s.take(n) =~= header);
    assert(s.skip(n + 5) =~= body);
}

/// What a read gives back of a write: the file written for a function, split
/// into header and body and read, gives back the header and the function's
/// blocks (without memory addresses, which the file does not hold), provided
/// no separator starts inside the header and the blocks read back as written.
pub proof fn lemma_file_round_trip(mem: Seq<u8>, header: Seq<char>, seg: u16, bs: Seq<BlockV>)
    requires
        header_ok(header),
        forall|k: int| 0 <= k < bs.len() ==> block_writable(mem, seg, #[trigger] bs[k]),
    ensures
        split_sections_spec(file_text(header, seg, bs)) == Some((header, body_text(seg, bs))),
        parse_body(mem, body_text(seg, bs)) == Ok::<Seq<BlockV>, FnTextError>(written_blocks(bs)),
{
    lemma_sections_round_trip(header, body_text(seg, bs));
    lemma_body_round_trip(mem, seg, bs);
}

/// The name of a function's file: its name, or its address as `ssss_oooo`,
/// with `.toml` after it.
pub open spec fn file_name_spec(name: Option<Seq<char>>, ip: SegOfs) -> Seq<char> {
    match name {
        Some(n) => n + ".toml"@,
        None => crate::text::hex4(ip.seg) + seq!['_'] + crate::text::hex4(ip.ofs) + ".toml"@,
    }
}

impl Function {
    /// The name of the function's file in the project.
    pub fn file_name(&self) -> (r: String)
        ensures
            r@ == file_name_spec(opt_view(self.name), self.ip),
    {
        let mut v: Vec<char> = Vec::new();
        match &self.name {
            Some(n) => {
                push_str_chars(&mut v, n.as_str());
            },
            None => {
                crate::text::push_hex4(&mut v, self.ip.seg);
                v.push('_');
                crate::text::push_hex4(&mut v, self.ip.ofs);
            },
        }
        push_str_chars(&mut v, ".toml");
        string_from_chars(&v)
    }
}

} // verus!
