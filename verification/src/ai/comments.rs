//! Taking in free-form comments: a reply of lines `ssss:oooo text`, each
//! comment added to the instruction at its address.
use vstd::prelude::*;

use crate::function::{block_views, instr_views, BlockV, Function, InstrV};
use crate::segofs::{parse_segofs, SegOfs};
use crate::text::{
    chars_of, first_index, lemma_first_index, lemma_first_index_unique, slice_range, split_once,
    split_once_char, string_from_chars,
};

verus! {

/// `str::split('\n')`: the pieces between newlines, the last one after the
/// last newline (empty when the text ends with one).
pub open spec fn split_newlines(s: Seq<char>) -> Seq<Seq<char>>
    decreases s.len(),
{
    match first_index(s, '\n') {
        Some(i) => if 0 <= i < s.len() {
            seq![s.take(i)] + split_newlines(s.skip(i + 1))
        } else {
            seq![s]
        },
        None => seq![s],
    }
}

/// The comment a line stands for: a non-empty line whose text before the
/// first space is an address.
pub open spec fn comment_of_line(line: Seq<char>) -> Option<(SegOfs, Seq<char>)> {
    if line.len() == 0 {
        None
    } else {
        match split_once(line, ' ') {
            None => None,
            Some((a, c)) => match parse_segofs(a) {
                Ok(addr) => Some((addr, c)),
                Err(_) => None,
            },
        }
    }
}

/// The comments of the lines, in order; other lines are skipped.
pub open spec fn comments_of(lines: Seq<Seq<char>>) -> Seq<(SegOfs, Seq<char>)>
    decreases lines.len(),
{
    if lines.len() == 0 {
        Seq::empty()
    } else {
        comments_of(lines.drop_last()) + match comment_of_line(lines.last()) {
            Some(c) => seq![c],
            None => Seq::empty(),
        }
    }
}

pub open spec fn comment_pairs_view(v: Seq<(SegOfs, String)>) -> Seq<(SegOfs, Seq<char>)> {
    v.map_values(|p: (SegOfs, String)| (p.0, p.1@))
}

fn split_on_newlines(s: &[char]) -> (r: Vec<Vec<char>>)
    ensures
        r@.map_values(|l: Vec<char>| l@) == split_newlines(s@),
{
    let mut out: Vec<Vec<char>> = Vec::new();
    let mut start: usize = 0;
    let mut i: usize = 0;
    assert(s@.skip(0) =~= s@);
    while i < s.len()
        invariant
            start <= i <= s@.len(),
            out@.map_values(|l: Vec<char>| l@) + split_newlines(s@.skip(start as int)) == split_newlines(s@),
            forall|j: int| start <= j < i ==> s@[j] != '\n',
        decreases s@.len() - i,
    {
        if s[i] == '\n' {
            let ghost t = s@.skip(start as int);
            proof {
                assert forall|j: int| 0 <= j < i - start implies t[j] != '\n' by {
                    assert(t[j] == s@[start + j]);
                }
                lemma_first_index_unique(t, '\n', i - start);
                assert(t.take(i - start) =~= s@.subrange(start as int, i as int));
                assert(t.skip(i - start + 1) =~= s@.skip(i + 1));
            }
            let piece = slice_range(s, start, i);
            let ghost before = out@.map_values(|l: Vec<char>| l@);
            out.push(piece);
            proof {
                assert(out@.map_values(|l: Vec<char>| l@) =~= before.push(piece@));
                assert(out@.map_values(|l: Vec<char>| l@) + split_newlines(s@.skip(i + 1)) =~= before
                    + split_newlines(t));
            }
            start = i + 1;
        }
        i += 1;
    }
    let ghost t = s@.skip(start as int);
    proof {
        lemma_first_index(t, '\n');
        assert forall|j: int| 0 <= j < t.len() implies t[j] != '\n' by {
            assert(t[j] == s@[start + j]);
        }
        assert(first_index(t, '\n') is None);
    }
    let piece = slice_range(s, start, s.len());
    assert(piece@ =~= t);
    let ghost before = out@.map_values(|l: Vec<char>| l@);
    out.push(piece);
    assert(out@.map_values(|l: Vec<char>| l@) =~= before.push(piece@));
    assert(out@.map_values(|l: Vec<char>| l@) =~= before + split_newlines(t));
    out
}

/// The comments of a reply: each non-empty line `address text`, in order;
/// lines without a space or with a bad address are skipped.
pub fn parse_response(response: &str) -> (r: Vec<(SegOfs, String)>)
    ensures
        comment_pairs_view(r@) == comments_of(split_newlines(response@)),
{
    let chars = chars_of(response);
    let pieces = split_on_newlines(&chars);
    let ghost ls = split_newlines(response@);
    let mut out: Vec<(SegOfs, String)> = Vec::new();
    let mut i: usize = 0;
    assert(ls.take(0) =~= Seq::<Seq<char>>::empty());
    while i < pieces.len()
        invariant
            pieces@.map_values(|l: Vec<char>| l@) == ls,
            i <= pieces@.len(),
            comment_pairs_view(out@) == comments_of(ls.take(i as int)),
        decreases pieces@.len() - i,
    {
        assert(ls.take(i + 1).drop_last() =~= ls.take(i as int));
        assert(ls.take(i + 1).last() == pieces@[i as int]@);
        let line = &pieces[i];
        let ghost before = out@;
        if line.len() > 0 {
            match split_once_char(line, ' ') {
                Some((a, c)) => match SegOfs::parse_chars(&a) {
                    Ok(addr) => {
                        let text = string_from_chars(&c);
                        out.push((addr, text));
                        assert(comment_pairs_view(out@) =~= comment_pairs_view(before).push((addr, c@)));
                    },
                    Err(_) => {
                        assert(comment_pairs_view(out@) =~= comment_pairs_view(before) + Seq::empty());
                    },
                },
                None => {
                    assert(comment_pairs_view(out@) =~= comment_pairs_view(before) + Seq::empty());
                },
            }
        } else {
            assert(comment_pairs_view(out@) =~= comment_pairs_view(before) + Seq::empty());
        }
        i += 1;
    }
    assert(ls.take(i as int) =~= ls);
    out
}

/// The position of the last instruction of block `b` at offset `ofs`.
pub open spec fn last_in_block(is: Seq<InstrV>, ofs: u16) -> Option<int>
    decreases is.len(),
{
    if is.len() == 0 {
        None
    } else if is.last().iced.ip == ofs {
        Some(is.len() - 1)
    } else {
        last_in_block(is.drop_last(), ofs)
    }
}

/// The position `(block, instruction)` of the last instruction at offset `ofs`.
pub open spec fn last_at(bs: Seq<BlockV>, ofs: u16) -> Option<(int, int)>
    decreases bs.len(),
{
    if bs.len() == 0 {
        None
    } else {
        match last_in_block(bs.last().instrs, ofs) {
            Some(k) => Some((bs.len() - 1, k)),
            None => last_at(bs.drop_last(), ofs),
        }
    }
}

/// A comment added to an instruction: after the one it has, with `; `
/// between them.
pub open spec fn add_comment(old: Option<Seq<char>>, c: Seq<char>) -> Seq<char> {
    match old {
        Some(o) => o + seq![';', ' '] + c,
        None => c,
    }
}

/// The blocks after taking in one comment of a function in segment `seg`, and
/// whether it found an instruction: the comment goes to the last instruction
/// at its address; one for another segment, or with no instruction there, is
/// dropped.
pub open spec fn comment_step(seg: u16, bs: Seq<BlockV>, c: (SegOfs, Seq<char>)) -> (Seq<BlockV>, bool) {
    if c.0.seg != seg {
        (bs, false)
    } else {
        match last_at(bs, c.0.ofs) {
            None => (bs, false),
            Some((j, k)) => {
                let i = bs[j].instrs[k];
                let ni = InstrV { comment: Some(add_comment(i.comment, c.1)), ..i };
                (bs.update(j, BlockV { ip: bs[j].ip, instrs: bs[j].instrs.update(k, ni) }), true)
            },
        }
    }
}

/// The blocks after taking in the comments in order, and how many found an instruction.
pub open spec fn comments_merged(seg: u16, bs: Seq<BlockV>, cs: Seq<(SegOfs, Seq<char>)>) -> (Seq<BlockV>, nat)
    decreases cs.len(),
{
    if cs.len() == 0 {
        (bs, 0)
    } else {
        let (b1, n1) = comments_merged(seg, bs, cs.drop_last());
        let (b2, found) = comment_step(seg, b1, cs.last());
        (b2, if found { n1 + 1 } else { n1 })
    }
}

fn find_last(f: &Function, ofs: u16) -> (r: Option<(usize, usize)>)
    ensures
        match r {
            Some((j, k)) => last_at(block_views(f.blocks@), ofs) == Some((j as int, k as int)) && j
                < f.blocks@.len() && k < f.blocks@[j as int].instrs@.len(),
            None => last_at(block_views(f.blocks@), ofs) is None,
        },
{
    let ghost bv = block_views(f.blocks@);
    let mut j = f.blocks.len();
    assert(bv.take(j as int) =~= bv);
    while j > 0
        invariant
            j <= f.blocks@.len(),
            bv == block_views(f.blocks@),
            last_at(bv, ofs) == last_at(bv.take(j as int), ofs),
        decreases j,
    {
        assert(bv.take(j as int).drop_last() =~= bv.take(j - 1));
        assert(bv.take(j as int).last() == f.blocks@[j - 1]@);
        let b = &f.blocks[j - 1];
        let ghost iv = instr_views(b.instrs@);
        assert(bv[j - 1].instrs == iv);
        let mut k = b.instrs.len();
        assert(iv.take(k as int) =~= iv);
        while k > 0
            invariant
                0 < j <= f.blocks@.len(),
                *b == f.blocks@[j - 1],
                bv == block_views(f.blocks@),
                last_at(bv, ofs) == last_at(bv.take(j as int), ofs),
                bv.take(j as int).last().instrs == iv,
                k <= b.instrs@.len(),
                iv == instr_views(b.instrs@),
                last_in_block(iv, ofs) == last_in_block(iv.take(k as int), ofs),
            decreases k,
        {
            assert(iv.take(k as int).drop_last() =~= iv.take(k - 1));
            assert(iv.take(k as int).last() == b.instrs@[k - 1]@);
            if b.instrs[k - 1].iced.ip == ofs {
                assert(last_in_block(iv, ofs) == Some(k - 1));
                assert(last_at(bv.take(j as int), ofs) == Some((j - 1, k - 1)));
                return Some((j - 1, k - 1));
            }
            k -= 1;
        }
        assert(iv.take(0) =~= Seq::<InstrV>::empty());
        assert(last_in_block(iv, ofs) is None);
        j -= 1;
    }
    None
}

/// Adds each comment of the reply to the last instruction at its address, after
/// the comment the instruction has (joined by `; `); comments for another
/// segment than the function's, or for an address without an instruction, are
/// skipped. Returns how many comments were added.
pub fn merge(func: &mut Function, response: &str) -> (r: usize)
    ensures
        ({
            let (bs, n) = comments_merged(
                old(func).ip.seg,
                block_views(old(func).blocks@),
                comments_of(split_newlines(response@)),
            );
            &&& block_views(final(func).blocks@) == bs
            &&& r == n
        }),
        final(func).ip == old(func).ip,
        final(func).name == old(func).name,
        final(func).desc == old(func).desc,
        final(func).details == old(func).details,
        final(func).xrefs == old(func).xrefs,
        final(func).callers == old(func).callers,
        final(func).callees == old(func).callees,
        final(func).params == old(func).params,
        final(func).ret == old(func).ret,
{
    let comments = parse_response(response);
    let ghost cs = comment_pairs_view(comments@);
    let ghost f0 = *func;
    let ghost seg = func.ip.seg;
    let mut found: usize = 0;
    let mut i: usize = 0;
    assert(cs.take(0) =~= Seq::<(SegOfs, Seq<char>)>::empty());
    while i < comments.len()
        invariant
            cs == comment_pairs_view(comments@),
            cs == comments_of(split_newlines(response@)),
            i <= comments@.len(),
            seg == f0.ip.seg,
            found <= i,
            func.ip == f0.ip,
            func.name == f0.name,
            func.desc == f0.desc,
            func.details == f0.details,
            func.xrefs == f0.xrefs,
            func.callers == f0.callers,
            func.callees == f0.callees,
            func.params == f0.params,
            func.ret == f0.ret,
            f0 == *old(func),
            comments_merged(seg, block_views(f0.blocks@), cs.take(i as int)) == (block_views(func.blocks@), found as nat),
        decreases comments@.len() - i,
    {
        assert(cs.take(i + 1).drop_last() =~= cs.take(i as int));
        assert(cs.take(i + 1).last() == (comments@[i as int].0, comments@[i as int].1@));
        let addr = comments[i].0;
        if addr.seg == func.ip.seg {
            match find_last(func, addr.ofs) {
                Some((j, k)) => {
                    let ghost bv = block_views(func.blocks@);
                    assert(last_at(bv, addr.ofs) == Some((j as int, k as int)));
                    assert(j < func.blocks@.len());
                    assert(k < func.blocks@[j as int].instrs@.len());
                    let mut text: Vec<char> = Vec::new();
                    match &func.blocks[j].instrs[k].comment {
                        Some(c) => {
                            text = chars_of(c.as_str());
                            text.push(';');
                            text.push(' ');
                        },
                        None => {},
                    }
                    let add = chars_of(comments[i].1.as_str());
                    text.extend_from_slice(&add);
                    let s = string_from_chars(&text);
                    let ghost i0 = func.blocks@[j as int].instrs@[k as int]@;
                    assert(s@ =~= add_comment(i0.comment, comments@[i as int].1@));
                    func.blocks[j].instrs[k].comment = Some(s);
                    proof {
                        let ni = InstrV { comment: Some(s@), ..i0 };
                        assert(instr_views(func.blocks@[j as int].instrs@) =~= bv[j as int].instrs.update(k as int, ni));
                        assert(block_views(func.blocks@) =~= bv.update(
                            j as int,
                            BlockV { ip: bv[j as int].ip, instrs: bv[j as int].instrs.update(k as int, ni) },
                        ));
                    }
                    found += 1;
                },
                None => {},
            }
        }
        i += 1;
    }
    assert(cs.take(i as int) =~= cs);
    found
}

} // verus!
