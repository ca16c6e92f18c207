//! Real-mode `segment:offset` addresses.
use vstd::prelude::*;

use crate::text::{
    chars_of, hex4, is_hex_digit, lemma_first_index_unique, lemma_hex4, parse_hex_u16,
    parse_hex_u16_chars, push_hex4, split_once, split_once_char, string_from_chars,
};

verus! {

/// A real-mode address: a 16-bit segment and a 16-bit offset within it.
#[derive(Clone, Copy, Debug, PartialEq, Eq, Structural, PartialOrd, Ord, Hash, Default)]
pub struct SegOfs {
    pub seg: u16,
    pub ofs: u16,
}

/// Why a `segment:offset` text was refused.
#[derive(Clone, Copy, Debug, PartialEq, Eq, Structural)]
pub enum SegOfsError {
    /// There is no `:` between segment and offset.
    MissingColon,
    /// The part before the `:` is not a 16-bit hexadecimal number.
    BadSegment,
    /// The part after the `:` is not a 16-bit hexadecimal number.
    BadOffset,
}

/// The linear (physical) address of `segment:offset`.
pub open spec fn spec_abs(a: SegOfs) -> nat {
    a.seg as nat * 16 + a.ofs as nat
}

/// The position of an address in the order of addresses (segment first, then offset).
pub open spec fn spec_key(a: SegOfs) -> nat {
    a.seg as nat * 65536 + a.ofs as nat
}

/// `ssss:oooo` in lower-case hexadecimal.
pub open spec fn segofs_text(a: SegOfs) -> Seq<char> {
    hex4(a.seg) + seq![':'] + hex4(a.ofs)
}

/// The meaning of a `segment:offset` text: hexadecimal segment and offset
/// separated by the first `:`.
pub open spec fn parse_segofs(s: Seq<char>) -> Result<SegOfs, SegOfsError> {
    match split_once(s, ':') {
        None => Err(SegOfsError::MissingColon),
        Some((seg, ofs)) => match parse_hex_u16(seg) {
            None => Err(SegOfsError::BadSegment),
            Some(seg) => match parse_hex_u16(ofs) {
                None => Err(SegOfsError::BadOffset),
                Some(ofs) => Ok(SegOfs { seg, ofs }),
            },
        },
    }
}

/// The message for a refused `segment:offset` text.
pub open spec fn segofs_error_text(e: SegOfsError) -> Seq<char> {
    match e {
        SegOfsError::MissingColon => "missing ':' between segment and offset"@,
        SegOfsError::BadSegment => "segment is not a 16-bit hexadecimal number"@,
        SegOfsError::BadOffset => "offset is not a 16-bit hexadecimal number"@,
    }
}

impl SegOfsError {
    /// The message for this error.
    pub fn message(&self) -> (r: &'static str)
        ensures
            r@ == segofs_error_text(*self),
    {
        match self {
            SegOfsError::MissingColon => "missing ':' between segment and offset",
            SegOfsError::BadSegment => "segment is not a 16-bit hexadecimal number",
            SegOfsError::BadOffset => "offset is not a 16-bit hexadecimal number",
        }
    }
}

impl SegOfs {
    pub fn new(seg: u16, ofs: u16) -> (r: SegOfs)
        ensures
            r == (SegOfs { seg, ofs }),
    {
        SegOfs { seg, ofs }
    }

    /// The same segment with another offset.
    pub fn with_ofs(&self, ofs: u16) -> (r: SegOfs)
        ensures
            r == (SegOfs { seg: self.seg, ofs }),
    {
        SegOfs { seg: self.seg, ofs }
    }

    /// The linear address `seg * 16 + ofs`.
    pub fn abs(&self) -> (r: u32)
        ensures
            r == spec_abs(*self),
    {
        self.seg as u32 * 16 + self.ofs as u32
    }

    /// Whether this is `0000:0000`, the value that stands for "no address".
    pub fn is_null(&self) -> (r: bool)
        ensures
            r == (self.seg == 0 && self.ofs == 0),
    {
        self.seg == 0 && self.ofs == 0
    }

    /// The address as one number that orders addresses as `(seg, ofs)` pairs.
    pub fn key(&self) -> (r: u32)
        ensures
            r == spec_key(*self),
    {
        self.seg as u32 * 65536 + self.ofs as u32
    }

    /// Parses `ssss:oooo` (hexadecimal, one to four digits each, either case).
    pub fn parse(s: &str) -> (r: Result<SegOfs, SegOfsError>)
        ensures
            r == parse_segofs(s@),
    {
        let v = chars_of(s);
        Self::parse_chars(&v)
    }

    pub fn parse_chars(s: &[char]) -> (r: Result<SegOfs, SegOfsError>)
        ensures
            r == parse_segofs(s@),
    {
        match split_once_char(s, ':') {
            None => Err(SegOfsError::MissingColon),
            Some((seg, ofs)) => match parse_hex_u16_chars(&seg) {
                None => Err(SegOfsError::BadSegment),
                Some(seg) => match parse_hex_u16_chars(&ofs) {
                    None => Err(SegOfsError::BadOffset),
                    Some(ofs) => Ok(SegOfs { seg, ofs }),
                },
            },
        }
    }

    /// Appends `ssss:oooo` to `out`.
    pub fn push_text(&self, out: &mut Vec<char>)
        ensures
            final(out)@ == old(out)@ + segofs_text(*self),
    {
        push_hex4(out, self.seg);
        out.push(':');
        push_hex4(out, self.ofs);
        assert(out@ =~= old(out)@ + segofs_text(*self));
    }

    /// `ssss:oooo`, four lower-case hexadecimal digits each.
    pub fn to_string(&self) -> (r: String)
        ensures
            r@ == segofs_text(*self),
    {
        let mut v: Vec<char> = Vec::new();
        self.push_text(&mut v);
        assert(v@ =~= segofs_text(*self));
        string_from_chars(&v)
    }
}

pub proof fn lemma_hex4_no_char(v: u16, c: char)
    requires
        !is_hex_digit(c),
    ensures
        !hex4(v).contains(c),
{
    lemma_hex4(v);
    if hex4(v).contains(c) {
        let i = choose|i: int| 0 <= i < hex4(v).len() && hex4(v)[i] == c;
        assert(is_hex_digit(hex4(v)[i]));
    }
}

/// The printed form of an address parses back to the same address.
pub proof fn lemma_segofs_round_trip(a: SegOfs)
    ensures
        parse_segofs(segofs_text(a)) == Ok::<SegOfs, SegOfsError>(a),
{
    let s = segofs_text(a);
    lemma_hex4(a.seg);
    lemma_hex4(a.ofs);
    assert forall|j: int| 0 <= j < 4 implies s[j] != ':' by {
        assert(s[j] == hex4(a.seg)[j]);
        assert(is_hex_digit(hex4(a.seg)[j]));
    }
    lemma_first_index_unique(s, ':', 4);
    assert(s.take(4) =~= hex4(a.seg));
    assert(s.skip(5) =~= hex4(a.ofs));
}

/// The printed form of an address is nine characters with `:` in the middle.
pub proof fn lemma_segofs_text_shape(a: SegOfs)
    ensures
        segofs_text(a).len() == 9,
        !segofs_text(a).contains('@'),
        !segofs_text(a).contains('\''),
        segofs_text(a)[0] != '\'',
{
    lemma_hex4_no_char(a.seg, '@');
    lemma_hex4_no_char(a.ofs, '@');
    lemma_hex4_no_char(a.seg, '\'');
    lemma_hex4_no_char(a.ofs, '\'');
    let s = segofs_text(a);
    assert(s[0] == hex4(a.seg)[0]);
    if s.contains('@') {
        let i = choose|i: int| 0 <= i < s.len() && s[i] == '@';
        if i < 4 {
            assert(hex4(a.seg)[i] == '@');
        } else if i > 4 {
            assert(hex4(a.ofs)[i - 5] == '@');
        }
    }
    if s.contains('\'') {
        let i = choose|i: int| 0 <= i < s.len() && s[i] == '\'';
        if i < 4 {
            assert(hex4(a.seg)[i] == '\'');
        } else if i > 4 {
            assert(hex4(a.ofs)[i - 5] == '\'');
        }
    }
}

/// Distinct addresses have distinct positions in the order of addresses.
pub proof fn lemma_key_injective(a: SegOfs, b: SegOfs)
    requires
        spec_key(a) == spec_key(b),
    ensures
        a == b,
{
}

} // verus!
