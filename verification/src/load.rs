//! Laying a DOS executable's load image out in memory the way DOSBox does:
//! the program segment prefix at segment `0x813`, the image right after it.
use vstd::prelude::*;

use crate::segofs::SegOfs;

verus! {

/// The segment DOSBox gives the program segment prefix.
pub const DOSBOX_SEG: u16 = 0x813u16;

/// Where the load image starts: the paragraph after the 256-byte prefix.
pub fn load_address() -> (r: SegOfs)
    ensures
        r == (SegOfs { seg: 0x823, ofs: 0 }),
{
    SegOfs::new(DOSBOX_SEG + 0x10, 0)
}

/// The memory with the load image at the load address and zeros before it.
pub fn memory_image(image: &[u8]) -> (r: Vec<u8>)
    ensures
        r@ == Seq::new(0x8230, |_i: int| 0u8) + image@,
{
    let start = load_address().abs() as usize;
    let mut mem: Vec<u8> = Vec::new();
    let mut i: usize = 0;
    while i < start
        invariant
            start == 0x8230,
            i <= start,
            mem@ == Seq::new(i as nat, |_i: int| 0u8),
        decreases start - i,
    {
        mem.push(0);
        assert(mem@ =~= Seq::new((i + 1) as nat, |_i: int| 0u8));
        i += 1;
    }
    let ghost zeros = mem@;
    let mut k: usize = 0;
    while k < image.len()
        invariant
            k <= image@.len(),
            mem@ == zeros + image@.take(k as int),
        decreases image@.len() - k,
    {
        mem.push(image[k]);
        assert(mem@ =~= zeros + image@.take(k + 1));
        k += 1;
    }
    assert(image@.take(k as int) =~= image@);
    mem
}

/// The entry point: the header's initial `cs` relative to the load segment,
/// and its initial `ip`.
pub fn entry_point(initial_cs: u16, initial_ip: u16) -> (r: SegOfs)
    requires
        0x823 + initial_cs <= 0xffff,
    ensures
        r == (SegOfs { seg: (0x823 + initial_cs) as u16, ofs: initial_ip }),
{
    let load = load_address();
    SegOfs::new(load.seg + initial_cs, initial_ip)
}

} // verus!
