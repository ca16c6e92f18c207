use dosdis::db::{EXE, DB};
use dosdis::dis::{dis_func, check_coverage, gather, DisError};
use dosdis::function::Function;
use dosdis::segofs::SegOfs;

fn memory_with(code: &[u8], at: usize) -> Vec<u8> {
    let mut mem = vec![0u8; at + code.len() + 16];
    mem[at..at + code.len()].copy_from_slice(code);
    mem
}

#[test]
fn gather_straight_line_function() {
    // mov ax,1 ; ret
    let mem = memory_with(&[0xb8, 0x01, 0x00, 0xc3], 0x100);
    let blocks = gather(&mem, SegOfs::new(0, 0x100)).unwrap();
    assert_eq!(blocks.len(), 1);
    assert_eq!(blocks[0].ip, SegOfs::new(0, 0x100));
    assert_eq!(blocks[0].instrs.len(), 2);
    assert_eq!(blocks[0].instrs[0].iced.text, "mov ax,1");
    assert_eq!(blocks[0].instrs[1].iced.mnemonic, "Ret");
}

#[test]
fn gather_splits_at_branch_targets() {
    // 100: je 103 ; 102: nop ; 103: ret
    let mem = memory_with(&[0x74, 0x01, 0x90, 0xc3], 0x100);
    let blocks = gather(&mem, SegOfs::new(0, 0x100)).unwrap();
    let ips: Vec<u16> = blocks.iter().map(|b| b.ip.ofs).collect();
    assert_eq!(ips, vec![0x100, 0x102, 0x103]);
    assert_eq!(blocks[0].instrs.len(), 1);
    assert_eq!(blocks[1].instrs.len(), 1);
    assert_eq!(blocks[1].instrs[0].iced.mnemonic, "Nop");
    assert_eq!(blocks[2].instrs[0].iced.mnemonic, "Ret");
}

#[test]
fn gather_splits_a_block_jumped_into() {
    // 100: nop ; 101: nop ; 102: jmp 101
    let mem = memory_with(&[0x90, 0x90, 0xeb, 0xfd], 0x100);
    let blocks = gather(&mem, SegOfs::new(0, 0x100)).unwrap();
    let ips: Vec<u16> = blocks.iter().map(|b| b.ip.ofs).collect();
    assert_eq!(ips, vec![0x100, 0x101]);
    assert_eq!(blocks[0].instrs.len(), 1);
    assert_eq!(blocks[1].instrs.len(), 2);
}

#[test]
fn gather_start_past_memory() {
    let mem = vec![0u8; 16];
    let r = gather(&mem, SegOfs::new(0x100, 0));
    assert!(matches!(r, Err(DisError::OutOfMemory(a)) if a == SegOfs::new(0x100, 0)));
}

#[test]
fn coverage_counts_bytes_of_instructions() {
    // 100: je 103 ; 102: nop ; 103: ret -- all four bytes covered
    let mem = memory_with(&[0x74, 0x01, 0x90, 0xc3], 0x100);
    let mut f = Function::new(SegOfs::new(0, 0x100));
    f.blocks = gather(&mem, SegOfs::new(0, 0x100)).unwrap();
    assert_eq!(check_coverage(&f), (4, 4));
}

#[test]
fn coverage_with_a_gap() {
    // 100: jmp 104 ; 102: (skipped) ; 104: ret
    let mem = memory_with(&[0xeb, 0x02, 0x90, 0x90, 0xc3], 0x100);
    let mut f = Function::new(SegOfs::new(0, 0x100));
    f.blocks = gather(&mem, SegOfs::new(0, 0x100)).unwrap();
    assert_eq!(check_coverage(&f), (3, 5));
}

#[test]
fn dis_func_adds_a_function() {
    let mem = memory_with(&[0xb8, 0x01, 0x00, 0xc3], 0x100);
    let mut db = DB::new(mem, EXE { filename: "a.exe".into(), entry_point: SegOfs::new(0, 0x100) });
    let i = dis_func(&mut db, SegOfs::new(0, 0x100)).unwrap();
    assert_eq!(db.functions.len(), 1);
    assert_eq!(db.functions[i].ip, SegOfs::new(0, 0x100));
    assert_eq!(db.functions[i].blocks.len(), 1);
    // again: the same function gets its blocks anew, keeping its name
    db.functions[i].name = Some("start".into());
    let j = dis_func(&mut db, SegOfs::new(0, 0x100)).unwrap();
    assert_eq!(i, j);
    assert_eq!(db.functions.len(), 1);
    assert_eq!(db.functions[j].name.as_deref(), Some("start"));
}

#[test]
fn gather_refuses_exception_flow() {
    // nop ; ud2
    let mem = memory_with(&[0x90, 0x0f, 0x0b], 0x100);
    let r = gather(&mem, SegOfs::new(0, 0x100));
    assert!(matches!(r, Err(DisError::UnsupportedFlow(a)) if a == SegOfs::new(0, 0x101)));
}

#[test]
fn gather_refuses_32_bit_branches() {
    // jmp near32
    let mem = memory_with(&[0x66, 0xe9, 0x10, 0x00, 0x00, 0x00], 0x100);
    let r = gather(&mem, SegOfs::new(0, 0x100));
    assert!(matches!(r, Err(DisError::UnsupportedBranch(a)) if a == SegOfs::new(0, 0x100)));
}

#[test]
fn gather_follows_far_calls_as_returning() {
    // call far 0000:0200 ; ret
    let mem = memory_with(&[0x9a, 0x00, 0x02, 0x00, 0x00, 0xc3], 0x100);
    let blocks = gather(&mem, SegOfs::new(0, 0x100)).unwrap();
    assert_eq!(blocks.len(), 1);
    assert_eq!(blocks[0].instrs.len(), 2);
}

#[test]
fn gather_keeps_a_last_instruction_that_later_starts_a_block() {
    // 100: je 104 ; 102: nop ; 103: ret ; 104: jmp 103
    // 104 is decoded first and puts 103 on the list after 102; the block at
    // 102 is decoded while 103 starts no block, and a span leaves out its last
    // instruction, so 103 does not split it.
    let mem = memory_with(&[0x74, 0x02, 0x90, 0xc3, 0xeb, 0xfd], 0x100);
    let blocks = gather(&mem, SegOfs::new(0, 0x100)).unwrap();
    let ips: Vec<u16> = blocks.iter().map(|b| b.ip.ofs).collect();
    assert_eq!(ips, vec![0x100, 0x102, 0x103, 0x104]);
    assert_eq!(blocks[1].instrs.len(), 2);
    assert_eq!(blocks[1].instrs[1].iced.mnemonic, "Ret");
    assert_eq!(blocks[2].instrs.len(), 1);
}
