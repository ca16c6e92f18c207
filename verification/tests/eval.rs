use dosdis::db::{EXE, DB};
use dosdis::dis::{dis_func, gather};
use dosdis::eval::{eval_all, eval_block, Eval};
use dosdis::function::{Block, Instr, MemRefError};
use dosdis::insn::decode;
use dosdis::segofs::SegOfs;

fn block_of(code: &[u8], seg: u16) -> Block {
    let mut instrs = Vec::new();
    let mut pos = 0usize;
    while pos < code.len() {
        let i = decode(code, pos, pos as u16);
        pos += i.len;
        instrs.push(Instr::bare(i));
    }
    Block { ip: SegOfs::new(seg, 0), instrs }
}

#[test]
fn eval_tracks_segment_register_through_mov() {
    // mov ax,1234h ; mov ds,ax ; mov al,[0010h]
    let mut b = block_of(&[0xb8, 0x34, 0x12, 0x8e, 0xd8, 0xa0, 0x10, 0x00], 0x823);
    eval_block(&mut b);
    assert!(b.instrs[0].memory.is_none());
    assert!(b.instrs[1].memory.is_none());
    assert!(matches!(b.instrs[2].memory, Some(Ok(a)) if a == SegOfs::new(0x1234, 0x10)));
}

#[test]
fn eval_uses_code_segment() {
    // mov al,cs:[0020h]
    let mut b = block_of(&[0x2e, 0xa0, 0x20, 0x00], 0x823);
    eval_block(&mut b);
    assert!(matches!(b.instrs[0].memory, Some(Ok(a)) if a == SegOfs::new(0x823, 0x20)));
}

#[test]
fn eval_unknown_segment_records_nothing() {
    // mov al,[0010h] with ds unknown
    let mut b = block_of(&[0xa0, 0x10, 0x00], 0x823);
    eval_block(&mut b);
    assert!(b.instrs[0].memory.is_none());
    let e = Eval::new(0x823);
    assert!(matches!(e.gather_memory(&b.instrs[0].iced), Some(Err(MemRefError::UnknownSegment(s))) if s == "DS"));
}

#[test]
fn eval_base_register_is_refused() {
    // mov ax,1234h ; mov ds,ax ; mov al,[bx+2]
    let b = block_of(&[0xb8, 0x34, 0x12, 0x8e, 0xd8, 0x8a, 0x47, 0x02], 0x823);
    let mut e = Eval::new(0x823);
    e.eval_instr(&b.instrs[0].iced);
    e.eval_instr(&b.instrs[1].iced);
    assert_eq!(e.get_reg(&"DS".to_string()), Some(0x1234));
    assert!(matches!(e.gather_memory(&b.instrs[2].iced), Some(Err(MemRefError::BaseRegister))));
}

#[test]
fn eval_other_instructions_forget_registers() {
    // mov ax,5 ; nop
    let b = block_of(&[0xb8, 0x05, 0x00, 0x90], 0x823);
    let mut e = Eval::new(0x823);
    e.eval_instr(&b.instrs[0].iced);
    assert_eq!(e.get_reg(&"AX".to_string()), Some(5));
    assert_eq!(e.eval_op(&b.instrs[0].iced, 1), Some(5));
    e.eval_instr(&b.instrs[1].iced);
    assert_eq!(e.get_reg(&"AX".to_string()), None);
    assert_eq!(e.get_reg(&"CS".to_string()), Some(0x823));
}

#[test]
fn eval_mov_to_byte_register_forgets_everything() {
    // mov ax,5 ; mov bl,1
    let b = block_of(&[0xb8, 0x05, 0x00, 0xb3, 0x01], 0x823);
    let mut e = Eval::new(0x823);
    e.eval_instr(&b.instrs[0].iced);
    e.eval_instr(&b.instrs[1].iced);
    assert_eq!(e.get_reg(&"AX".to_string()), None);
}

#[test]
fn eval_all_evaluates_every_function() {
    let mut mem = vec![0u8; 0x200];
    // mov ax,1234h ; mov ds,ax ; mov al,[0010h] ; ret
    mem[0x100..0x109].copy_from_slice(&[0xb8, 0x34, 0x12, 0x8e, 0xd8, 0xa0, 0x10, 0x00, 0xc3]);
    let mut db = DB::new(mem, EXE { filename: "a.exe".into(), entry_point: SegOfs::new(0, 0x100) });
    let i = dis_func(&mut db, SegOfs::new(0, 0x100)).unwrap();
    assert!(gather(&db.mem, SegOfs::new(0, 0x100)).is_ok());
    eval_all(&mut db);
    assert!(matches!(db.functions[i].blocks[0].instrs[2].memory, Some(Ok(a)) if a == SegOfs::new(0x1234, 0x10)));
}

#[test]
fn eval_index_register_is_refused() {
    // mov ax,1234h ; mov ds,ax ; mov al,[eax*4+10h]
    let b = block_of(&[0xb8, 0x34, 0x12, 0x8e, 0xd8, 0x67, 0x8a, 0x04, 0x85, 0x10, 0x00, 0x00, 0x00], 0x823);
    let mut e = Eval::new(0x823);
    e.eval_instr(&b.instrs[0].iced);
    e.eval_instr(&b.instrs[1].iced);
    assert!(matches!(e.gather_memory(&b.instrs[2].iced), Some(Err(MemRefError::IndexRegister))));
}

#[test]
fn eval_lea_touches_no_memory() {
    // mov ax,1000h ; mov ds,ax ; lea ax,[0020h]
    let mut b = block_of(&[0xb8, 0x00, 0x10, 0x8e, 0xd8, 0x8d, 0x06, 0x20, 0x00], 0x823);
    let mut e = Eval::new(0x823);
    e.eval_instr(&b.instrs[0].iced);
    e.eval_instr(&b.instrs[1].iced);
    assert!(e.gather_memory(&b.instrs[2].iced).is_none());
    eval_block(&mut b);
    assert!(b.instrs[2].memory.is_none());
}
