use dosdis::insn::{decode, Flow, OpKind};

#[test]
fn decode_mov_immediate() {
    let code = [0xb8u8, 0x34, 0x12];
    let i = decode(&code, 0, 0x100);
    assert_eq!(i.ip, 0x100);
    assert_eq!(i.len, 3);
    assert_eq!(i.flow, Flow::Next);
    assert_eq!(i.mnemonic, "Mov");
    assert_eq!(i.operands.len(), 2);
    assert_eq!(i.operands[0].kind, OpKind::Register);
    assert_eq!(i.operands[0].reg, "AX");
    assert_eq!(i.operands[0].reg_size, 2);
    assert_eq!(i.operands[1].kind, OpKind::Immediate16);
    assert_eq!(i.immediate16, 0x1234);
    assert_eq!(i.text, "mov ax,1234h");
    assert_eq!(i.next_ip(), 0x103);
}

#[test]
fn decode_at_a_position_with_its_ip() {
    let code = [0x90u8, 0x74, 0x02, 0xc3];
    let j = decode(&code, 1, 0x200);
    assert_eq!(j.mnemonic, "Je");
    assert_eq!(j.flow, Flow::ConditionalBranch);
    assert_eq!(j.operands[0].kind, OpKind::NearBranch16);
    assert_eq!(j.near_branch16, 0x204);
    let r = decode(&code, 3, 0x203);
    assert_eq!(r.flow, Flow::Return);
    assert_eq!(r.len, 1);
}

#[test]
fn decode_memory_operand() {
    // mov al,[0010h]
    let code = [0xa0u8, 0x10, 0x00];
    let i = decode(&code, 0, 0);
    assert_eq!(i.operands[1].kind, OpKind::Memory);
    assert_eq!(i.memory_segment, "DS");
    assert_eq!(i.memory_base, "None");
    assert_eq!(i.memory_index, "None");
    assert_eq!(i.memory_displacement32, 0x10);
}

#[test]
fn decode_far_call() {
    // call 1234:5678
    let code = [0x9au8, 0x78, 0x56, 0x34, 0x12];
    let i = decode(&code, 0, 0);
    assert_eq!(i.flow, Flow::Call);
    assert_eq!(i.operands[0].kind, OpKind::FarBranch16);
    assert_eq!(i.far_branch_selector, 0x1234);
    assert_eq!(i.far_branch16, 0x5678);
}

#[test]
fn next_ip_wraps_at_64k() {
    let code = [0xb8u8, 0x34, 0x12];
    let i = decode(&code, 0, 0xfffe);
    assert_eq!(i.next_ip(), 1);
}

#[test]
fn decode_immediate_forms() {
    // mov al,5
    let i = decode(&[0xb0, 0x05], 0, 0);
    assert_eq!(i.operands[1].kind, OpKind::Immediate8);
    assert_eq!(i.immediate8, 5);
    assert_eq!(i.operands[0].reg_size, 1);
    // push -2 (sign-extended byte)
    let i = decode(&[0x6a, 0xfe], 0, 0);
    assert_eq!(i.operands[0].kind, OpKind::Immediate8to16);
    assert_eq!(i.immediate8to16, -2);
    // mov eax,12345678h
    let i = decode(&[0x66, 0xb8, 0x78, 0x56, 0x34, 0x12], 0, 0);
    assert_eq!(i.operands[1].kind, OpKind::Immediate32);
    assert_eq!(i.immediate32, 0x1234_5678);
    assert_eq!(i.operands[0].reg, "EAX");
    assert_eq!(i.operands[0].reg_size, 4);
    // add eax,-1 (sign-extended byte)
    let i = decode(&[0x66, 0x83, 0xc0, 0xff], 0, 0);
    assert_eq!(i.operands[1].kind, OpKind::Immediate8to32);
    assert_eq!(i.immediate8to32, -1);
}

#[test]
fn decode_near_branch32_and_scaled_index() {
    // jmp near32 with operand-size prefix at 0100h: target 0106h + 10h
    let i = decode(&[0x66, 0xe9, 0x10, 0x00, 0x00, 0x00], 0, 0x100);
    assert_eq!(i.operands[0].kind, OpKind::NearBranch32);
    assert_eq!(i.near_branch32, 0x116);
    assert_eq!(i.flow, Flow::UnconditionalBranch);
    // mov al,[eax*4+10h]
    let i = decode(&[0x67, 0x8a, 0x04, 0x85, 0x10, 0x00, 0x00, 0x00], 0, 0);
    assert_eq!(i.memory_base, "None");
    assert_eq!(i.memory_index, "EAX");
    assert_eq!(i.memory_index_scale, 4);
    assert_eq!(i.memory_displacement32, 0x10);
}

#[test]
fn decode_exception_flow() {
    // ud2
    let i = decode(&[0x0f, 0x0b], 0, 0);
    assert_eq!(i.flow, Flow::Exception);
    assert_eq!(i.len, 2);
}
