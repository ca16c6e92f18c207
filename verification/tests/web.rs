use dosdis::dis::dis_func;
use dosdis::db::{EXE, MemoryLocation, DB};
use dosdis::segofs::SegOfs;
use dosdis::web::{function_detail, function_ref, lookup_function, memory_detail, overview, LookupError, XRefDetail};
use dosdis::xref::XRef;

fn db_with_code() -> DB {
    let mut mem = vec![0u8; 0x200];
    // 100: je 103 ; 102: nop ; 103: ret
    mem[0x100..0x104].copy_from_slice(&[0x74, 0x01, 0x90, 0xc3]);
    let mut db = DB::new(mem, EXE { filename: "a.exe".into(), entry_point: SegOfs::new(0, 0x100) });
    dis_func(&mut db, SegOfs::new(0, 0x100)).unwrap();
    db
}

#[test]
fn xref_details() {
    let d = XRefDetail::from(&XRef::External(Some("main".into()), SegOfs::new(0x823, 0xcec)));
    assert_eq!((d.0.as_str(), d.1.as_str()), ("main", "0823:0cec"));
    let d = XRefDetail::from(&XRef::External(None, SegOfs::new(1, 2)));
    assert_eq!((d.0.as_str(), d.1.as_str()), ("0001:0002", "0001:0002"));
    let d = XRefDetail::from(&XRef::Block(Some("loop".into()), 3));
    assert_eq!((d.0.as_str(), d.1.as_str()), ("loop", ""));
    let d = XRefDetail::from(&XRef::Block(None, 3));
    assert_eq!((d.0.as_str(), d.1.as_str()), ("'3", ""));
    assert!(function_ref(&XRef::Block(None, 3)).is_none());
    assert!(function_ref(&XRef::External(None, SegOfs::new(1, 2))).is_some());
}

#[test]
fn function_detail_shows_blocks() {
    let mut db = db_with_code();
    db.functions[0].name = Some("f".into());
    db.functions[0].callees = Some(vec![XRef::External(None, SegOfs::new(5, 6)), XRef::Block(None, 1)]);
    db.functions[0].blocks[2].instrs[0].comment = Some("bye".into());
    let d = function_detail(&db.functions[0]);
    assert_eq!(d.ip, "0000:0100");
    assert_eq!(d.name.as_deref(), Some("f"));
    assert!(d.callers.is_none());
    let callees = d.callees.unwrap();
    assert_eq!(callees.len(), 1);
    assert_eq!(callees[0].1, "0005:0006");
    assert_eq!(d.blocks.len(), 3);
    assert_eq!(d.blocks[1].ip, "0000:0102");
    assert_eq!(d.blocks[2].instrs[0].ip, "0000:0103");
    assert_eq!(d.blocks[2].instrs[0].text, "ret");
    assert_eq!(d.blocks[2].instrs[0].comment.as_deref(), Some("bye"));
}

#[test]
fn memory_and_overview() {
    let mut db = db_with_code();
    db.insert_memory(SegOfs::new(2, 0), MemoryLocation { name: "b".into(), desc: "".into(), typ: "u8".into() });
    db.insert_memory(SegOfs::new(1, 0), MemoryLocation { name: "a".into(), desc: "".into(), typ: "u16".into() });
    let m = memory_detail(&db);
    assert_eq!(m.entries.len(), 2);
    assert_eq!(m.entries[0].addr, "0001:0000");
    assert_eq!(m.entries[0].name, "a");
    assert_eq!(m.entries[1].typ, "u8");
    let o = overview(&db);
    assert_eq!(o.mem_size, 0x200);
    assert_eq!(o.exe.filename, "a.exe");
    assert_eq!(o.functions.len(), 1);
    assert_eq!(o.functions[0].ip, SegOfs::new(0, 0x100));
}

#[test]
fn function_lookup_by_path() {
    let db = db_with_code();
    assert_eq!(lookup_function(&db, "0000:0100.json"), Ok(0));
    assert_eq!(lookup_function(&db, "0000:0100"), Err(LookupError::BadRequest));
    assert_eq!(lookup_function(&db, "main.json"), Err(LookupError::BadRequest));
    assert_eq!(lookup_function(&db, "0000:0200.json"), Err(LookupError::NotFound));
}
