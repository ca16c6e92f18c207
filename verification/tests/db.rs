use dosdis::dis::dis_func;
use dosdis::crawl::crawl_queue;
use dosdis::db::{EXE, MemoryLocation, DB};
use dosdis::function::Function;
use dosdis::load::{entry_point, load_address, memory_image};
use dosdis::segofs::SegOfs;
use dosdis::xref::{update_all_xrefs, update_xrefs, XRef};

fn empty_db() -> DB {
    DB::new(vec![0u8; 0x200], EXE { filename: "a.exe".into(), entry_point: SegOfs::new(0, 0) })
}

#[test]
fn functions_stay_in_address_order() {
    let mut db = empty_db();
    db.insert_function(Function::new(SegOfs::new(2, 0)));
    db.insert_function(Function::new(SegOfs::new(1, 5)));
    db.insert_function(Function::new(SegOfs::new(1, 0)));
    let mut f = Function::new(SegOfs::new(1, 5));
    f.name = Some("x".into());
    let i = db.insert_function(f);
    let ips: Vec<SegOfs> = db.functions.iter().map(|f| f.ip).collect();
    assert_eq!(ips, vec![SegOfs::new(1, 0), SegOfs::new(1, 5), SegOfs::new(2, 0)]);
    assert_eq!(i, 1);
    assert_eq!(db.functions[1].name.as_deref(), Some("x"));
    assert_eq!(db.find_function(SegOfs::new(2, 0)), Some(2));
    assert_eq!(db.find_function(SegOfs::new(3, 0)), None);
}

#[test]
fn memory_entries_replace_at_same_address() {
    let mut db = empty_db();
    let loc = |n: &str| MemoryLocation { name: n.into(), desc: String::new(), typ: "u8".into() };
    db.insert_memory(SegOfs::new(1, 0), loc("a"));
    db.insert_memory(SegOfs::new(1, 0), loc("b"));
    assert_eq!(db.memory.entries.len(), 1);
    assert_eq!(db.memory.entries[0].1.name, "b");
    assert!(db.has_memory_entry(SegOfs::new(1, 0)));
    assert!(!db.has_memory_entry(SegOfs::new(1, 1)));
}

#[test]
fn xrefs_name_outside_targets() {
    let mut mem = vec![0u8; 0x300];
    // 100: call 0200 ; 103: je 100 ; 105: ret
    mem[0x100..0x106].copy_from_slice(&[0xe8, 0xfd, 0x00, 0x74, 0xfb, 0xc3]);
    mem[0x200] = 0xc3;
    let mut db = DB::new(mem, EXE { filename: "a.exe".into(), entry_point: SegOfs::new(0, 0x100) });
    dis_func(&mut db, SegOfs::new(0, 0x100)).unwrap();
    let j = dis_func(&mut db, SegOfs::new(0, 0x200)).unwrap();
    db.functions[j].name = Some("helper".into());
    update_all_xrefs(&mut db);
    let f = &db.functions[db.find_function(SegOfs::new(0, 0x100)).unwrap()];
    assert_eq!(f.ip, SegOfs::new(0, 0x100));
    assert_eq!(f.blocks[0].instrs[0].jmp, Some(XRef::External(Some("helper".into()), SegOfs::new(0, 0x200))));
    assert_eq!(f.blocks[0].instrs[1].jmp, Some(XRef::Block(None, 0)));
    assert_eq!(f.xrefs, Some(vec![XRef::External(Some("helper".into()), SegOfs::new(0, 0x200))]));
}

#[test]
fn update_xrefs_marks_indirect_jumps() {
    let mut mem = vec![0u8; 0x300];
    // 100: jmp ax
    mem[0x100..0x102].copy_from_slice(&[0xff, 0xe0]);
    let mut db = DB::new(mem, EXE { filename: "a.exe".into(), entry_point: SegOfs::new(0, 0x100) });
    let i = dis_func(&mut db, SegOfs::new(0, 0x100)).unwrap();
    update_xrefs(&mut db.functions[i], &vec![]);
    assert_eq!(
        db.functions[i].blocks[0].instrs[0].jmp,
        Some(XRef::External(Some("reg?".into()), SegOfs::new(0, 0)))
    );
}

#[test]
fn crawl_queue_lists_unknown_callees_once() {
    let mut db = empty_db();
    let mut f = Function::new(SegOfs::new(1, 0));
    f.callees = Some(vec![
        XRef::External(None, SegOfs::new(2, 0)),
        XRef::External(None, SegOfs::new(1, 0)),
        XRef::Block(None, 0),
        XRef::External(Some("again".into()), SegOfs::new(2, 0)),
        XRef::External(None, SegOfs::new(3, 0)),
    ]);
    db.insert_function(f);
    assert_eq!(crawl_queue(&db), vec![SegOfs::new(2, 0), SegOfs::new(3, 0)]);
}

#[test]
fn load_image_and_entry_point() {
    assert_eq!(load_address(), SegOfs::new(0x823, 0));
    let mem = memory_image(&[1, 2, 3]);
    assert_eq!(mem.len(), 0x8233);
    assert!(mem[..0x8230].iter().all(|&b| b == 0));
    assert_eq!(&mem[0x8230..], &[1, 2, 3]);
    assert_eq!(entry_point(0x10, 0x20), SegOfs::new(0x833, 0x20));
}
