use dosdis::dis::gather;
use dosdis::fnfile::{split_lines, split_sections, FnTextError};
use dosdis::function::Function;
use dosdis::segofs::{SegOfs, SegOfsError};
use dosdis::xref::{XRef, XRefError};

fn memory_with(code: &[u8], at: usize) -> Vec<u8> {
    let mut mem = vec![0u8; at + code.len() + 16];
    mem[at..at + code.len()].copy_from_slice(code);
    mem
}

fn sample() -> (Vec<u8>, Function) {
    // 100: je 103 ; 102: nop ; 103: ret
    let mem = memory_with(&[0x74, 0x01, 0x90, 0xc3], 0x100);
    let mut f = Function::new(SegOfs::new(0, 0x100));
    f.blocks = gather(&mem, SegOfs::new(0, 0x100)).unwrap();
    (mem, f)
}

#[test]
fn serialize_writes_header_separator_and_blocks() {
    let (_, mut f) = sample();
    f.blocks[0].instrs[0].comment = Some("skip the nop".into());
    f.blocks[2].instrs[0].label = Some("done".into());
    f.blocks[0].instrs[0].jmp = Some(XRef::Block(Some("done".into()), 2));
    let text = f.serialize("ip = \"0000:0100\"\n");
    assert_eq!(
        text,
        "ip = \"0000:0100\"\n\n---\n\
         ; skip the nop\n\
         @jmp 'done@2\n\
         0000:0100 je short 0103h\n\
         \n\
         0000:0102 nop\n\
         \n\
         @label done\n\
         0000:0103 ret\n\
         \n"
    );
}

#[test]
fn function_file_round_trip() {
    let (mem, mut f) = sample();
    f.blocks[0].instrs[0].comment = Some("test".into());
    f.blocks[2].instrs[0].label = Some("out".into());
    f.blocks[0].instrs[0].jmp = Some(XRef::Block(Some("out".into()), 2));
    let text = f.serialize("name = \"f\"");
    let (header, body) = split_sections(&text).unwrap();
    assert_eq!(header, "name = \"f\"");
    let g = Function::deserialize(&mem, Function::new(f.ip), &body).unwrap();
    assert_eq!(g.blocks.len(), f.blocks.len());
    for (a, b) in f.blocks.iter().zip(g.blocks.iter()) {
        assert_eq!(a.ip, b.ip);
        assert_eq!(a.instrs.len(), b.instrs.len());
        for (x, y) in a.instrs.iter().zip(b.instrs.iter()) {
            assert_eq!(x.iced.text, y.iced.text);
            assert_eq!(x.iced.ip, y.iced.ip);
            assert_eq!(x.comment, y.comment);
            assert_eq!(x.label, y.label);
            assert_eq!(x.jmp, y.jmp);
        }
    }
}

#[test]
fn deserialize_concatenates_comments_and_handles_crlf() {
    let (mem, _) = sample();
    let body = "; one\r\n; two\r\n@label l\r\n0000:0102 anything\r\n\r\n0000:0103 ret\r\n";
    let g = Function::deserialize(&mem, Function::new(SegOfs::new(0, 0x100)), body).unwrap();
    assert_eq!(g.blocks.len(), 2);
    assert_eq!(g.blocks[0].ip, SegOfs::new(0, 0x102));
    assert_eq!(g.blocks[0].instrs[0].comment.as_deref(), Some("onetwo"));
    assert_eq!(g.blocks[0].instrs[0].label.as_deref(), Some("l"));
    assert_eq!(g.blocks[0].instrs[0].iced.mnemonic, "Nop");
    assert_eq!(g.blocks[1].instrs[0].iced.mnemonic, "Ret");
    assert!(g.blocks[1].instrs[0].comment.is_none());
}

#[test]
fn deserialize_keeps_empty_blocks_between_blank_lines() {
    let (mem, _) = sample();
    let body = "0000:0102 nop\n\n\n0000:0103 ret\n";
    let g = Function::deserialize(&mem, Function::new(SegOfs::new(0, 0x100)), body).unwrap();
    assert_eq!(g.blocks.len(), 3);
    assert_eq!(g.blocks[1].instrs.len(), 0);
    assert_eq!(g.blocks[1].ip, SegOfs::new(0, 0));
}

#[test]
fn deserialize_errors() {
    let (mem, _) = sample();
    let head = || Function::new(SegOfs::new(0, 0x100));
    assert!(matches!(
        Function::deserialize(&mem, head(), "0000:0100 je\nnoaddress\n"),
        Err(FnTextError::MissingAddr(1))
    ));
    assert!(matches!(
        Function::deserialize(&mem, head(), "xyz nop\n"),
        Err(FnTextError::BadAddr(0, SegOfsError::MissingColon))
    ));
    assert!(matches!(
        Function::deserialize(&mem, head(), "\n@jmp 'x\n"),
        Err(FnTextError::BadXRef(1, XRefError::BadBlockIndex))
    ));
    assert!(!Function::body_fits_memory(&mem, "ffff:0000 nop\n"));
    assert!(Function::body_fits_memory(&mem, "xyz nop\nffff:0000 nop\n"));
    assert!(matches!(split_sections("no separator\n--\n"), Err(FnTextError::MissingSeparator)));
}

#[test]
fn split_sections_at_first_separator() {
    let (h, b) = split_sections("a\n---\nb\n---\nc").unwrap();
    assert_eq!(h, "a");
    assert_eq!(b, "b\n---\nc");
    let (h, b) = split_sections("\n---\n").unwrap();
    assert_eq!(h, "");
    assert_eq!(b, "");
}

#[test]
fn split_lines_like_str_lines() {
    for text in ["", "a", "a\n", "a\nb", "a\r\nb\r\n", "\n\n", "a\r", "x\ry\n", "\r\n"] {
        let chars: Vec<char> = text.chars().collect();
        let got: Vec<String> = split_lines(&chars).into_iter().map(|l| l.into_iter().collect()).collect();
        let want: Vec<String> = text.lines().map(|l| l.to_string()).collect();
        assert_eq!(got, want, "lines of {text:?}");
    }
}

#[test]
fn file_names() {
    let mut f = Function::new(SegOfs::new(0x823, 0xcec));
    assert_eq!(f.file_name(), "0823_0cec.toml");
    f.name = Some("main".into());
    assert_eq!(f.file_name(), "main.toml");
}

#[test]
fn deserialize_reads_an_instruction_at_the_end_of_memory() {
    let (mem, _) = sample();
    let end = mem.len() as u16;
    let body = format!("0000:{:04x} (bad)\n", end);
    let g = Function::deserialize(&mem, Function::new(SegOfs::new(0, 0x100)), &body).unwrap();
    assert_eq!(g.blocks.len(), 1);
    assert_eq!(g.blocks[0].ip, SegOfs::new(0, end));
    assert_eq!(g.blocks[0].instrs[0].iced.len, 0);
    assert!(Function::body_fits_memory(&mem, &body));
    assert!(!Function::body_fits_memory(&mem, &format!("0000:{:04x} x\n", end + 1)));
}
