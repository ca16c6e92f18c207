use dosdis::insn::decode;
use dosdis::ir::{can_lower, Expr, Stmt, StmtKind};

fn show(e: &Expr) -> String {
    match e {
        Expr::Val(v) => format!("{v}"),
        Expr::Reg(n) => n.0.clone(),
        Expr::Call(c) => {
            let args: Vec<String> = c.args.iter().map(show).collect();
            format!("({} {})", c.func, args.join(" "))
        }
        Expr::Todo(t) => format!("todo({t})"),
    }
}

fn lower(code: &[u8]) -> Result<String, String> {
    let i = decode(code, 0, 0x100);
    assert!(can_lower(&i));
    StmtKind::from_insn(&i).map(|k| match k {
        StmtKind::Assign(a, b) => format!("{} = {}", show(&a), show(&b)),
        StmtKind::Do(e) => format!("do {}", show(&e)),
        StmtKind::Jmp(c, d) => format!("jmp {} {}", show(&Expr::Call(c)), show(&d)),
        StmtKind::Raw(t) => format!("raw {t}"),
    })
}

#[test]
fn lower_mov() {
    assert_eq!(lower(&[0xb8, 0x34, 0x12]).unwrap(), "ax = 4660");
    assert_eq!(lower(&[0xa0, 0x10, 0x00]).unwrap(), "al = (@ (segofs ds 16))");
    assert_eq!(lower(&[0x8a, 0x47, 0x02]).unwrap(), "al = (@ (segofs ds (+ bx 2)))");
}

#[test]
fn lower_arithmetic() {
    assert_eq!(lower(&[0x40]).unwrap(), "ax = (+ ax 1)");
    assert_eq!(lower(&[0x01, 0xd8]).unwrap(), "ax = (+ ax bx)");
    assert_eq!(lower(&[0x31, 0xc0]).unwrap(), "ax = (^ ax ax)");
    assert_eq!(lower(&[0x39, 0xd8]).unwrap(), "do (cmp ax bx)");
    assert_eq!(lower(&[0xf7, 0xd0]).unwrap(), "ax = (! ax)");
}

#[test]
fn lower_control_flow() {
    assert_eq!(lower(&[0x74, 0x02]).unwrap(), "jmp (je ) 260");
    assert_eq!(lower(&[0xe3, 0x02]).unwrap(), "jmp (= cx 0) 260");
    assert_eq!(lower(&[0xc3]).unwrap(), "jmp (ret ) todo(stack ref)");
    assert_eq!(lower(&[0xcd, 0x21]).unwrap(), "do (int 33)");
    assert_eq!(lower(&[0x50]).unwrap(), "do (push ax)");
    assert_eq!(lower(&[0x58]).unwrap(), "ax = (pop )");
    assert_eq!(lower(&[0xfa]).unwrap(), "do (cli )");
}

#[test]
fn lower_lea_takes_the_address() {
    assert_eq!(lower(&[0x8d, 0x47, 0x02]).unwrap(), "ax = (segofs ds (+ bx 2))");
}

#[test]
fn lower_raw_and_unhandled() {
    assert_eq!(lower(&[0x90]).unwrap(), "raw nop");
    assert_eq!(lower(&[0xf4]).unwrap_err(), "Hlt in hlt");
}

#[test]
fn stmt_records_ip() {
    let i = decode(&[0x90], 0, 0x1234);
    let s = Stmt::from_insn(&i).unwrap();
    assert_eq!(s.ip, vec![0x1234]);
}
