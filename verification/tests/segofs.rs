use dosdis::segofs::{SegOfs, SegOfsError};

#[test]
fn segofs_prints_four_hex_digits_each() {
    assert_eq!(SegOfs::new(0x823, 0x1f).to_string(), "0823:001f");
    assert_eq!(SegOfs::new(0xffff, 0xabcd).to_string(), "ffff:abcd");
}

#[test]
fn segofs_parses_short_and_upper_case_fields() {
    assert_eq!(SegOfs::parse("823:1F"), Ok(SegOfs::new(0x823, 0x1f)));
    assert_eq!(SegOfs::parse("0:0"), Ok(SegOfs::new(0, 0)));
}

#[test]
fn segofs_errors() {
    assert_eq!(SegOfs::parse("1234"), Err(SegOfsError::MissingColon));
    assert_eq!(SegOfs::parse(":12"), Err(SegOfsError::BadSegment));
    assert_eq!(SegOfs::parse("12345:0"), Err(SegOfsError::BadSegment));
    assert_eq!(SegOfs::parse("12:"), Err(SegOfsError::BadOffset));
    assert_eq!(SegOfs::parse("12:3:4"), Err(SegOfsError::BadOffset));
}

#[test]
fn segofs_round_trip() {
    for (seg, ofs) in [(0u16, 0u16), (1, 2), (0x823, 0xcec), (0xffff, 0xffff)] {
        let a = SegOfs::new(seg, ofs);
        assert_eq!(SegOfs::parse(&a.to_string()), Ok(a));
    }
}

#[test]
fn segofs_arithmetic() {
    let a = SegOfs::new(0x823, 0x10);
    assert_eq!(a.abs(), 0x8240);
    assert_eq!(a.key(), 0x0823_0010);
    assert_eq!(a.with_ofs(0x20), SegOfs::new(0x823, 0x20));
    assert!(SegOfs::new(0, 0).is_null());
    assert!(!a.is_null());
    assert!(SegOfs::new(1, 0).key() > SegOfs::new(0, 0xffff).key());
}
