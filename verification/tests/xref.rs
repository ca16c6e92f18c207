use dosdis::segofs::SegOfs;
use dosdis::xref::{XRef, XRefError};
use dosdis::segofs::SegOfsError;

#[test]
fn xref_forms_round_trip() {
    let cases = [
        (
            "main@1234:abcd",
            XRef::External(Some("main".into()), SegOfs::new(0x1234, 0xabcd)),
        ),
        (
            "1234:abcd",
            XRef::External(None, SegOfs::new(0x1234, 0xabcd)),
        ),
        ("'foo@0", XRef::Block(Some("foo".into()), 0)),
        ("'42", XRef::Block(None, 42)),
    ];

    for (text, expected) in cases {
        let parsed: XRef = XRef::from_str(text).unwrap();
        assert!(parsed == expected, "incorrect parsing of {text:?}");
        assert_eq!(parsed.to_string(), text);
        assert_eq!(expected.to_string(), text);
        assert!(XRef::from_str(&expected.to_string()).unwrap() == expected);
    }
}

#[test]
fn xref_block_index_must_be_a_number() {
    assert_eq!(XRef::from_str("'foo@x"), Err(XRefError::BadBlockIndex));
    assert_eq!(XRef::from_str("'"), Err(XRefError::BadBlockIndex));
    assert_eq!(XRef::from_str("'+7").unwrap(), XRef::Block(None, 7));
}

#[test]
fn xref_external_needs_an_address() {
    assert_eq!(
        XRef::from_str("main@12"),
        Err(XRefError::BadAddress(SegOfsError::MissingColon))
    );
    assert_eq!(
        XRef::from_str("main@zz:0"),
        Err(XRefError::BadAddress(SegOfsError::BadSegment))
    );
    assert_eq!(
        XRef::from_str("0:10000"),
        Err(XRefError::BadAddress(SegOfsError::BadOffset))
    );
}

#[test]
fn xref_name_splits_at_first_at_sign() {
    // the name ends at the first '@'; the rest must be an address
    assert_eq!(
        XRef::from_str("a@b@0:0"),
        Err(XRefError::BadAddress(SegOfsError::BadSegment))
    );
    assert_eq!(
        XRef::from_str("@0:1").unwrap(),
        XRef::External(Some(String::new()), SegOfs::new(0, 1))
    );
}

#[test]
fn xref_error_message_quotes_the_input() {
    let s = "'abc";
    let e = XRef::from_str(s).unwrap_err();
    assert_eq!(e.message(s), "xref \"'abc\": invalid digit found in string");
}

#[test]
fn xref_error_messages_match_usize_parsing() {
    let cases = [
        "'",
        "'abc",
        "'l@",
        "'l@x1",
        "'+",
        "'-1",
        "'+12x",
        "'a\"b\\c",
        "'99999999999999999999999",
        "'99999999999999999999999x",
        "'12a99999999999999999999999",
    ];
    for s in cases {
        let e = XRef::from_str(s).unwrap_err();
        assert_eq!(e, XRefError::BadBlockIndex);
        let local = &s[1..];
        let block = match local.split_once('@') {
            Some((_, b)) => b,
            None => local,
        };
        let want = format!("xref {:?}: {}", s, block.parse::<usize>().unwrap_err());
        assert_eq!(e.message(s), want);
    }
}

#[test]
fn xref_address_error_message() {
    let e = XRef::from_str("12:zz").unwrap_err();
    assert_eq!(e, XRefError::BadAddress(SegOfsError::BadOffset));
    assert_eq!(e.message("12:zz"), "offset is not a 16-bit hexadecimal number");
}
