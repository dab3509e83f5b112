use mcserv::nbt::{enter_compound, entry, skip_tag, Error};

#[test]
fn skip_fixed_width_values() {
    assert_eq!(skip_tag(1, &[9, 1, 2]), Ok(&[1u8, 2][..]));
    assert_eq!(skip_tag(2, &[9, 9, 7]), Ok(&[7u8][..]));
    assert_eq!(skip_tag(3, &[1, 2, 3, 4, 5]), Ok(&[5u8][..]));
    assert_eq!(skip_tag(4, &[0, 0, 0, 0, 0, 0, 0, 0, 42]), Ok(&[42u8][..]));
}

#[test]
fn skip_string_and_arrays() {
    // string: 2-byte length then the text
    assert_eq!(skip_tag(8, &[0, 2, b'h', b'i', 99]), Ok(&[99u8][..]));
    // byte array: 4-byte count then the bytes
    assert_eq!(skip_tag(7, &[0, 0, 0, 2, 5, 6, 77]), Ok(&[77u8][..]));
    // int array: 4-byte count then count 4-byte values
    assert_eq!(skip_tag(11, &[0, 0, 0, 1, 1, 2, 3, 4, 88]), Ok(&[88u8][..]));
}

#[test]
fn truncation_is_need_more() {
    assert_eq!(skip_tag(4, &[1, 2, 3]), Err(Error::NeedMore));
    assert_eq!(skip_tag(8, &[0, 9, b'x']), Err(Error::NeedMore));
    assert_eq!(skip_tag(7, &[0, 0]), Err(Error::NeedMore));
}

#[test]
fn unknown_tag_is_reported() {
    assert_eq!(skip_tag(13, &[1, 2, 3]), Err(Error::UnknownTag));
    assert_eq!(skip_tag(0, &[]), Err(Error::UnknownTag));
}

#[test]
fn skip_list_of_bytes() {
    // list: element tag 1, count 3, then three bytes
    let buf = [1u8, 0, 0, 0, 3, 10, 11, 12, 99];
    assert_eq!(skip_tag(9, &buf), Ok(&[99u8][..]));
}

#[test]
fn overlong_list_is_rejected() {
    let buf = [1u8, 0, 0, 1, 0];
    assert_eq!(skip_tag(9, &buf), Err(Error::OverlongList));
}

#[test]
fn nesting_beyond_the_depth_cap_is_too_deep() {
    // nine levels of single-element lists of lists
    let mut buf: Vec<u8> = Vec::new();
    for _ in 0..9 {
        buf.extend_from_slice(&[9, 0, 0, 0, 1]);
    }
    buf.extend_from_slice(&[1, 0, 0, 0, 0]);
    assert_eq!(skip_tag(9, &buf), Err(Error::TooDeep));
}

#[test]
fn skip_compound_with_entries() {
    // compound: entry "ab" of tag 1 with value 7, then the end marker
    let buf = [1u8, 0, 2, b'a', b'b', 7, 0, 55];
    assert_eq!(skip_tag(10, &buf), Ok(&[55u8][..]));
}

#[test]
fn entry_reads_the_header() {
    let buf = [1u8, 0, 2, b'a', b'b', 7, 0];
    let (tag, name, rest) = entry(&buf).unwrap().unwrap();
    assert_eq!(tag, 1);
    assert_eq!(name, b"ab");
    assert_eq!(rest, &[7, 0]);
    assert_eq!(entry(&[]), Some(None));
    assert_eq!(entry(&[1, 0]), None);
}

#[test]
fn enter_compound_checks_tag_and_name() {
    // a compound named "Data", containing one byte entry
    let buf = [10u8, 0, 4, b'D', b'a', b't', b'a', 1, 0, 1, b'x', 1, 0];
    let inner = enter_compound(b"Data", &buf).unwrap();
    assert_eq!(inner[0], 1);
    assert!(enter_compound(b"Other", &buf).is_none());
    assert!(enter_compound(b"Data", &[1, 2]).is_none());
}

#[test]
fn walk_a_level_header_for_one_flag() {
    // the shape the save-inspection tool reads: a root compound holding
    // a "Data" compound with a flag after a skippable entry
    let mut buf: Vec<u8> = Vec::new();
    buf.extend_from_slice(&[10, 0, 0]);
    buf.extend_from_slice(&[10, 0, 4, b'D', b'a', b't', b'a']);
    buf.extend_from_slice(&[3, 0, 4, b's', b'e', b'e', b'd', 0, 0, 0, 9]);
    buf.extend_from_slice(&[1, 0, 13]);
    buf.extend_from_slice(b"allowCommands");
    buf.extend_from_slice(&[1, 0, 0]);
    let nbt = enter_compound(b"", &buf).unwrap();
    let mut cur = enter_compound(b"Data", nbt).unwrap();
    let mut found: Option<bool> = None;
    loop {
        match entry(cur).unwrap() {
            None => break,
            Some((tag, name, rest)) => {
                if name == b"allowCommands" {
                    found = Some(rest[0] == 1);
                    break;
                }
                cur = skip_tag(tag, rest).unwrap();
            }
        }
    }
    assert_eq!(found, Some(true));
}

#[test]
fn empty_compound_at_the_depth_boundary_is_accepted() {
    // seven levels of named compound entries, the innermost empty: the
    // budget is spent per entry, so this just fits
    let mut buf: Vec<u8> = Vec::new();
    for _ in 0..7 {
        buf.extend_from_slice(&[10, 0, 0]);
    }
    for _ in 0..8 {
        buf.push(0);
    }
    assert!(skip_tag(10, &buf).is_ok());
    // one level more is over the budget
    let mut deep: Vec<u8> = Vec::new();
    for _ in 0..8 {
        deep.extend_from_slice(&[10, 0, 0]);
    }
    for _ in 0..9 {
        deep.push(0);
    }
    assert_eq!(skip_tag(10, &deep), Err(Error::TooDeep));
}
