use pd2tools::formats::banksinfo::{banksinfo_text, try_from_bytes, BankParseFailure};
use pd2tools::formats::fdm::container::{parse_stream, read_fdm_header, DieselContainer, ReadError, Section};
use pd2tools::formats::fdm::sections::check_body;
use pd2tools::formats::oil::{split_to_sections, LightType, SpotlightShape, ParseError};
use pd2tools::formats::player_save::{read_datablock, read_string, scramble, SaveError, SaveString};
use pd2tools::formats::scriptdata::lua_like::{is_valid_ident, lua_string, write_indent};
use pd2tools::formats::xml::{dec_to_cow, hex_to_cow};

fn push32(v: &mut Vec<u8>, x: u32) {
    v.extend_from_slice(&x.to_le_bytes());
}

fn push64(v: &mut Vec<u8>, x: u64) {
    v.extend_from_slice(&x.to_le_bytes());
}

#[test]
fn scramble_is_its_own_inverse() {
    let data: Vec<u8> = (0u8..200).collect();
    let once = scramble(&data);
    assert_ne!(once, data);
    assert_eq!(scramble(&once), data);
    assert_eq!(scramble(&[]), Vec::<u8>::new());
}

#[test]
fn scramble_first_byte_of_a_single_byte_buffer() {
    // key index (1 + 0) * 7 = 7, key byte 0x2E, counter 1
    assert_eq!(scramble(&[0u8]), vec![0x2Eu8]);
}

#[test]
fn datablock_is_read_and_skipped() {
    let mut v = Vec::new();
    push32(&mut v, 20 + 3);
    push32(&mut v, 10);
    v.extend_from_slice(&[1, 2, 3]);
    v.extend_from_slice(&[0xEE; 16]);
    v.push(9);
    let mut cursor: &[u8] = &v;
    assert_eq!(read_datablock(&mut cursor).unwrap(), vec![1, 2, 3]);
    assert_eq!(cursor, &[9u8][..]);

    let mut short: &[u8] = &[1, 2];
    assert!(matches!(read_datablock(&mut short), Err(SaveError::MissingBlockSize)));
    let mut bad = Vec::new();
    push32(&mut bad, 30);
    push32(&mut bad, 9);
    let mut bad_cursor: &[u8] = &bad;
    assert!(matches!(read_datablock(&mut bad_cursor), Err(SaveError::UnknownBlockVersion(9))));
}

#[test]
fn save_strings() {
    let mut cur: &[u8] = b"abc\0rest";
    match read_string(&mut cur).unwrap() {
        SaveString::Text(s) => assert_eq!(s, "abc"),
        other => panic!("{:?}", other),
    }
    assert_eq!(cur, b"rest");

    let scrambled = [0xFE - b'h', 0xDF, 0xFE - b'i', 0xC1, 0];
    let mut cur2: &[u8] = &scrambled;
    match read_string(&mut cur2).unwrap() {
        SaveString::Scrambled(b) => assert_eq!(b, b"hi".to_vec()),
        other => panic!("{:?}", other),
    }

    let mut bad_pad: &[u8] = &[0x96, 0x01, 0];
    assert!(matches!(read_string(&mut bad_pad), Err(SaveError::BadDigestPadding)));
    let mut odd: &[u8] = &[0x96, 0];
    assert!(matches!(read_string(&mut odd), Err(SaveError::NotUtf8NorDigest)));
    let mut open: &[u8] = b"abc";
    assert!(matches!(read_string(&mut open), Err(SaveError::StringNotTerminated)));
}

fn banks_bytes() -> Vec<u8> {
    let mut v = Vec::new();
    push32(&mut v, 1); // bank count
    push32(&mut v, 1);
    push32(&mut v, 56); // bank table
    push32(&mut v, 0);
    push32(&mut v, 0);
    push32(&mut v, 1); // sound count
    push32(&mut v, 1);
    push32(&mut v, 64); // sound table
    push32(&mut v, 0);
    push32(&mut v, 0);
    push32(&mut v, 0);
    push32(&mut v, 1); // entry count
    push32(&mut v, 1);
    push32(&mut v, 80); // entry table
    assert_eq!(v.len(), 56);
    push32(&mut v, 0);
    push32(&mut v, 96); // bank name
    push64(&mut v, 7); // sound id
    push64(&mut v, 0x1234); // sound Idstring
    push64(&mut v, 0x1234); // entry Idstring
    push32(&mut v, 0);
    push32(&mut v, 104); // entry string
    v.extend_from_slice(b"bank\0\0\0\0");
    v.extend_from_slice(b"snd\0");
    v
}

#[test]
fn banksinfo_is_read() {
    let info = try_from_bytes(&banks_bytes()).unwrap();
    assert_eq!(info.sound_banks, vec![String::from("bank")]);
    let (h, s) = info.sound_lookups.get(&7).unwrap();
    assert_eq!(h.0, 0x1234);
    assert_eq!(s, "snd");
    assert_eq!(info.sound_lookups.len(), 1);
}

#[test]
fn banksinfo_text_shows_list() {
    assert_eq!(
        banksinfo_text(&banks_bytes()).unwrap(),
        "Ok(BanksInfo { sound_banks: [\"bank\"], sound_lookups: {7: (Hash(4660), \"snd\")} })"
    );
    let mut quoted = banks_bytes();
    quoted[96] = b'"';
    quoted[97] = b'\n';
    assert_eq!(
        banksinfo_text(&quoted).unwrap(),
        "Ok(BanksInfo { sound_banks: [\"\\\"\\nnk\"], sound_lookups: {7: (Hash(4660), \"snd\")} })"
    );
    assert_eq!(banksinfo_text(&[0u8; 10]).unwrap(), "Err(SliceError(TryFromBytesError { offset: 8 }))");
    let mut bad = banks_bytes();
    bad[96] = 0xFF;
    assert!(banksinfo_text(&bad).unwrap().starts_with("Err(BadString(Utf8Error"));
}

#[test]
fn banksinfo_errors() {
    match try_from_bytes(&[0u8; 10]) {
        Err(BankParseFailure::SliceError(e)) => assert_eq!(e.offset, 8),
        _ => panic!("expected a short header"),
    }
    let mut bytes = banks_bytes();
    bytes[96] = 0xFF;
    assert!(matches!(try_from_bytes(&bytes), Err(BankParseFailure::BadString(_))));
    let mut moved = banks_bytes();
    moved[52..56].copy_from_slice(&200u32.to_le_bytes());
    match try_from_bytes(&moved) {
        Err(BankParseFailure::SliceError(e)) => assert_eq!(e.offset, 200),
        _ => panic!("expected the entry table to lie past the end"),
    }
}

const AUTHOR_TAG: u32 = 0x7623c465;
const LIGHT_SET_TAG: u32 = 0x33552583;
const MODEL_TAG: u32 = 0x62212d88;
const PASSTHROUGH_TAG: u32 = 0xe3a3b1ca;

fn author_body(email: &[u8]) -> Vec<u8> {
    let mut v = Vec::new();
    push64(&mut v, 0x1234);
    v.extend_from_slice(email);
    v.push(0);
    v.extend_from_slice(b"c:/model.max");
    v.push(0);
    push32(&mut v, 7);
    v
}

fn container_bytes(sections: &[(u32, Vec<u8>)]) -> Vec<u8> {
    let mut c = DieselContainer::new();
    for (tag, data) in sections {
        c.push(Section { tag: *tag, data: data.clone() });
    }
    let mut bytes = Vec::new();
    DieselContainer::write_to_stream(&mut bytes, &c).unwrap();
    bytes
}

#[test]
fn fdm_section_bodies_checked() {
    let good = container_bytes(&[(AUTHOR_TAG, author_body(b"a@b.c")), (PASSTHROUGH_TAG, vec![0; 8])]);
    let mut cursor: &[u8] = &good;
    let back = parse_stream(&mut cursor).ok().unwrap();
    assert_eq!(back.get(1000).unwrap().data, author_body(b"a@b.c"));

    let short = container_bytes(&[(PASSTHROUGH_TAG, vec![0; 7])]);
    let mut cursor: &[u8] = &short;
    assert!(matches!(parse_stream(&mut cursor), Err(ReadError::UnexpectedEof)));

    let bad_text = container_bytes(&[(AUTHOR_TAG, author_body(&[0xC3, 0x28]))]);
    let mut cursor: &[u8] = &bad_text;
    assert!(matches!(parse_stream(&mut cursor), Err(ReadError::Schema(_))));

    let mut model = Vec::new();
    push64(&mut model, 1);
    push32(&mut model, 0);
    model.extend_from_slice(&[0u8; 80]);
    push32(&mut model, 7);
    let bad_kind = container_bytes(&[(MODEL_TAG, model.clone())]);
    let mut cursor: &[u8] = &bad_kind;
    match parse_stream(&mut cursor) {
        Err(ReadError::BadDiscriminant(name, 7)) => assert_eq!(name, "ModelData"),
        _ => panic!("expected a bad model kind"),
    }

    model.truncate(model.len() - 4);
    push32(&mut model, 6);
    model.extend_from_slice(&[0u8; 32]);
    assert!(check_body(MODEL_TAG, &model).is_ok());
    assert!(matches!(check_body(MODEL_TAG, &model[..model.len() - 1]), Err(ReadError::UnexpectedEof)));
    assert!(check_body(LIGHT_SET_TAG, &[1, 2, 3]).is_ok());
}

#[test]
fn fdm_container_roundtrip() {
    let mut c = DieselContainer::new();
    let a = c.push(Section { tag: LIGHT_SET_TAG, data: vec![1, 2, 3] });
    let b = c.push(Section { tag: LIGHT_SET_TAG, data: vec![] });
    assert_eq!((a, b), (1000, 1001));
    assert!(c.insert(5, Section { tag: LIGHT_SET_TAG, data: vec![9] }).is_none());
    assert_eq!(c.get(a).unwrap().data, vec![1, 2, 3]);
    assert!(c.get_as(a, LIGHT_SET_TAG).is_some());
    assert!(c.get_as(a, LIGHT_SET_TAG + 1).is_none());
    let mut bytes = Vec::new();
    DieselContainer::write_to_stream(&mut bytes, &c).unwrap();
    let mut cursor: &[u8] = &bytes;
    let back = parse_stream(&mut cursor).ok().unwrap();
    assert!(cursor.is_empty());
    let ids: Vec<u32> = back.iter().iter().map(|(id, _)| *id).collect();
    assert_eq!(ids, vec![1000, 1001, 5]);
    assert_eq!(back.get(5).unwrap().data, vec![9]);
    let removed = c.remove(a).unwrap();
    assert_eq!(removed.data, vec![1, 2, 3]);
    assert!(c.get(a).is_none());
}

#[test]
fn fdm_header_forms() {
    let mut short: &[u8] = &[1, 0, 0, 0, 2, 0, 0, 0];
    assert_eq!(read_fdm_header(&mut short).ok(), Some((1, 2)));
    let mut long: &[u8] = &[0xFF, 0xFF, 0xFF, 0xFF, 2, 0, 0, 0, 3, 0, 0, 0];
    assert_eq!(read_fdm_header(&mut long).ok(), Some((3, 2)));
}

#[test]
fn oil_chunks() {
    let mut v = Vec::new();
    v.extend_from_slice(b"FORM");
    push32(&mut v, 11);
    push32(&mut v, 5);
    push32(&mut v, 3);
    v.extend_from_slice(b"abc");
    let chunks = split_to_sections(&v).ok().unwrap();
    assert_eq!(chunks.len(), 1);
    assert_eq!((chunks[0].type_code, chunks[0].length, chunks[0].offset), (5, 3, 16));
    assert_eq!(chunks[0].bytes, b"abc");
    assert!(matches!(split_to_sections(b"RIFF1234"), Err(ParseError::NoMagic)));
    v.truncate(18);
    assert!(matches!(split_to_sections(&v), Err(ParseError::UnexpectedEof)));
}

#[test]
fn oil_discriminants() {
    assert_eq!(LightType::try_from_u32(2).ok(), Some(LightType::Omni));
    assert_eq!(LightType::try_from_u32(3).err().unwrap().discriminant, 3);
    assert_eq!(LightType::Directional.to_u32(), 1);
    assert_eq!(SpotlightShape::try_from_u32(LightType::Spot.to_u32()).ok(), Some(SpotlightShape::Rectangular));
    assert_eq!(SpotlightShape::Circular.to_u32(), 1);
}

#[test]
fn lua_output() {
    let mut s = String::from("x");
    write_indent(&mut s, 2);
    assert_eq!(s, "x    ");
    assert!(is_valid_ident("name_1"));
    assert!(is_valid_ident("_x"));
    assert!(!is_valid_ident("1abc"));
    assert!(!is_valid_ident("while"));
    assert!(!is_valid_ident(""));
    assert!(!is_valid_ident("a-b"));
    assert_eq!(lua_string("a\"b\n"), "\"a\\\"b\\n\"");
    assert_eq!(lua_string("back\\slash"), "\"back\\slash\"");
}

#[test]
fn xml_character_references() {
    assert_eq!(hex_to_cow("41"), Some(String::from("A")));
    assert_eq!(dec_to_cow("65"), Some(String::from("A")));
    assert_eq!(hex_to_cow("D800"), None);
    assert_eq!(dec_to_cow("99999999999"), None);
    assert_eq!(hex_to_cow("110000"), None);
    assert_eq!(dec_to_cow("x"), None);
}
