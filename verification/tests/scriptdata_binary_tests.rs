use pd2tools::formats::scriptdata::binary::{from_binary, load, BinaryError};
use pd2tools::formats::scriptdata::document::{DocTable, DocValue, Document};

fn put_u32(buf: &mut Vec<u8>, pos: usize, v: u32) {
    if buf.len() < pos + 4 {
        buf.resize(pos + 4, 0);
    }
    buf[pos..pos + 4].copy_from_slice(&v.to_le_bytes());
}

fn word(tag: u32, value: u32) -> u32 {
    (tag << 24) | value
}

/// A 32-bit document: floats at 200, strings at 300, vectors at 400,
/// quaternions at 500, idstrings at 600, tables at 700, items from 800,
/// string bytes from 1000.
fn sample() -> Vec<u8> {
    let mut b = vec![0u8; 1100];
    let pools = [200u32, 300, 400, 500, 600, 700];
    for (k, p) in pools.iter().enumerate() {
        put_u32(&mut b, 12 + 16 * k, *p);
    }
    // the root is table 0
    put_u32(&mut b, 100, word(8, 0));
    // float 0 is 1.5, float 1 is -0.0
    put_u32(&mut b, 200, 1.5f32.to_bits());
    put_u32(&mut b, 204, (-0.0f32).to_bits());
    // strings: 0 "hello", 1 "meta"
    put_u32(&mut b, 300 + 4, 1000);
    put_u32(&mut b, 300 + 4 + 8, 1010);
    b[1000..1006].copy_from_slice(b"hello\0");
    b[1010..1015].copy_from_slice(b"meta\0");
    // vector 0
    put_u32(&mut b, 400, 1);
    put_u32(&mut b, 404, 2);
    put_u32(&mut b, 408, 3);
    // idstring 0
    b[600..608].copy_from_slice(&0x1122334455667788u64.to_le_bytes());
    // table 0: metatable "meta", four items at 800
    put_u32(&mut b, 700, 1);
    put_u32(&mut b, 704, 4);
    put_u32(&mut b, 712, 800);
    put_u32(&mut b, 800, word(4, 0));
    put_u32(&mut b, 804, word(3, 0));
    put_u32(&mut b, 808, word(2, 0));
    put_u32(&mut b, 812, word(8, 1));
    put_u32(&mut b, 816, word(1, 0));
    put_u32(&mut b, 820, word(8, 1));
    put_u32(&mut b, 824, word(4, 0));
    put_u32(&mut b, 828, word(7, 0));
    // table 1: no metatable, one item at 900
    put_u32(&mut b, 720, 0xFFFF_FFFF);
    put_u32(&mut b, 724, 1);
    put_u32(&mut b, 732, 900);
    put_u32(&mut b, 900, word(3, 1));
    put_u32(&mut b, 904, word(5, 0));
    b
}

fn table<'d>(doc: &'d Document, id: u32) -> &'d DocTable {
    doc.table(id).expect("table present")
}

#[test]
fn binary_document_reads_root_and_tables() {
    let b = sample();
    let doc = from_binary(&b, false).expect("reads");
    assert!(matches!(doc.root(), Some(DocValue::Table(0))));
    assert_eq!(doc.table_count(), 2);
    let t0 = table(&doc, 0);
    assert_eq!(t0.get_metatable().as_deref(), Some("meta"));
    assert_eq!(t0.len(), 3);
    let items = t0.items();
    assert_eq!(items.len(), 3);
    assert!(matches!(&items[0], (DocValue::String(s), DocValue::IdString(0x1122334455667788)) if s == "hello"));
    assert!(matches!(&items[1], (DocValue::Bool(true), DocValue::Table(1))));
    assert!(matches!(&items[2], (DocValue::Bool(false), DocValue::Table(1))));
    let t1 = table(&doc, 1);
    assert_eq!(t1.get_metatable(), None);
    let items1 = t1.items();
    assert_eq!(items1.len(), 1);
    match &items1[0] {
        (DocValue::Number(n), DocValue::Vector(v)) => {
            assert_eq!(*n, (-0.0f32).to_bits());
            assert_eq!((v.x, v.y, v.z), (1, 2, 3));
        }
        _ => panic!("unexpected pair"),
    }
}

#[test]
fn binary_shared_table_is_read_once() {
    let b = sample();
    let doc = load(&b).expect("reads");
    let mut ids: Vec<u32> = (0..doc.table_count()).map(|k| doc.table_id(k)).collect();
    ids.sort();
    assert_eq!(ids, vec![0, 1]);
}

#[test]
fn binary_cycle_is_read() {
    let mut b = sample();
    // table 1's value becomes table 0 again
    put_u32(&mut b, 904, word(8, 0));
    let doc = from_binary(&b, false).expect("reads");
    assert_eq!(doc.table_count(), 2);
    let items1 = table(&doc, 1).items();
    assert!(matches!(items1[0].1, DocValue::Table(0)));
}

#[test]
fn binary_root_scalar() {
    let mut b = sample();
    put_u32(&mut b, 100, word(3, 0));
    let doc = from_binary(&b, false).expect("reads");
    assert!(matches!(doc.root(), Some(DocValue::Number(n)) if n == 1.5f32.to_bits()));
    assert_eq!(doc.table_count(), 0);
}

#[test]
fn binary_errors() {
    assert_eq!(from_binary(&[1, 2, 3], false).err(), Some(BinaryError::TooShort));
    assert_eq!(from_binary(&[0u8; 50], false).err(), Some(BinaryError::OutOfBounds));
    let mut b = sample();
    put_u32(&mut b, 100, word(0, 0));
    assert_eq!(from_binary(&b, false).err(), Some(BinaryError::NullValue));
    put_u32(&mut b, 100, word(9, 0));
    assert_eq!(from_binary(&b, false).err(), Some(BinaryError::UnknownTag(9)));
    let mut b = sample();
    put_u32(&mut b, 900, word(3, 500));
    assert_eq!(from_binary(&b, false).err(), Some(BinaryError::OutOfBounds));
    let mut b = sample();
    b[1000] = 0xFF;
    assert_eq!(from_binary(&b, false).err(), Some(BinaryError::InvalidUtf8));
    let mut b = sample();
    put_u32(&mut b, 304, 1096);
    b[1096..1100].copy_from_slice(b"abcd");
    assert_eq!(from_binary(&b, false).err(), Some(BinaryError::UnterminatedString));
}

#[test]
fn binary_x64_magic_selects_wide_layout() {
    // with the magic word the header is read with eight-byte offsets, and
    // this data is too short for them
    let mut b = vec![0u8; 120];
    put_u32(&mut b, 0, 568494624);
    assert_eq!(from_binary(&b, false).err(), Some(BinaryError::OutOfBounds));
}

#[test]
fn table_insert_keeps_first_key_and_last_value() {
    let mut t = DocTable::new();
    t.insert(DocValue::Number(0), DocValue::Bool(true));
    t.insert(DocValue::Number(0x8000_0000), DocValue::Bool(false));
    t.insert(DocValue::Number(0x7FC0_0000), DocValue::IdString(1));
    t.insert(DocValue::Number(0x7FC0_0001), DocValue::IdString(2));
    assert_eq!(t.len(), 2);
    let items = t.items();
    assert_eq!(items.len(), 2);
    assert!(matches!(items[0], (DocValue::Number(0), DocValue::Bool(false))));
    assert!(matches!(items[1], (DocValue::Number(0x7FC0_0000), DocValue::IdString(2))));
    let mut u = DocTable::new();
    u.insert(DocValue::Bool(true), DocValue::Bool(false));
    u.insert(DocValue::Bool(true), DocValue::Bool(true));
    assert_eq!(u.len(), 1);
    let one = u.items();
    assert_eq!(one.len(), 1);
    assert!(matches!(one[0], (DocValue::Bool(true), DocValue::Bool(true))));
}
