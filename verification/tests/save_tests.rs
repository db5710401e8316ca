use pd2tools::formats::player_save::{parse, read_dictionary, read_item, save_readable, DataItem, SaveError};

fn block(body: &[u8]) -> Vec<u8> {
    let mut v = Vec::new();
    v.extend_from_slice(&((body.len() + 20) as u32).to_le_bytes());
    v.extend_from_slice(&10u32.to_le_bytes());
    v.extend_from_slice(body);
    v.extend_from_slice(&[0xAA; 16]);
    v
}

fn string_item(s: &str) -> Vec<u8> {
    let mut v = vec![1];
    v.extend_from_slice(s.as_bytes());
    v.push(0);
    v
}

#[test]
fn items_of_each_kind_are_read() {
    let mut f: &[u8] = &[2, 0x00, 0x00, 0xc0, 0x3f, 99];
    match read_item(&mut f).ok().unwrap() {
        DataItem::Float(bits) => assert_eq!(f32::from_bits(bits), 1.5),
        _ => panic!("expected a float"),
    }
    assert_eq!(f, &[99]);
    let mut e: &[u8] = &[3];
    assert!(matches!(read_item(&mut e), Ok(DataItem::Empty)));
    let mut b: &[u8] = &[4, 7];
    assert!(matches!(read_item(&mut b), Ok(DataItem::Byte(7))));
    let mut sh: &[u8] = &[5, 0x34, 0x12];
    assert!(matches!(read_item(&mut sh), Ok(DataItem::Short(0x1234))));
    let mut t: &[u8] = &[6, 1];
    assert!(matches!(read_item(&mut t), Ok(DataItem::Bool(true))));
    let mut fl: &[u8] = &[6, 0];
    assert!(matches!(read_item(&mut fl), Ok(DataItem::Bool(false))));
    let mut u: &[u8] = &[9, 1, 2, 3, 4, 5, 6, 7, 8, 9, 10, 11, 12];
    assert!(matches!(read_item(&mut u), Ok(DataItem::Unknown9([1, 2, 3, 4, 5, 6, 7, 8, 9, 10, 11, 12]))));
    let s = string_item("money");
    let mut sc: &[u8] = &s;
    assert!(matches!(read_item(&mut sc), Ok(DataItem::String(x)) if x == "money"));
}

#[test]
fn item_errors() {
    let mut none: &[u8] = &[];
    assert!(matches!(read_item(&mut none), Err(SaveError::MissingTag)));
    let mut bad: &[u8] = &[8];
    assert!(matches!(read_item(&mut bad), Err(SaveError::InvalidTag(8))));
    let mut short: &[u8] = &[5, 1];
    assert!(matches!(read_item(&mut short), Err(SaveError::MissingValue(5))));
    let mut dict: &[u8] = &[7, 1, 0];
    assert!(matches!(read_item(&mut dict), Err(SaveError::MissingDictionaryLength)));
    let mut open_string: &[u8] = &[1, b'a'];
    assert!(matches!(read_item(&mut open_string), Err(SaveError::StringNotTerminated)));
}

#[test]
fn dictionaries_keep_one_pair_per_key() {
    let mut v = vec![7];
    v.extend_from_slice(&3u32.to_le_bytes());
    v.extend_from_slice(&string_item("a"));
    v.extend_from_slice(&[4, 1]);
    v.extend_from_slice(&string_item("b"));
    v.extend_from_slice(&[4, 2]);
    v.extend_from_slice(&string_item("a"));
    v.extend_from_slice(&[4, 3]);
    v.push(0xEE);
    let mut cur: &[u8] = &v;
    match read_item(&mut cur).ok().unwrap() {
        DataItem::Dictionary(pairs) => {
            assert_eq!(pairs.len(), 2);
            assert!(matches!(&pairs[0], (DataItem::String(k), DataItem::Byte(3)) if k == "a"));
            assert!(matches!(&pairs[1], (DataItem::String(k), DataItem::Byte(2)) if k == "b"));
        }
        _ => panic!("expected a dictionary"),
    }
    assert_eq!(cur, &[0xEE]);
    // every NaN is one key
    let mut n = Vec::new();
    n.extend_from_slice(&2u32.to_le_bytes());
    n.push(2);
    n.extend_from_slice(&0x7fc0_0000u32.to_le_bytes());
    n.extend_from_slice(&[3]);
    n.push(2);
    n.extend_from_slice(&0x7fc0_0001u32.to_le_bytes());
    n.extend_from_slice(&[4, 9]);
    let mut nc: &[u8] = &n;
    let pairs = read_dictionary(&mut nc).ok().unwrap();
    assert_eq!(pairs.len(), 1);
    assert!(matches!(&pairs[0], (DataItem::Float(0x7fc0_0000), DataItem::Byte(9))));
}

#[test]
fn save_data_is_read() {
    let mut body = vec![7];
    body.extend_from_slice(&1u32.to_le_bytes());
    body.extend_from_slice(&string_item("level"));
    body.extend_from_slice(&[5, 10, 0]);
    let mut v = Vec::new();
    v.extend_from_slice(&10u32.to_le_bytes());
    v.extend_from_slice(&block(&[1, 2]));
    v.extend_from_slice(&block(&body));
    v.extend_from_slice(&block(&[3]));
    let sd = parse(&v).ok().unwrap();
    assert_eq!(sd.head, vec![1, 2]);
    assert_eq!(sd.foot, vec![3]);
    match sd.body {
        DataItem::Dictionary(p) => assert!(matches!(&p[0], (DataItem::String(k), DataItem::Short(10)) if k == "level")),
        _ => panic!("expected a dictionary"),
    }
    assert!(matches!(parse(&[]), Err(SaveError::MissingVersion)));
    assert!(matches!(parse(&11u32.to_le_bytes()), Err(SaveError::UnknownVersion(11))));
    assert!(matches!(parse(&10u32.to_le_bytes()), Err(SaveError::MissingBlockSize)));
}

#[test]
fn save_readability_is_checked() {
    let mut body = vec![7];
    body.extend_from_slice(&1u32.to_le_bytes());
    body.extend_from_slice(&string_item("level"));
    body.extend_from_slice(&[5, 10, 0]);
    let mut v = Vec::new();
    v.extend_from_slice(&10u32.to_le_bytes());
    v.extend_from_slice(&block(&[1, 2]));
    v.extend_from_slice(&block(&body));
    v.extend_from_slice(&block(&[3]));
    assert!(save_readable(&v));
    assert!(save_readable(&[]));
    assert!(save_readable(&11u32.to_le_bytes()));

    // a head block whose size runs past the end cannot be read
    let mut long = Vec::new();
    long.extend_from_slice(&10u32.to_le_bytes());
    long.extend_from_slice(&100u32.to_le_bytes());
    long.extend_from_slice(&10u32.to_le_bytes());
    assert!(!save_readable(&long));

    // a body string of thirteen padded pairs cannot be decided on
    let padding = [0xDFu8, 0xC1, 0xA3, 0x85, 0x67, 0x49, 0x2B, 0x0D, 0xED, 0xCF, 0xB1, 0x93];
    let mut digest = vec![1u8];
    for k in 0..13 {
        digest.push(0x80);
        digest.push(if k < 12 { padding[k] } else { 0x01 });
    }
    digest.push(0);
    let mut stuck = Vec::new();
    stuck.extend_from_slice(&10u32.to_le_bytes());
    stuck.extend_from_slice(&block(&[1]));
    stuck.extend_from_slice(&block(&digest));
    stuck.extend_from_slice(&block(&[3]));
    assert!(!save_readable(&stuck));
}
