use pd2tools::scriptdata::document::{DocumentBuilder, TableRef};
use pd2tools::scriptdata::{Item, Key, Scalar, TableId, Vec3Bits};

fn scalar_of(it: Option<Item<String, TableRef>>) -> Scalar<String> {
    match it {
        Some(Item::Scalar(s)) => s,
        _ => panic!("expected a scalar"),
    }
}

fn table_of(it: Option<Item<String, TableRef>>) -> TableRef {
    match it {
        Some(Item::Table(t)) => t,
        _ => panic!("expected a table"),
    }
}

#[test]
fn built_document_reads_back_what_was_written() {
    let mut b = DocumentBuilder::new();
    {
        let (mut tw, id) = b.table_document();
        assert_eq!(id, TableId(0));
        assert_eq!(tw.table_id(), TableId(0));
        tw.set_meta(Some("Meta"));
        tw.indexed(1).ok().unwrap().string("one");
        tw.indexed(2).ok().unwrap().number(1.5f32.to_bits());
        assert!(tw.indexed(1).is_err());
        tw.string_keyed("flag").ok().unwrap().bool(true);
        assert!(tw.string_keyed("flag").is_err());
        assert!(tw.key(Key::String("flag")).is_err());
        let (sub_id, mut sub) = tw.indexed(3).ok().unwrap().new_table();
        assert_eq!(sub_id, TableId(1));
        sub.indexed(1).ok().unwrap().idstring(77);
        sub.key(Key::Index(2)).ok().unwrap().vector(Vec3Bits { x: 1, y: 2, z: 3 });
    }
    let doc = b.finish();
    let t = table_of(doc.root());
    assert_eq!(t.id(), TableId(0));
    assert!(matches!(scalar_of(t.get(Key::Index(1))), Scalar::String(s) if s == "one"));
    assert!(matches!(scalar_of(t.get(Key::Index(2))), Scalar::Number(n) if f32::from_bits(n) == 1.5));
    assert!(matches!(scalar_of(t.get(Key::String("flag"))), Scalar::Bool(true)));
    assert!(t.get(Key::Index(4)).is_none());
    assert!(t.get(Key::String("missing")).is_none());
    assert_eq!(t.meta(), Some(String::from("Meta")));

    let sub = table_of(t.get(Key::Index(3)));
    assert_eq!(sub.id(), TableId(1));
    assert!(matches!(scalar_of(sub.get(Key::Index(1))), Scalar::IdString(77)));
    assert!(matches!(scalar_of(sub.get(Key::Index(2))), Scalar::Vector(Vec3Bits { x: 1, y: 2, z: 3 })));
    // every table reports the metatable of the first
    assert_eq!(sub.meta(), Some(String::from("Meta")));
    assert!(doc.table(TableId(1)).is_some());
    assert!(doc.table(TableId(2)).is_none());
}

#[test]
fn integer_pairs_run_until_a_gap() {
    let mut b = DocumentBuilder::new();
    {
        let (mut tw, _) = b.table_document();
        tw.indexed(2).ok().unwrap().bool(false);
        tw.indexed(1).ok().unwrap().bool(true);
        tw.indexed(4).ok().unwrap().bool(true);
    }
    let doc = b.finish();
    let t = table_of(doc.root());
    let mut pairs = t.integer_pairs();
    let (k1, v1) = pairs.next().unwrap();
    assert_eq!(k1, 1);
    assert!(matches!(v1, Item::Scalar(Scalar::Bool(true))));
    let (k2, v2) = pairs.next().unwrap();
    assert_eq!(k2, 2);
    assert!(matches!(v2, Item::Scalar(Scalar::Bool(false))));
    assert!(pairs.next().is_none());
    assert!(pairs.next().is_none());
}

#[test]
fn string_keys_of_any_writer_land_in_the_first_table() {
    let mut b = DocumentBuilder::new();
    {
        let (mut tw, _) = b.table_document();
        tw.string_keyed("b").ok().unwrap().string("first");
        let (_, mut sub) = tw.indexed(1).ok().unwrap().new_table();
        sub.string_keyed("a").ok().unwrap().string("from the sub-table");
        // the check for a repeated key looks at the sub-table, which has none
        sub.string_keyed("b").ok().unwrap().string("replaced");
    }
    let doc = b.finish();
    let t = table_of(doc.root());
    let pairs = t.string_pairs();
    let got: Vec<(&str, String)> = pairs
        .iter()
        .map(|(k, v)| match v {
            Item::Scalar(Scalar::String(s)) => (k.as_str(), s.clone()),
            _ => panic!("expected strings"),
        })
        .collect();
    assert_eq!(got, vec![("b", String::from("replaced")), ("a", String::from("from the sub-table"))]);
    let sub = table_of(t.get(Key::Index(1)));
    assert!(sub.string_pairs().is_empty());
}

#[test]
fn resuming_a_table_writes_into_it() {
    let mut b = DocumentBuilder::new();
    {
        let (mut tw, _) = b.table_document();
        let (sub_id, _) = tw.indexed(1).ok().unwrap().new_table();
        assert!(tw.indexed(2).ok().unwrap().resume_table(TableId(9)).is_err());
        let (id, mut again) = tw.indexed(2).ok().unwrap().resume_table(sub_id).ok().unwrap();
        assert_eq!(id, sub_id);
        again.indexed(5).ok().unwrap().string("five");
    }
    let doc = b.finish();
    let t = table_of(doc.root());
    // the key given to the resuming writer holds nothing
    assert!(t.get(Key::Index(2)).is_none());
    let sub = table_of(t.get(Key::Index(1)));
    assert!(matches!(scalar_of(sub.get(Key::Index(5))), Scalar::String(s) if s == "five"));
    assert!(matches!(sub.get_item(Key::Index(5)), Some(Item::Scalar(Scalar::String(_)))));
    assert_eq!(sub.document().table(TableId(0)).unwrap().id(), TableId(0));
}

#[test]
fn scalar_documents_have_a_scalar_root() {
    let d = DocumentBuilder::new().bool_document(true);
    assert!(matches!(scalar_of(d.root()), Scalar::Bool(true)));
    let d = DocumentBuilder::new().string_document("text");
    assert!(matches!(scalar_of(d.root()), Scalar::String(s) if s == "text"));
    let d = DocumentBuilder::new().idstring_document(9);
    assert!(matches!(scalar_of(d.root()), Scalar::IdString(9)));
    assert!(DocumentBuilder::new().empty_document().root().is_none());
}

#[test]
fn scalars_map_and_borrow() {
    let s: Scalar<String> = Scalar::String(String::from("abc"));
    let mapped = s.clone().map_string(|t| t.len());
    assert!(matches!(mapped, Scalar::String(3)));
    assert!(matches!(s.to_borrowed(), Scalar::String("abc")));
    let n: Scalar<String> = Scalar::from(true);
    assert!(matches!(n.map_string(|t| t.len()), Scalar::Bool(true)));
    let it: Item<String, u32> = Item::Table(4);
    assert!(matches!(it.map_table(|t| t * 2), Item::Table(8)));
}
