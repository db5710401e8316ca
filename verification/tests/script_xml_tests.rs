use pd2tools::formats::scriptdata::custom_xml;
use pd2tools::formats::scriptdata::document::{DocTable, DocValue, Document};
use pd2tools::formats::scriptdata::generic_xml;
use pd2tools::formats::scriptdata::lua_dump;

fn number_text(b: u32) -> String {
    f32::from_bits(b).to_string()
}

const ONE: u32 = 0x3F80_0000;
const TWO: u32 = 0x4000_0000;

fn text(s: &str) -> DocValue {
    DocValue::String(String::from(s))
}

/// A root table with a number under `a` and `true` under 2.
fn flat_document() -> Document {
    let mut t = DocTable::new();
    t.insert(text("a"), DocValue::Number(ONE));
    t.insert(DocValue::Number(TWO), DocValue::Bool(true));
    let mut doc = Document::new();
    doc.add_table(1, t);
    doc.set_root(Some(DocValue::Table(1)));
    doc
}

/// A root table holding one table, with metatable `m`, under 1 and under 2.
fn shared_document() -> Document {
    let mut inner = DocTable::new();
    inner.set_metatable(Some(String::from("m")));
    inner.insert(text("x"), text("y"));
    let mut root = DocTable::new();
    root.insert(DocValue::Number(ONE), DocValue::Table(2));
    root.insert(DocValue::Number(TWO), DocValue::Table(2));
    let mut doc = Document::new();
    doc.add_table(1, root);
    doc.add_table(2, inner);
    doc.set_root(Some(DocValue::Table(1)));
    doc
}

#[test]
fn generic_xml_of_a_flat_table() {
    let out = generic_xml::dump(&flat_document(), &number_text).unwrap();
    assert_eq!(
        out,
        "<generic_scriptdata type=\"table\">\n    <entry key=\"a\" type=\"number\" value=\"1\"/>\n    <entry index=\"2\" type=\"boolean\" value=\"true\"/>\n</generic_scriptdata>\n"
    );
}

#[test]
fn generic_xml_gives_a_shared_table_an_id() {
    let out = generic_xml::dump(&shared_document(), &number_text).unwrap();
    assert_eq!(
        out,
        "<generic_scriptdata type=\"table\">\n    <entry index=\"1\" type=\"table\" _id=\"0\" metatable=\"m\">\n        <entry key=\"x\" type=\"string\" value=\"y\"/>\n    </entry>\n    <entry index=\"2\" type=\"table\" _ref=\"0\"/>\n</generic_scriptdata>\n"
    );
}

#[test]
fn generic_xml_of_nothing_and_of_a_scalar() {
    assert_eq!(generic_xml::dump(&Document::new(), &number_text).unwrap(), "<generic_scriptdata type=\"nil\"/>");
    let mut doc = Document::new();
    doc.set_root(Some(DocValue::Vector(pd2tools::formats::scriptdata::Vector { x: ONE, y: TWO, z: 0 })));
    assert_eq!(
        generic_xml::dump(&doc, &number_text).unwrap(),
        "<generic_scriptdata type=\"vector\" value=\"1 2 0\"/>\n"
    );
}

#[test]
fn generic_xml_refuses_bad_keys_and_cycles() {
    let mut t = DocTable::new();
    t.insert(DocValue::Bool(true), DocValue::Bool(false));
    let mut doc = Document::new();
    doc.add_table(1, t);
    doc.set_root(Some(DocValue::Table(1)));
    assert!(generic_xml::dump(&doc, &number_text).is_none());
    // a negative number key
    let mut t = DocTable::new();
    t.insert(DocValue::Number(0xBF80_0000), DocValue::Bool(false));
    let mut doc = Document::new();
    doc.add_table(1, t);
    doc.set_root(Some(DocValue::Table(1)));
    assert!(generic_xml::dump(&doc, &number_text).is_none());
    // a table that holds itself
    let mut t = DocTable::new();
    t.insert(text("me"), DocValue::Table(1));
    let mut doc = Document::new();
    doc.add_table(1, t);
    doc.set_root(Some(DocValue::Table(1)));
    assert!(generic_xml::dump(&doc, &number_text).is_none());
    assert!(custom_xml::dump(&doc, &number_text).is_none());
}

#[test]
fn custom_xml_of_a_shared_table() {
    let out = custom_xml::dump(&shared_document(), &number_text).unwrap();
    assert_eq!(out, "<table>\n    <m _id=\"1\" x=\"y\"/>\n    <m _ref=\"1\"/>\n</table>\n");
}

#[test]
fn custom_xml_attributes_array_and_named_tables() {
    let mut child = DocTable::new();
    child.insert(text("k"), DocValue::IdString(0x1234));
    let mut t = DocTable::new();
    t.insert(text("name"), text("hi"));
    t.insert(DocValue::Number(ONE), DocValue::Number(TWO));
    t.insert(text("sub"), DocValue::Table(2));
    let mut doc = Document::new();
    doc.add_table(1, t);
    doc.add_table(2, child);
    doc.set_root(Some(DocValue::Table(1)));
    let out = custom_xml::dump(&doc, &number_text).unwrap();
    assert_eq!(
        out,
        "<table name=\"hi\">\n    <value_node value=\"2\"/>\n    <sub k=\"@ID0000000000001234@\"/>\n</table>\n"
    );
    assert_eq!(custom_xml::dump(&Document::new(), &number_text).unwrap(), "<value_node value=\"nil\"/>\n");
}

#[test]
fn lua_of_a_flat_table() {
    assert_eq!(lua_dump::dump(&flat_document(), &number_text).unwrap(), "return {\n  a = 1,\n  [2] = true,\n}\n");
}

#[test]
fn lua_refers_to_a_shared_table() {
    assert_eq!(
        lua_dump::dump(&shared_document(), &number_text).unwrap(),
        "return {\n  [1] = RefId('1', m {\n    x = \"y\",\n  }),\n  [2] = Ref('1'),\n}\n"
    );
}

#[test]
fn lua_of_nothing_empty_tables_keywords_and_scalars() {
    assert_eq!(lua_dump::dump(&Document::new(), &number_text).unwrap(), "return nil\n");
    let mut t = DocTable::new();
    t.insert(text("while"), DocValue::IdString(0x1f));
    t.insert(text("e"), DocValue::Table(2));
    t.insert(text("q"), DocValue::Quaternion(pd2tools::formats::scriptdata::document::Quaternion { x: ONE, y: 0, z: 0, w: TWO }));
    let mut doc = Document::new();
    doc.add_table(1, t);
    doc.add_table(2, DocTable::new());
    doc.set_root(Some(DocValue::Table(1)));
    assert_eq!(
        lua_dump::dump(&doc, &number_text).unwrap(),
        "return {\n  [\"while\"] = IdString(0x000000000000001f),\n  e = { },\n  q = Quaternion(1, 0, 0, 2),\n}\n"
    );
}

#[test]
fn lua_refuses_a_cycle() {
    let mut t = DocTable::new();
    t.insert(text("me"), DocValue::Table(1));
    let mut doc = Document::new();
    doc.add_table(1, t);
    doc.set_root(Some(DocValue::Table(1)));
    assert!(lua_dump::dump(&doc, &number_text).is_none());
}
