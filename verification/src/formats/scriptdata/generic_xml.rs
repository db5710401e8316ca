//! Writing script data as generic XML: every value is an element with a
//! type and, for a scalar, its value as text; a table's entries are its
//! child elements, named by their index or key; a table that the root
//! reaches along more than one path gets an `_id` where it is first written
//! and is an `_ref` to that id where it is met again.
//!
//! Numbers are shown as the caller's number formatter shows the `f32` whose
//! bits they are; the formatter must give one text per number.
use vstd::prelude::*;
use super::document::{DocTable, DocValue, Document, TableView, ValueView};
use crate::formats::fdm::meshoid::{dec_text, digit_char};
use crate::formats::xml_writer::{
    attr_call, attributes_open, end_call, start_call, xml_attr, xml_calls, xml_document_text, xml_end,
    xml_finish, xml_new, xml_start, XmlCall,
};
use crate::hashindex::{hex16_string, spec_hex16};
use crate::formats::fdm::meshoid::digit;
use crate::text::push_char;
use vstd::string::StringExecFns;

verus! {

/// How an entry is named: the root, or an entry of a table by index or key.
pub enum NameView {
    Root,
    Index(nat),
    Key(Seq<char>),
}

/// The text the formatter `f` gives for the number with bits `b`.
pub open spec fn num_text<F: Fn(u32) -> String>(f: F, b: u32) -> Seq<char> {
    (choose|s: String| f.ensures((b,), s))@
}

/// `f` accepts every number and gives one text for each.
pub open spec fn formats_numbers<F: Fn(u32) -> String>(f: F) -> bool {
    &&& forall|b: u32| f.requires((b,))
    &&& forall|b: u32, s1: String, s2: String| f.ensures((b,), s1) && f.ensures((b,), s2) ==> s1@ == s2@
}

/// The index that a number key names, as a nonnegative integral `f32` is
/// converted to `usize` (saturating); `None` for a key that is negative,
/// not integral, or not a number.
pub open spec fn number_key_index(b: u32) -> Option<nat> {
    let e = (b >> 23u32) & 0xffu32;
    let m = b & 0x7fffffu32;
    let neg = (b >> 31u32) == 1u32;
    if e == 0xffu32 {
        if m != 0 || neg {
            None
        } else {
            Some(usize::MAX as nat)
        }
    } else if e == 0 {
        if m != 0 {
            None
        } else {
            Some(0)
        }
    } else if neg || e < 127 {
        None
    } else if e >= 150 {
        let v = ((m | 0x800000u32) as u128) << ((e - 150) as u128);
        Some(
            if v > usize::MAX as u128 {
                usize::MAX as nat
            } else {
                v as nat
            },
        )
    } else {
        let sh = (150 - e) as u32;
        if m & (((1u32 << sh) - 1) as u32) != 0 {
            None
        } else {
            Some(((m | 0x800000u32) >> sh) as nat)
        }
    }
}

/// The name of an entry under key `k`: an index for a number, a key for a
/// string; `None` for any other key.
pub open spec fn key_name(k: ValueView) -> Option<NameView> {
    match k {
        ValueView::Number(b) => match number_key_index(b) {
            Some(i) => Some(NameView::Index(i)),
            None => None,
        },
        ValueView::String(s) => Some(NameView::Key(s)),
        _ => None,
    }
}

/// The type attribute of a value.
pub open spec fn value_kind_name(v: ValueView) -> Seq<char> {
    match v {
        ValueView::Bool(_) => "boolean"@,
        ValueView::Number(_) => "number"@,
        ValueView::IdString(_) => "idstring"@,
        ValueView::String(_) => "string"@,
        ValueView::Vector(..) => "vector"@,
        ValueView::Quaternion(..) => "quaternion"@,
        ValueView::Table(_) => "table"@,
    }
}

/// The value attribute of a scalar: `true` or `false`, a number's text, the
/// hash in sixteen hex digits, the string, or the components' texts
/// separated by spaces.
pub open spec fn scalar_text(nums: spec_fn(u32) -> Seq<char>, v: ValueView) -> Seq<char> {
    match v {
        ValueView::Bool(b) => if b {
            "true"@
        } else {
            "false"@
        },
        ValueView::Number(n) => nums(n),
        ValueView::IdString(h) => spec_hex16(h),
        ValueView::String(s) => s,
        ValueView::Vector(x, y, z) => nums(x) + seq![' '] + nums(y) + seq![' '] + nums(z),
        ValueView::Quaternion(x, y, z, w) => nums(x) + seq![' '] + nums(y) + seq![' '] + nums(z) + seq![' ']
            + nums(w),
        ValueView::Table(_) => Seq::empty(),
    }
}

/// The start of an entry: the root element or an `entry` element with its
/// index or key, then its type.
pub open spec fn entry_start(name: NameView, ty: Seq<char>) -> Seq<XmlCall> {
    let opening: Seq<XmlCall> = match name {
        NameView::Root => seq![start_call("generic_scriptdata"@)],
        NameView::Index(i) => seq![start_call("entry"@), attr_call("index"@, dec_text(i))],
        NameView::Key(k) => seq![start_call("entry"@), attr_call("key"@, k)],
    };
    opening + seq![attr_call("type"@, ty)]
}

/// How many paths lead from `v` to the table `target`, with `fuel` tables
/// to pass at most; `None` where a table is missing or the fuel runs out.
pub open spec fn paths(doc: Document, v: ValueView, target: u32, fuel: nat) -> Option<nat>
    decreases fuel, 0nat,
{
    match v {
        ValueView::Table(t) => if fuel == 0 {
            None
        } else {
            match doc.table_view(t) {
                None => None,
                Some(tv) => match paths_items(doc, tv.dict, tv.dict.len() as int, target, (fuel - 1) as nat) {
                    Some(c) => Some(c + if t == target {
                        1nat
                    } else {
                        0nat
                    }),
                    None => None,
                },
            }
        },
        _ => Some(0),
    }
}

/// The paths to `target` from the values of the first `n` entries.
pub open spec fn paths_items(doc: Document, d: Seq<(ValueView, ValueView)>, n: int, target: u32, fuel: nat) -> Option<nat>
    decreases fuel, if n > 0 { n as nat } else { 0nat },
{
    if n <= 0 {
        Some(0)
    } else {
        match paths_items(doc, d, n - 1, target, fuel) {
            None => None,
            Some(a) => match paths(doc, d[n - 1].1, target, fuel) {
                None => None,
                Some(b) => Some(a + b),
            },
        }
    }
}

/// How many tables a walk from the root may pass: one more than there are.
pub open spec fn walk_fuel(doc: Document) -> nat {
    doc.ids().len() + 1
}

/// Whether table `t` is reached from the root along more than one path;
/// `None` where the walk fails.
pub open spec fn is_shared(doc: Document, t: u32) -> Option<bool> {
    match doc.root_view() {
        None => Some(false),
        Some(r) => match paths(doc, r, t, walk_fuel(doc)) {
            Some(c) => Some(c >= 2),
            None => None,
        },
    }
}

/// The id given to table `t` so far, if any.
pub open spec fn seen_id(seen: Seq<(u32, u32)>, t: u32) -> Option<u32>
    decreases seen.len(),
{
    if seen.len() == 0 {
        None
    } else if seen.last().0 == t {
        Some(seen.last().1)
    } else {
        seen_id(seen.drop_last(), t)
    }
}

/// The writer's state: the ids given so far, and the next id.
pub type IdState = (Seq<(u32, u32)>, u32);

/// The calls that write value `v` named `name` from state `st`, and the
/// state after; `None` where a key is neither a string nor a nonnegative
/// integral number, a table is missing, the walk fails, or the ids run out.
pub open spec fn gen_item(
    doc: Document,
    nums: spec_fn(u32) -> Seq<char>,
    name: NameView,
    v: ValueView,
    st: IdState,
    fuel: nat,
) -> Option<(Seq<XmlCall>, IdState)>
    decreases fuel, 0nat,
{
    match v {
        ValueView::Table(t) => match seen_id(st.0, t) {
            Some(id) => Some((entry_start(name, "table"@) + seq![attr_call("_ref"@, dec_text(id as nat)), end_call()], st)),
            None => if fuel == 0 {
                None
            } else {
                match (doc.table_view(t), is_shared(doc, t)) {
                    (Some(tv), Some(shared)) => if shared && st.1 == u32::MAX {
                        None
                    } else {
                        let st1 = if shared {
                            (st.0.push((t, st.1)), (st.1 + 1) as u32)
                        } else {
                            st
                        };
                        let head = entry_start(name, "table"@) + (if shared {
                            seq![attr_call("_id"@, dec_text(st.1 as nat))]
                        } else {
                            Seq::empty()
                        }) + match tv.meta {
                            Some(m) => seq![attr_call("metatable"@, m)],
                            None => Seq::empty(),
                        };
                        match gen_items(doc, nums, tv.dict, tv.dict.len() as int, st1, (fuel - 1) as nat) {
                            Some((body, st2)) => Some((head + body + seq![end_call()], st2)),
                            None => None,
                        }
                    },
                    _ => None,
                }
            },
        },
        _ => Some((entry_start(name, value_kind_name(v)) + seq![attr_call("value"@, scalar_text(nums, v)), end_call()], st)),
    }
}

/// The calls that write the first `n` entries of `d`, one after another.
pub open spec fn gen_items(
    doc: Document,
    nums: spec_fn(u32) -> Seq<char>,
    d: Seq<(ValueView, ValueView)>,
    n: int,
    st: IdState,
    fuel: nat,
) -> Option<(Seq<XmlCall>, IdState)>
    decreases fuel, if n > 0 { n as nat } else { 0nat },
{
    if n <= 0 {
        Some((Seq::empty(), st))
    } else {
        match gen_items(doc, nums, d, n - 1, st, fuel) {
            None => None,
            Some((ev, st1)) => match key_name(d[n - 1].0) {
                None => None,
                Some(name) => match gen_item(doc, nums, name, d[n - 1].1, st1, fuel) {
                    None => None,
                    Some((ev2, st2)) => Some((ev + ev2, st2)),
                },
            },
        }
    }
}

/// Whether the calls went from `before` to `after` and the state is `st`,
/// as result `o` says.
pub open spec fn written(o: Option<(Seq<XmlCall>, IdState)>, before: Seq<XmlCall>, after: Seq<XmlCall>, st: IdState) -> bool {
    match o {
        Some((ev, st2)) => after == before + ev && st == st2,
        None => false,
    }
}

/// The calls of a result, if any.
pub open spec fn calls_of(o: Option<(Seq<XmlCall>, IdState)>) -> Seq<XmlCall> {
    match o {
        Some((c, _)) => c,
        None => Seq::empty(),
    }
}

/// What `dump` gives: the text for a document without root, the document
/// text of the calls that write the root, or `None` where writing fails.
pub open spec fn spec_dump(doc: Document, nums: spec_fn(u32) -> Seq<char>) -> Option<Seq<char>> {
    match doc.root_view() {
        None => Some("<generic_scriptdata type=\"nil\"/>"@),
        Some(r) => match gen_item(doc, nums, NameView::Root, r, (Seq::empty(), 0u32), walk_fuel(doc)) {
            Some((calls, _)) => Some(xml_document_text(calls)),
            None => None,
        },
    }
}

/// A document whose root is a vector or a quaternion is one
/// `generic_scriptdata` element of that type whose value is the
/// components' texts in the order x, y, z (and w), separated by spaces.
pub proof fn lemma_generic_vector_roots(doc: Document, nums: spec_fn(u32) -> Seq<char>)
    ensures
        doc.root_view() matches Some(ValueView::Vector(x, y, z)) ==> spec_dump(doc, nums) == Some(
            xml_document_text(
                seq![
                    start_call("generic_scriptdata"@),
                    attr_call("type"@, "vector"@),
                    attr_call("value"@, (nums(x) + seq![' ']) + (nums(y) + seq![' ']) + nums(z)),
                    end_call(),
                ],
            ),
        ),
        doc.root_view() matches Some(ValueView::Quaternion(x, y, z, w)) ==> spec_dump(doc, nums) == Some(
            xml_document_text(
                seq![
                    start_call("generic_scriptdata"@),
                    attr_call("type"@, "quaternion"@),
                    attr_call(
                        "value"@,
                        (nums(x) + seq![' ']) + (nums(y) + seq![' ']) + (nums(z) + seq![' ']) + nums(w),
                    ),
                    end_call(),
                ],
            ),
        ),
{
    match doc.root_view() {
        Some(ValueView::Vector(x, y, z)) => {
            let v = ValueView::Vector(x, y, z);
            assert(scalar_text(nums, v) =~= (nums(x) + seq![' ']) + (nums(y) + seq![' ']) + nums(z));
            assert(entry_start(NameView::Root, "vector"@) + seq![attr_call("value"@, scalar_text(nums, v)), end_call()]
                =~= seq![
                start_call("generic_scriptdata"@),
                attr_call("type"@, "vector"@),
                attr_call("value"@, scalar_text(nums, v)),
                end_call(),
            ]);
        },
        Some(ValueView::Quaternion(x, y, z, w)) => {
            let v = ValueView::Quaternion(x, y, z, w);
            assert(scalar_text(nums, v) =~= (nums(x) + seq![' ']) + (nums(y) + seq![' ']) + (nums(z) + seq![' '])
                + nums(w));
            assert(entry_start(NameView::Root, "quaternion"@) + seq![attr_call("value"@, scalar_text(nums, v)), end_call()]
                =~= seq![
                start_call("generic_scriptdata"@),
                attr_call("type"@, "quaternion"@),
                attr_call("value"@, scalar_text(nums, v)),
                end_call(),
            ]);
        },
        _ => {},
    }
}

/// The texts of the formatter `f`, as a function.
pub open spec fn number_texts<F: Fn(u32) -> String>(f: F) -> spec_fn(u32) -> Seq<char> {
    |b: u32| num_text(f, b)
}

/// How an entry is named when it is written.
pub enum XName<'a> {
    Root,
    Index(u128),
    Key(&'a str),
}

/// The name as mathematics sees it.
pub open spec fn xname_view(n: XName) -> NameView {
    match n {
        XName::Root => NameView::Root,
        XName::Index(i) => NameView::Index(i as nat),
        XName::Key(k) => NameView::Key(k@),
    }
}

pub(crate) fn number_index(b: u32) -> (r: Option<u128>)
    ensures
        r matches Some(i) ==> number_key_index(b) == Some(i as nat),
        r is None ==> number_key_index(b) is None,
{
    let e = (b >> 23u32) & 0xffu32;
    let m = b & 0x7fffffu32;
    let neg = (b >> 31u32) == 1u32;
    if e == 0xffu32 {
        if m != 0 || neg {
            None
        } else {
            Some(usize::MAX as u128)
        }
    } else if e == 0 {
        if m != 0 {
            None
        } else {
            Some(0)
        }
    } else if neg || e < 127 {
        None
    } else if e >= 150 {
        assert(e <= 0xffu32) by (bit_vector)
            requires
                e == (b >> 23u32) & 0xffu32,
        ;
        assert(e - 150 <= 104);
        assert(((m | 0x800000u32) as u128) < 0x1000000u128) by (bit_vector)
            requires
                m == b & 0x7fffffu32,
        ;
        let base: u128 = (m | 0x800000u32) as u128;
        let sh: u128 = (e - 150) as u128;
        assert(base << sh <= u128::MAX);
        let v: u128 = base << sh;
        if v > usize::MAX as u128 {
            Some(usize::MAX as u128)
        } else {
            Some(v)
        }
    } else {
        let sh: u32 = 150 - e;
        assert(1 <= sh <= 23);
        assert((1u32 << sh) >= 1u32) by (bit_vector)
            requires
                1 <= sh <= 23,
        ;
        let mask: u32 = (1u32 << sh) - 1;
        if m & mask != 0 {
            None
        } else {
            Some(((m | 0x800000u32) >> sh) as u128)
        }
    }
}

/// Appends `n` in decimal.
fn push_decimal_u128(out: &mut String, n: u128)
    ensures
        final(out)@ == old(out)@ + dec_text(n as nat),
    decreases n,
{
    if n >= 10 {
        push_decimal_u128(out, n / 10);
    }
    push_char(out, digit((n % 10) as u32));
    proof {
        if n < 10 {
            assert(n % 10 == n);
        }
    }
    assert(out@ =~= old(out)@ + dec_text(n as nat));
}

pub(crate) fn dec_string(n: u128) -> (r: String)
    ensures
        r@ == dec_text(n as nat),
{
    let mut s = String::new();
    push_decimal_u128(&mut s, n);
    assert(s@ =~= dec_text(n as nat));
    s
}

pub(crate) fn append(out: &mut String, s: &str)
    ensures
        final(out)@ == old(out)@ + s@,
{
    out.append(s);
}

/// The text of a scalar's value attribute.
fn scalar_string<F: Fn(u32) -> String>(f: &F, Ghost(nums): Ghost<spec_fn(u32) -> Seq<char>>, v: &DocValue) -> (r: String)
    requires
        formats_numbers(*f),
        nums == number_texts(*f),
    ensures
        r@ == scalar_text(nums, v@),
{
    match v {
        DocValue::Bool(b) => if *b {
            String::from_str("true")
        } else {
            String::from_str("false")
        },
        DocValue::Number(n) => number_string(f, Ghost(nums), *n),
        DocValue::IdString(h) => hex16_string(*h),
        DocValue::String(s) => String::from_str(s.as_str()),
        DocValue::Vector(vec) => {
            let mut out = number_string(f, Ghost(nums), vec.x);
            push_char(&mut out, ' ');
            append(&mut out, number_string(f, Ghost(nums), vec.y).as_str());
            push_char(&mut out, ' ');
            append(&mut out, number_string(f, Ghost(nums), vec.z).as_str());
            out
        },
        DocValue::Quaternion(q) => {
            let mut out = number_string(f, Ghost(nums), q.x);
            push_char(&mut out, ' ');
            append(&mut out, number_string(f, Ghost(nums), q.y).as_str());
            push_char(&mut out, ' ');
            append(&mut out, number_string(f, Ghost(nums), q.z).as_str());
            push_char(&mut out, ' ');
            append(&mut out, number_string(f, Ghost(nums), q.w).as_str());
            out
        },
        DocValue::Table(_) => String::new(),
    }
}

pub(crate) fn number_string<F: Fn(u32) -> String>(f: &F, Ghost(nums): Ghost<spec_fn(u32) -> Seq<char>>, b: u32) -> (r: String)
    requires
        formats_numbers(*f),
        nums == number_texts(*f),
    ensures
        r@ == nums(b),
{
    let s = f(b);
    proof {
        let c = choose|c: String| f.ensures((b,), c);
        assert(f.ensures((b,), c));
    }
    s
}

/// The type attribute of a value.
fn kind_name(v: &DocValue) -> (r: &'static str)
    ensures
        r@ == value_kind_name(v@),
{
    match v {
        DocValue::Bool(_) => "boolean",
        DocValue::Number(_) => "number",
        DocValue::IdString(_) => "idstring",
        DocValue::String(_) => "string",
        DocValue::Vector(_) => "vector",
        DocValue::Quaternion(_) => "quaternion",
        DocValue::Table(_) => "table",
    }
}

fn write_entry_start(w: &mut xmlwriter::XmlWriter, name: &XName, ty: &str)
    ensures
        xml_calls(*final(w)) == xml_calls(*old(w)) + entry_start(xname_view(*name), ty@),
        attributes_open(xml_calls(*final(w))),
{
    let ghost before = xml_calls(*w);
    match name {
        XName::Root => {
            xml_start(w, "generic_scriptdata");
        },
        XName::Index(i) => {
            xml_start(w, "entry");
            let t = dec_string(*i);
            xml_attr(w, "index", t.as_str());
        },
        XName::Key(k) => {
            xml_start(w, "entry");
            xml_attr(w, "key", k);
        },
    }
    xml_attr(w, "type", ty);
    assert(xml_calls(*w) =~= before + entry_start(xname_view(*name), ty@));
}

/// The name of the entry under key `k`.
fn key_xname<'a>(k: &'a DocValue) -> (r: Option<XName<'a>>)
    ensures
        r matches Some(n) ==> key_name(k@) == Some(xname_view(n)),
        r is None ==> key_name(k@) is None,
{
    match k {
        DocValue::Number(b) => match number_index(*b) {
            Some(i) => Some(XName::Index(i)),
            None => None,
        },
        DocValue::String(s) => Some(XName::Key(s.as_str())),
        _ => None,
    }
}

/// How many paths, up to two, lead from `v` to table `target`.
fn count_paths(doc: &Document, v: &DocValue, target: u32, fuel: u128) -> (r: Option<u8>)
    requires
        doc.wf(),
    ensures
        r matches Some(c) ==> paths(*doc, v@, target, fuel as nat) matches Some(p) && c as nat == if p >= 2 {
            2
        } else {
            p
        },
        r is None ==> paths(*doc, v@, target, fuel as nat) is None,
    decreases fuel,
{
    match v {
        DocValue::Table(t) => {
            if fuel == 0 {
                return None;
            }
            let tab = match doc.table(*t) {
                None => return None,
                Some(tab) => tab,
            };
            let items = tab.items();
            let ghost d = tab@.dict;
            let n = items.len();
            let mut acc: u8 = 0;
            let mut k: usize = 0;
            while k < n
                invariant
                    doc.wf(),
                    doc.table_view(*t) == Some(tab@),
                    d == tab@.dict,
                    v@ == ValueView::Table(*t),
                    n == items@.len(),
                    d.len() == n,
                    pair_views_hold(items@, d),
                    k <= n,
                    fuel > 0,
                    paths_items(*doc, d, k as int, target, (fuel - 1) as nat) matches Some(p) && acc as nat == if p
                        >= 2 {
                        2
                    } else {
                        p
                    },
                decreases n - k,
            {
                let c = match count_paths(doc, &items[k].1, target, fuel - 1) {
                    None => {
                        proof {
                            assert(items@[k as int].1@ == d[k as int].1);
                        }
                        assert(paths_items(*doc, d, k + 1, target, (fuel - 1) as nat) is None);
                        proof {
                            lemma_paths_items_none_grows(*doc, d, (k + 1) as int, n as int, target, (fuel - 1) as nat);
                            assert(doc.table_view(*t) == Some(tab@));
                            assert(tab@.dict.len() == n);
                            assert(paths(*doc, v@, target, fuel as nat) is None);
                        }
                        return None;
                    },
                    Some(c) => c,
                };
                proof {
                    assert(items@[k as int].1@ == d[k as int].1);
                }
                acc = if acc + c >= 2 {
                    2
                } else {
                    acc + c
                };
                k += 1;
            }
            proof {
                assert(tab@.dict.len() == n);
            }
            if *t == target {
                acc = if acc + 1 >= 2 {
                    2
                } else {
                    acc + 1
                };
            }
            Some(acc)
        },
        _ => Some(0),
    }
}

/// The items' views are the pairs of `d`.
pub open spec fn pair_views_hold(items: Seq<(DocValue, DocValue)>, d: Seq<(ValueView, ValueView)>) -> bool {
    &&& items.len() == d.len()
    &&& forall|j: int| 0 <= j < items.len() ==> (#[trigger] items[j]).0@ == d[j].0 && items[j].1@ == d[j].1
}

proof fn lemma_paths_items_none_grows(doc: Document, d: Seq<(ValueView, ValueView)>, k: int, n: int, target: u32, fuel: nat)
    requires
        0 <= k <= n,
        paths_items(doc, d, k, target, fuel) is None,
    ensures
        paths_items(doc, d, n, target, fuel) is None,
    decreases n - k,
{
    if k < n {
        lemma_paths_items_none_grows(doc, d, k + 1, n, target, fuel);
        assert(paths_items(doc, d, k + 1, target, fuel) is None);
    }
}

/// Whether table `t` is reached from the root along more than one path.
pub(crate) fn shared(doc: &Document, t: u32) -> (r: Option<bool>)
    requires
        doc.wf(),
    ensures
        r == is_shared(*doc, t),
{
    match doc.root() {
        None => Some(false),
        Some(root) => {
            let fuel = doc.table_count() as u128 + 1;
            match count_paths(doc, &root, t, fuel) {
                None => None,
                Some(c) => Some(c >= 2),
            }
        },
    }
}

/// The id given to table `t` so far, if any.
pub(crate) fn find_seen(seen: &Vec<(u32, u32)>, t: u32) -> (r: Option<u32>)
    ensures
        r == seen_id(seen@, t),
{
    let mut k: usize = seen.len();
    assert(seen@.subrange(0, k as int) =~= seen@);
    while k > 0
        invariant
            k <= seen@.len(),
            seen_id(seen@, t) == seen_id(seen@.subrange(0, k as int), t),
        decreases k,
    {
        let ghost pre = seen@.subrange(0, k as int);
        assert(pre.drop_last() =~= seen@.subrange(0, k - 1));
        if seen[k - 1].0 == t {
            return Some(seen[k - 1].1);
        }
        k -= 1;
    }
    assert(seen@.subrange(0, 0) =~= Seq::<(u32, u32)>::empty());
    None
}

/// Writes value `v` named `name`, as `gen_item` says; `false` where that
/// gives `None`.
fn write_item<F: Fn(u32) -> String>(
    doc: &Document,
    f: &F,
    Ghost(nums): Ghost<spec_fn(u32) -> Seq<char>>,
    w: &mut xmlwriter::XmlWriter,
    name: &XName,
    v: &DocValue,
    seen: &mut Vec<(u32, u32)>,
    next: &mut u32,
    fuel: u128,
) -> (ok: bool)
    requires
        doc.wf(),
        formats_numbers(*f),
        nums == number_texts(*f),
    ensures
        ok == gen_item(*doc, nums, xname_view(*name), v@, (old(seen)@, *old(next)), fuel as nat) is Some,
        ok ==> written(
            gen_item(*doc, nums, xname_view(*name), v@, (old(seen)@, *old(next)), fuel as nat),
            xml_calls(*old(w)),
            xml_calls(*final(w)),
            (final(seen)@, *final(next)),
        ),
    decreases fuel,
{
    let ghost before = xml_calls(*w);
    match v {
        DocValue::Table(t) => {
            let t = *t;
            if let Some(id) = find_seen(seen, t) {
                write_entry_start(w, name, "table");
                let idt = dec_string(id as u128);
                xml_attr(w, "_ref", idt.as_str());
                xml_end(w);
                assert(xml_calls(*w) =~= before + (entry_start(xname_view(*name), "table"@) + seq![
                    attr_call("_ref"@, dec_text(id as nat)),
                    end_call(),
                ]));
                return true;
            }
            if fuel == 0 {
                return false;
            }
            let tab = match doc.table(t) {
                None => return false,
                Some(tab) => tab,
            };
            let sh = match shared(doc, t) {
                None => return false,
                Some(sh) => sh,
            };
            if sh && *next == u32::MAX {
                return false;
            }
            write_entry_start(w, name, "table");
            let ghost after_start = xml_calls(*w);
            if sh {
                let idt = dec_string(*next as u128);
                xml_attr(w, "_id", idt.as_str());
                seen.push((t, *next));
                *next = *next + 1;
            }
            let ghost after_id = xml_calls(*w);
            match tab.get_metatable() {
                Some(m) => {
                    xml_attr(w, "metatable", m.as_str());
                },
                None => {},
            }
            let ghost head_calls = xml_calls(*w);
            let ghost st1 = (seen@, *next);
            proof {
                let head = entry_start(xname_view(*name), "table"@) + (if sh {
                    seq![attr_call("_id"@, dec_text(*old(next) as nat))]
                } else {
                    Seq::empty()
                }) + match tab@.meta {
                    Some(m) => seq![attr_call("metatable"@, m)],
                    None => Seq::<XmlCall>::empty(),
                };
                assert(head_calls =~= before + head);
            }
            let items = tab.items();
            let ghost d = tab@.dict;
            let n = items.len();
            let mut k: usize = 0;
            let mut good = true;
            while k < n && good
                invariant
                    doc.wf(),
                    formats_numbers(*f),
                    nums == number_texts(*f),
                    fuel > 0,
                    n == items@.len(),
                    d.len() == n,
                    pair_views_hold(items@, d),
                    k <= n,
                    good ==> written(gen_items(*doc, nums, d, k as int, st1, (fuel - 1) as nat), head_calls, xml_calls(*w), (seen@, *next)),
                    !good ==> k < n && gen_items(*doc, nums, d, k + 1, st1, (fuel - 1) as nat) is None,
                decreases n - k, if good { 1int } else { 0int },
            {
                let nm = match key_xname(&items[k].0) {
                    None => {
                        proof {
                            assert(items@[k as int].0@ == d[k as int].0);
                        }
                        good = false;
                        continue;
                    },
                    Some(nm) => nm,
                };
                proof {
                    assert(items@[k as int].0@ == d[k as int].0);
                    assert(items@[k as int].1@ == d[k as int].1);
                }
                if !write_item(doc, f, Ghost(nums), w, &nm, &items[k].1, seen, next, fuel - 1) {
                    good = false;
                    continue;
                }
                proof {
                    assert(xml_calls(*w) =~= head_calls + calls_of(gen_items(*doc, nums, d, k + 1, st1, (fuel - 1) as nat)));
                }
                k += 1;
            }
            proof {
                assert(tab@.dict.len() == n);
                assert(doc.table_view(t) == Some(tab@));
            }
            if !good {
                proof {
                    lemma_gen_items_none_grows(*doc, nums, d, (k + 1) as int, n as int, st1, (fuel - 1) as nat);
                }
                return false;
            }
            xml_end(w);
            proof {
                let body = calls_of(gen_items(*doc, nums, d, n as int, st1, (fuel - 1) as nat));
                assert(xml_calls(*w) =~= head_calls + body + seq![end_call()]);
                let st1s = if sh {
                    (old(seen)@.push((t, *old(next))), (*old(next) + 1) as u32)
                } else {
                    (old(seen)@, *old(next))
                };
                assert(st1 == st1s);
                let head = entry_start(xname_view(*name), "table"@) + (if sh {
                    seq![attr_call("_id"@, dec_text(*old(next) as nat))]
                } else {
                    Seq::empty()
                }) + match tab@.meta {
                    Some(m) => seq![attr_call("metatable"@, m)],
                    None => Seq::<XmlCall>::empty(),
                };
                assert(head_calls == before + head);
                assert(seen_id(old(seen)@, t) is None);
                assert(is_shared(*doc, t) == Some(sh));
                assert(xml_calls(*w) =~= before + (head + body + seq![end_call()]));
            }
            true
        },
        _ => {
            write_entry_start(w, name, kind_name(v));
            let txt = scalar_string(f, Ghost(nums), v);
            xml_attr(w, "value", txt.as_str());
            xml_end(w);
            assert(xml_calls(*w) =~= before + (entry_start(xname_view(*name), value_kind_name(v@)) + seq![
                attr_call("value"@, scalar_text(nums, v@)),
                end_call(),
            ]));
            true
        },
    }
}

proof fn lemma_gen_items_none_grows(
    doc: Document,
    nums: spec_fn(u32) -> Seq<char>,
    d: Seq<(ValueView, ValueView)>,
    k: int,
    n: int,
    st: IdState,
    fuel: nat,
)
    requires
        0 <= k <= n,
        gen_items(doc, nums, d, k, st, fuel) is None,
    ensures
        gen_items(doc, nums, d, n, st, fuel) is None,
    decreases n - k,
{
    if k < n {
        lemma_gen_items_none_grows(doc, nums, d, k + 1, n, st, fuel);
    }
}

/// Writes a script document as generic XML, showing numbers by
/// `number_text`: the root and the tables it reaches, each entry named by
/// its index or key. `None` where a table has a key that is neither a
/// string nor a nonnegative integral number, a table the document does not
/// hold is referred to, or the tables refer to each other in a cycle.
pub fn dump<F: Fn(u32) -> String>(doc: &Document, number_text: &F) -> (r: Option<String>)
    requires
        doc.wf(),
        formats_numbers(*number_text),
    ensures
        r matches Some(s) ==> spec_dump(*doc, number_texts(*number_text)) == Some(s@),
        r is None ==> spec_dump(*doc, number_texts(*number_text)) is None,
{
    let ghost nums = number_texts(*number_text);
    match doc.root() {
        None => Some(String::from_str("<generic_scriptdata type=\"nil\"/>")),
        Some(root) => {
            let mut w = xml_new();
            let mut seen: Vec<(u32, u32)> = Vec::new();
            let mut next: u32 = 0;
            let fuel = doc.table_count() as u128 + 1;
            assert(seen@ =~= Seq::<(u32, u32)>::empty());
            if write_item(doc, number_text, Ghost(nums), &mut w, &XName::Root, &root, &mut seen, &mut next, fuel) {
                assert(xml_calls(w) =~= calls_of(gen_item(*doc, nums, NameView::Root, root@, (Seq::empty(), 0u32), walk_fuel(*doc))));
                Some(xml_finish(w))
            } else {
                None
            }
        },
    }
}

} // verus!
