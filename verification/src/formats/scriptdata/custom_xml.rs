//! Writing script data as custom XML. A scalar at the root or in the
//! array-like part of a table is a `value_node` element whose `value` is the
//! scalar's text; a table is an element named by its metatable, else by the
//! key it stands under, else `table`. A table's element holds first its
//! string-keyed scalars as attributes, then its array-like part (the values
//! under the keys 1, 2, 3 ... for as long as they go on) as child elements,
//! then its string-keyed tables that the array-like part did not already
//! give under their name. A table that the root reaches along more than one
//! path gets an `_id` where it is first written and is an `_ref` to that id
//! where it is met again.
//!
//! Numbers are shown as the caller's number formatter shows the `f32` whose
//! bits they are; the formatter must give one text per number.
use vstd::prelude::*;
use super::document::{copy_value, DocValue, Document, TableView, ValueView};
use super::generic_xml::{
    append, calls_of, dec_string, find_seen, formats_numbers, is_shared, number_string, number_texts, pair_views_hold,
    seen_id, shared, walk_fuel, IdState,
};
use crate::formats::fdm::meshoid::dec_text;
use crate::formats::xml_writer::{
    attr_call, attributes_open, end_call, start_call, xml_attr, xml_calls, xml_document_text, xml_end,
    xml_finish, xml_new, xml_start, XmlCall,
};
use crate::hashindex::{hex16_string, spec_hex16};
use crate::text::{push_char, same_text};
use vstd::string::StringExecFns;

verus! {

/// The whole number that the bits `b` show exactly, if they show one.
pub open spec fn exact_int(b: u32) -> Option<nat> {
    let e = (b >> 23u32) & 0xffu32;
    let m = b & 0x7fffffu32;
    let neg = (b >> 31u32) == 1u32;
    if e == 0xffu32 {
        None
    } else if e == 0 {
        if m != 0 {
            None
        } else {
            Some(0)
        }
    } else if neg || e < 127 {
        None
    } else if e >= 150 {
        Some((((m | 0x800000u32) as u128) << ((e - 150) as u128)) as nat)
    } else {
        let sh = (150 - e) as u32;
        if m & (((1u32 << sh) - 1) as u32) != 0 {
            None
        } else {
            Some(((m | 0x800000u32) >> sh) as nat)
        }
    }
}

/// The value under the first key from entry `j` on that is the number `i`.
pub open spec fn find_int(d: Seq<(ValueView, ValueView)>, i: nat, j: int) -> Option<ValueView>
    decreases d.len() - j,
{
    if j < 0 || j >= d.len() {
        None
    } else if d[j].0 matches ValueView::Number(b) && exact_int(b) == Some(i) {
        Some(d[j].1)
    } else {
        find_int(d, i, j + 1)
    }
}

/// The array-like part from key `i` on, at most `left` values: the values
/// under `i`, `i + 1`, ... for as long as each is there.
pub open spec fn ipairs_from(d: Seq<(ValueView, ValueView)>, i: nat, left: nat) -> Seq<ValueView>
    decreases left,
{
    if left == 0 {
        Seq::empty()
    } else {
        match find_int(d, i, 0) {
            None => Seq::empty(),
            Some(v) => seq![v] + ipairs_from(d, i + 1, (left - 1) as nat),
        }
    }
}

/// The array-like part of a table's entries.
pub open spec fn ipairs(d: Seq<(ValueView, ValueView)>) -> Seq<ValueView> {
    ipairs_from(d, 1, d.len())
}

/// The text of a scalar: `true` or `false`, `@ID`, the hash in sixteen hex
/// digits and `@`, a number's text, the string, or the components' texts
/// separated by spaces.
pub open spec fn custom_scalar(nums: spec_fn(u32) -> Seq<char>, v: ValueView) -> Seq<char> {
    match v {
        ValueView::Bool(b) => if b {
            "true"@
        } else {
            "false"@
        },
        ValueView::Number(n) => nums(n),
        ValueView::IdString(h) => seq!['@', 'I', 'D'] + spec_hex16(h) + seq!['@'],
        ValueView::String(s) => s,
        ValueView::Vector(x, y, z) => nums(x) + seq![' '] + nums(y) + seq![' '] + nums(z),
        ValueView::Quaternion(x, y, z, w) => nums(x) + seq![' '] + nums(y) + seq![' '] + nums(z) + seq![' ']
            + nums(w),
        ValueView::Table(_) => Seq::empty(),
    }
}

/// The attributes for the first `n` entries: each string-keyed scalar.
pub open spec fn custom_attrs(nums: spec_fn(u32) -> Seq<char>, d: Seq<(ValueView, ValueView)>, n: int) -> Seq<XmlCall>
    decreases if n > 0 { n } else { 0 },
{
    if n <= 0 {
        Seq::empty()
    } else {
        custom_attrs(nums, d, n - 1) + match (d[n - 1].0, d[n - 1].1) {
            (ValueView::String(k), ValueView::Table(_)) => Seq::empty(),
            (ValueView::String(k), v) => seq![attr_call(k, custom_scalar(nums, v))],
            _ => Seq::empty(),
        }
    }
}

/// The name a table gives its element: its metatable, else `name`, else
/// `table`.
pub open spec fn element_name(tv: TableView, name: Option<Seq<char>>) -> Seq<char> {
    match tv.meta {
        Some(m) => m,
        None => match name {
            Some(k) => k,
            None => "table"@,
        },
    }
}

/// The calls that write value `v` as an element from state `st`, and the
/// state after.
pub open spec fn custom_item(
    doc: Document,
    nums: spec_fn(u32) -> Seq<char>,
    v: ValueView,
    st: IdState,
    fuel: nat,
) -> Option<(Seq<XmlCall>, IdState)>
    decreases fuel, 2nat, 0nat,
{
    match v {
        ValueView::Table(t) => custom_table(doc, nums, None, t, st, fuel),
        _ => Some(
            (seq![start_call("value_node"@), attr_call("value"@, custom_scalar(nums, v)), end_call()], st),
        ),
    }
}

/// The calls that write table `t` as an element named as `element_name`
/// says, from state `st`, and the state after.
pub open spec fn custom_table(
    doc: Document,
    nums: spec_fn(u32) -> Seq<char>,
    name: Option<Seq<char>>,
    t: u32,
    st: IdState,
    fuel: nat,
) -> Option<(Seq<XmlCall>, IdState)>
    decreases fuel, 1nat, 0nat,
{
    match (doc.table_view(t), is_shared(doc, t)) {
        (Some(tv), Some(sh)) => {
            let el = element_name(tv, name);
            if sh && seen_id(st.0, t) is Some {
                Some(
                    (
                        seq![start_call(el), attr_call("_ref"@, dec_text(seen_id(st.0, t)->0 as nat)), end_call()],
                        st,
                    ),
                )
            } else if sh && st.1 == u32::MAX {
                None
            } else if fuel == 0 {
                None
            } else {
                let head = if sh {
                    seq![start_call(el), attr_call("_id"@, dec_text(st.1 as nat))]
                } else {
                    seq![start_call(el)]
                };
                let st1 = if sh {
                    (st.0.push((t, st.1)), (st.1 + 1) as u32)
                } else {
                    st
                };
                match custom_contents(doc, nums, tv.dict, st1, (fuel - 1) as nat) {
                    Some((body, st2)) => Some((head + body + seq![end_call()], st2)),
                    None => None,
                }
            }
        },
        _ => None,
    }
}

/// The calls that write a table's entries `d`: the attributes, the
/// array-like part, then the string-keyed tables not given yet.
pub open spec fn custom_contents(
    doc: Document,
    nums: spec_fn(u32) -> Seq<char>,
    d: Seq<(ValueView, ValueView)>,
    st: IdState,
    fuel: nat,
) -> Option<(Seq<XmlCall>, IdState)>
    decreases fuel, 4nat, 0nat,
{
    let vals = ipairs(d);
    match custom_array(doc, nums, vals, vals.len() as int, st, fuel) {
        None => None,
        Some((c2, st2, keys)) => match custom_named(doc, nums, d, d.len() as int, st2, keys, fuel) {
            None => None,
            Some((c3, st3, _)) => Some((custom_attrs(nums, d, d.len() as int) + c2 + c3, st3)),
        },
    }
}

/// The metatable of the table `v` is, if it is a table that has one.
pub open spec fn meta_of(doc: Document, v: ValueView) -> Option<Seq<char>> {
    match v {
        ValueView::Table(t) => match doc.table_view(t) {
            Some(tv) => tv.meta,
            None => None,
        },
        _ => None,
    }
}

/// The calls that write the first `n` values of the array-like part, the
/// state after, and the metatables of the tables among them.
pub open spec fn custom_array(
    doc: Document,
    nums: spec_fn(u32) -> Seq<char>,
    vals: Seq<ValueView>,
    n: int,
    st: IdState,
    fuel: nat,
) -> Option<(Seq<XmlCall>, IdState, Seq<Seq<char>>)>
    decreases fuel, 3nat, if n > 0 { n as nat } else { 0nat },
{
    if n <= 0 {
        Some((Seq::empty(), st, Seq::empty()))
    } else {
        match custom_array(doc, nums, vals, n - 1, st, fuel) {
            None => None,
            Some((c, st1, keys)) => match custom_item(doc, nums, vals[n - 1], st1, fuel) {
                None => None,
                Some((c2, st2)) => Some(
                    (
                        c + c2,
                        st2,
                        match meta_of(doc, vals[n - 1]) {
                            Some(m) => keys.push(m),
                            None => keys,
                        },
                    ),
                ),
            },
        }
    }
}

/// The calls that write the string-keyed tables among the first `n`
/// entries whose key is not among `keys` yet (each adds its metatable, or
/// else its key), from state `st`.
pub open spec fn custom_named(
    doc: Document,
    nums: spec_fn(u32) -> Seq<char>,
    d: Seq<(ValueView, ValueView)>,
    n: int,
    st: IdState,
    keys: Seq<Seq<char>>,
    fuel: nat,
) -> Option<(Seq<XmlCall>, IdState, Seq<Seq<char>>)>
    decreases fuel, 3nat, if n > 0 { n as nat } else { 0nat },
{
    if n <= 0 {
        Some((Seq::empty(), st, keys))
    } else {
        match custom_named(doc, nums, d, n - 1, st, keys, fuel) {
            None => None,
            Some((c, st1, keys1)) => match (d[n - 1].0, d[n - 1].1) {
                (ValueView::String(k), ValueView::Table(tb)) => if keys1.contains(k) {
                    Some((c, st1, keys1))
                } else {
                    match custom_table(doc, nums, Some(k), tb, st1, fuel) {
                        None => None,
                        Some((c2, st2)) => Some(
                            (
                                c + c2,
                                st2,
                                keys1.push(
                                    match meta_of(doc, ValueView::Table(tb)) {
                                        Some(m) => m,
                                        None => k,
                                    },
                                ),
                            ),
                        ),
                    }
                },
                _ => Some((c, st1, keys1)),
            },
        }
    }
}

/// What `dump` gives: the text for a document without root, the document
/// text of the calls that write the root, or `None` where writing fails.
pub open spec fn spec_custom_dump(doc: Document, nums: spec_fn(u32) -> Seq<char>) -> Option<Seq<char>> {
    match doc.root_view() {
        None => Some("<value_node value=\"nil\"/>\n"@),
        Some(r) => match custom_item(doc, nums, r, (Seq::empty(), 1u32), walk_fuel(doc)) {
            Some((calls, _)) => Some(xml_document_text(calls)),
            None => None,
        },
    }
}

/// A document whose root is a vector or a quaternion is one `value_node`
/// element whose value is the components' texts in the order x, y, z (and
/// w), separated by spaces.
pub proof fn lemma_custom_vector_roots(doc: Document, nums: spec_fn(u32) -> Seq<char>)
    ensures
        doc.root_view() matches Some(ValueView::Vector(x, y, z)) ==> spec_custom_dump(doc, nums) == Some(
            xml_document_text(
                seq![
                    start_call("value_node"@),
                    attr_call("value"@, (nums(x) + seq![' ']) + (nums(y) + seq![' ']) + nums(z)),
                    end_call(),
                ],
            ),
        ),
        doc.root_view() matches Some(ValueView::Quaternion(x, y, z, w)) ==> spec_custom_dump(doc, nums) == Some(
            xml_document_text(
                seq![
                    start_call("value_node"@),
                    attr_call(
                        "value"@,
                        (nums(x) + seq![' ']) + (nums(y) + seq![' ']) + (nums(z) + seq![' ']) + nums(w),
                    ),
                    end_call(),
                ],
            ),
        ),
{
    match doc.root_view() {
        Some(ValueView::Vector(x, y, z)) => {
            assert(custom_scalar(nums, ValueView::Vector(x, y, z)) =~= (nums(x) + seq![' ']) + (nums(y) + seq![' '])
                + nums(z));
        },
        Some(ValueView::Quaternion(x, y, z, w)) => {
            assert(custom_scalar(nums, ValueView::Quaternion(x, y, z, w)) =~= (nums(x) + seq![' ']) + (nums(y)
                + seq![' ']) + (nums(z) + seq![' ']) + nums(w));
        },
        _ => {},
    }
}

fn exact_int_of(b: u32) -> (r: Option<u128>)
    ensures
        r matches Some(i) ==> exact_int(b) == Some(i as nat),
        r is None ==> exact_int(b) is None,
{
    let e = (b >> 23u32) & 0xffu32;
    let m = b & 0x7fffffu32;
    let neg = (b >> 31u32) == 1u32;
    if e == 0xffu32 {
        None
    } else if e == 0 {
        if m != 0 {
            None
        } else {
            Some(0)
        }
    } else if neg || e < 127 {
        None
    } else if e >= 150 {
        assert(e <= 0xffu32) by (bit_vector)
            requires
                e == (b >> 23u32) & 0xffu32,
        ;
        assert(((m | 0x800000u32) as u128) < 0x1000000u128) by (bit_vector)
            requires
                m == b & 0x7fffffu32,
        ;
        let base: u128 = (m | 0x800000u32) as u128;
        let sh: u128 = (e - 150) as u128;
        assert(base << sh <= u128::MAX);
        Some(base << sh)
    } else {
        let sh: u32 = 150 - e;
        assert((1u32 << sh) >= 1u32) by (bit_vector)
            requires
                1 <= sh <= 23,
        ;
        let mask: u32 = (1u32 << sh) - 1;
        if m & mask != 0 {
            None
        } else {
            Some(((m | 0x800000u32) >> sh) as u128)
        }
    }
}

/// The value under the first key that is the number `i`.
fn find_int_value(items: &Vec<(DocValue, DocValue)>, Ghost(d): Ghost<Seq<(ValueView, ValueView)>>, i: u128) -> (r: Option<DocValue>)
    requires
        pair_views_hold(items@, d),
    ensures
        r matches Some(v) ==> find_int(d, i as nat, 0) == Some(v@),
        r is None ==> find_int(d, i as nat, 0) is None,
{
    let n = items.len();
    let mut j: usize = 0;
    while j < n
        invariant
            n == items@.len(),
            pair_views_hold(items@, d),
            j <= n,
            find_int(d, i as nat, 0) == find_int(d, i as nat, j as int),
        decreases n - j,
    {
        proof {
            assert(items@[j as int].0@ == d[j as int].0);
            assert(items@[j as int].1@ == d[j as int].1);
        }
        if let DocValue::Number(b) = &items[j].0 {
            if let Some(x) = exact_int_of(*b) {
                if x == i {
                    return Some(copy_value(&items[j].1));
                }
            }
        }
        j += 1;
    }
    None
}

/// The views of values.
pub open spec fn value_views(s: Seq<DocValue>) -> Seq<ValueView> {
    Seq::new(s.len(), |k: int| s[k]@)
}

/// The array-like part of a table's entries.
fn ipairs_exec(items: &Vec<(DocValue, DocValue)>, Ghost(d): Ghost<Seq<(ValueView, ValueView)>>) -> (r: Vec<DocValue>)
    requires
        pair_views_hold(items@, d),
    ensures
        value_views(r@) == ipairs(d),
{
    let n = items.len();
    let mut out: Vec<DocValue> = Vec::new();
    let mut i: u128 = 1;
    while i <= n as u128
        invariant
            n == items@.len(),
            n == d.len(),
            pair_views_hold(items@, d),
            1 <= i <= n + 1,
            out@.len() == i - 1,
            value_views(out@) + ipairs_from(d, i as nat, (n + 1 - i) as nat) == ipairs(d),
        decreases n + 1 - i,
    {
        match find_int_value(items, Ghost(d), i) {
            None => {
                proof {
                    assert(ipairs_from(d, i as nat, (n + 1 - i) as nat) =~= Seq::<ValueView>::empty());
                    assert(value_views(out@) =~= ipairs(d));
                }
                return out;
            },
            Some(v) => {
                let ghost before = value_views(out@);
                out.push(v);
                proof {
                    assert(value_views(out@) =~= before.push(v@));
                    assert(ipairs_from(d, i as nat, (n + 1 - i) as nat) =~= seq![v@] + ipairs_from(
                        d,
                        (i + 1) as nat,
                        (n - i) as nat,
                    ));
                    assert(value_views(out@) + ipairs_from(d, (i + 1) as nat, (n - i) as nat) =~= before + (seq![v@]
                        + ipairs_from(d, (i + 1) as nat, (n - i) as nat)));
                }
                i += 1;
            },
        }
    }
    proof {
        assert(ipairs_from(d, i as nat, 0) =~= Seq::<ValueView>::empty());
        assert(value_views(out@) =~= ipairs(d));
    }
    out
}

/// The text of a scalar.
fn custom_scalar_string<F: Fn(u32) -> String>(f: &F, Ghost(nums): Ghost<spec_fn(u32) -> Seq<char>>, v: &DocValue) -> (r: String)
    requires
        formats_numbers(*f),
        nums == number_texts(*f),
    ensures
        r@ == custom_scalar(nums, v@),
{
    match v {
        DocValue::Bool(b) => if *b {
            String::from_str("true")
        } else {
            String::from_str("false")
        },
        DocValue::Number(n) => number_string(f, Ghost(nums), *n),
        DocValue::IdString(h) => {
            let mut out = String::new();
            push_char(&mut out, '@');
            push_char(&mut out, 'I');
            push_char(&mut out, 'D');
            append(&mut out, hex16_string(*h).as_str());
            push_char(&mut out, '@');
            assert(out@ =~= seq!['@', 'I', 'D'] + spec_hex16(*h) + seq!['@']);
            out
        },
        DocValue::String(s) => String::from_str(s.as_str()),
        DocValue::Vector(vec) => {
            let mut out = number_string(f, Ghost(nums), vec.x);
            push_char(&mut out, ' ');
            append(&mut out, number_string(f, Ghost(nums), vec.y).as_str());
            push_char(&mut out, ' ');
            append(&mut out, number_string(f, Ghost(nums), vec.z).as_str());
            out
        },
        DocValue::Quaternion(q) => {
            let mut out = number_string(f, Ghost(nums), q.x);
            push_char(&mut out, ' ');
            append(&mut out, number_string(f, Ghost(nums), q.y).as_str());
            push_char(&mut out, ' ');
            append(&mut out, number_string(f, Ghost(nums), q.z).as_str());
            push_char(&mut out, ' ');
            append(&mut out, number_string(f, Ghost(nums), q.w).as_str());
            out
        },
        DocValue::Table(_) => String::new(),
    }
}

/// Whether the calls went from `before` to `after` and the state is `st`,
/// as result `o` says.
pub open spec fn wrote(o: Option<(Seq<XmlCall>, IdState)>, before: Seq<XmlCall>, after: Seq<XmlCall>, st: IdState) -> bool {
    match o {
        Some((ev, st2)) => after == before + ev && st == st2,
        None => false,
    }
}

/// Whether the calls went from `before` to `after`, the state is `st` and
/// the keys are `keys`, as result `o` says.
pub open spec fn wrote_keys(
    o: Option<(Seq<XmlCall>, IdState, Seq<Seq<char>>)>,
    before: Seq<XmlCall>,
    after: Seq<XmlCall>,
    st: IdState,
    keys: Seq<Seq<char>>,
) -> bool {
    match o {
        Some((ev, st2, k2)) => after == before + ev && st == st2 && keys == k2,
        None => false,
    }
}

/// The texts of keys.
pub open spec fn key_views(s: Seq<String>) -> Seq<Seq<char>> {
    Seq::new(s.len(), |k: int| s[k]@)
}

fn holds_key(keys: &Vec<String>, k: &str) -> (r: bool)
    ensures
        r == key_views(keys@).contains(k@),
{
    let n = keys.len();
    let mut j: usize = 0;
    while j < n
        invariant
            n == keys@.len(),
            j <= n,
            forall|q: int| 0 <= q < j ==> keys@[q]@ != k@,
        decreases n - j,
    {
        if same_text(keys[j].as_str(), k) {
            assert(key_views(keys@)[j as int] == k@);
            return true;
        }
        j += 1;
    }
    proof {
        if key_views(keys@).contains(k@) {
            let q = choose|q: int| 0 <= q < key_views(keys@).len() && key_views(keys@)[q] == k@;
            assert(keys@[q]@ == k@);
        }
    }
    false
}

fn push_key(keys: &mut Vec<String>, k: String)
    ensures
        key_views(final(keys)@) == key_views(old(keys)@).push(k@),
{
    keys.push(k);
    assert(key_views(keys@) =~= key_views(old(keys)@).push(k@));
}

/// The metatable of the table `v` is, if any.
fn meta_of_exec(doc: &Document, v: &DocValue) -> (r: Option<String>)
    requires
        doc.wf(),
    ensures
        r matches Some(m) ==> meta_of(*doc, v@) == Some(m@),
        r is None ==> meta_of(*doc, v@) is None,
{
    match v {
        DocValue::Table(t) => match doc.table(*t) {
            Some(tb) => tb.get_metatable(),
            None => None,
        },
        _ => None,
    }
}

/// Writes value `v` as an element, as `custom_item` says.
fn write_value<F: Fn(u32) -> String>(
    doc: &Document,
    f: &F,
    Ghost(nums): Ghost<spec_fn(u32) -> Seq<char>>,
    w: &mut xmlwriter::XmlWriter,
    v: &DocValue,
    seen: &mut Vec<(u32, u32)>,
    next: &mut u32,
    fuel: u128,
) -> (ok: bool)
    requires
        doc.wf(),
        formats_numbers(*f),
        nums == number_texts(*f),
    ensures
        ok == custom_item(*doc, nums, v@, (old(seen)@, *old(next)), fuel as nat) is Some,
        ok ==> wrote(
            custom_item(*doc, nums, v@, (old(seen)@, *old(next)), fuel as nat),
            xml_calls(*old(w)),
            xml_calls(*final(w)),
            (final(seen)@, *final(next)),
        ),
    decreases fuel, 2nat,
{
    match v {
        DocValue::Table(t) => write_table(doc, f, Ghost(nums), w, None, *t, seen, next, fuel),
        _ => {
            let ghost before = xml_calls(*w);
            xml_start(w, "value_node");
            let txt = custom_scalar_string(f, Ghost(nums), v);
            xml_attr(w, "value", txt.as_str());
            xml_end(w);
            assert(xml_calls(*w) =~= before + seq![
                start_call("value_node"@),
                attr_call("value"@, custom_scalar(nums, v@)),
                end_call(),
            ]);
            true
        },
    }
}

/// The name as mathematics sees it.
pub open spec fn name_view(n: Option<&str>) -> Option<Seq<char>> {
    match n {
        Some(k) => Some(k@),
        None => None,
    }
}

/// Writes table `t` as an element, as `custom_table` says.
fn write_table<F: Fn(u32) -> String>(
    doc: &Document,
    f: &F,
    Ghost(nums): Ghost<spec_fn(u32) -> Seq<char>>,
    w: &mut xmlwriter::XmlWriter,
    name: Option<&str>,
    t: u32,
    seen: &mut Vec<(u32, u32)>,
    next: &mut u32,
    fuel: u128,
) -> (ok: bool)
    requires
        doc.wf(),
        formats_numbers(*f),
        nums == number_texts(*f),
    ensures
        ok == custom_table(*doc, nums, name_view(name), t, (old(seen)@, *old(next)), fuel as nat) is Some,
        ok ==> wrote(
            custom_table(*doc, nums, name_view(name), t, (old(seen)@, *old(next)), fuel as nat),
            xml_calls(*old(w)),
            xml_calls(*final(w)),
            (final(seen)@, *final(next)),
        ),
    decreases fuel, 1nat,
{
    let ghost before = xml_calls(*w);
    let tab = match doc.table(t) {
        None => return false,
        Some(tab) => tab,
    };
    let sh = match shared(doc, t) {
        None => return false,
        Some(sh) => sh,
    };
    let el = match tab.get_metatable() {
        Some(m) => m,
        None => match name {
            Some(k) => String::from_str(k),
            None => String::from_str("table"),
        },
    };
    assert(el@ == element_name(tab@, name_view(name)));
    if sh {
        if let Some(id) = find_seen(seen, t) {
            xml_start(w, el.as_str());
            let idt = dec_string(id as u128);
            xml_attr(w, "_ref", idt.as_str());
            xml_end(w);
            assert(xml_calls(*w) =~= before + seq![start_call(el@), attr_call("_ref"@, dec_text(id as nat)), end_call()]);
            return true;
        }
        if *next == u32::MAX {
            return false;
        }
    }
    if fuel == 0 {
        return false;
    }
    xml_start(w, el.as_str());
    if sh {
        let idt = dec_string(*next as u128);
        xml_attr(w, "_id", idt.as_str());
        seen.push((t, *next));
        *next = *next + 1;
    }
    let ghost head_calls = xml_calls(*w);
    proof {
        let head = if sh {
            seq![start_call(el@), attr_call("_id"@, dec_text(*old(next) as nat))]
        } else {
            seq![start_call(el@)]
        };
        assert(head_calls =~= before + head);
    }
    let items = tab.items();
    proof {
        assert(pair_views_hold(items@, tab@.dict));
    }
    if !write_contents(doc, f, Ghost(nums), w, &items, Ghost(tab@.dict), seen, next, fuel - 1) {
        return false;
    }
    let ghost body_calls = xml_calls(*w);
    xml_end(w);
    proof {
        let st1s = if sh {
            (old(seen)@.push((t, *old(next))), (*old(next) + 1) as u32)
        } else {
            (old(seen)@, *old(next))
        };
        let body = calls_of(custom_contents(*doc, nums, tab@.dict, st1s, (fuel - 1) as nat));
        assert(xml_calls(*w) =~= head_calls + body + seq![end_call()]);
        let head = if sh {
            seq![start_call(el@), attr_call("_id"@, dec_text(*old(next) as nat))]
        } else {
            seq![start_call(el@)]
        };
        assert(xml_calls(*w) =~= before + (head + body + seq![end_call()]));
    }
    true
}

/// Writes a table's entries, as `custom_contents` says.
fn write_contents<F: Fn(u32) -> String>(
    doc: &Document,
    f: &F,
    Ghost(nums): Ghost<spec_fn(u32) -> Seq<char>>,
    w: &mut xmlwriter::XmlWriter,
    items: &Vec<(DocValue, DocValue)>,
    Ghost(d): Ghost<Seq<(ValueView, ValueView)>>,
    seen: &mut Vec<(u32, u32)>,
    next: &mut u32,
    fuel: u128,
) -> (ok: bool)
    requires
        doc.wf(),
        formats_numbers(*f),
        nums == number_texts(*f),
        pair_views_hold(items@, d),
        attributes_open(xml_calls(*old(w))),
    ensures
        ok == custom_contents(*doc, nums, d, (old(seen)@, *old(next)), fuel as nat) is Some,
        ok ==> wrote(
            custom_contents(*doc, nums, d, (old(seen)@, *old(next)), fuel as nat),
            xml_calls(*old(w)),
            xml_calls(*final(w)),
            (final(seen)@, *final(next)),
        ),
    decreases fuel, 4nat,
{
    let ghost base = xml_calls(*w);
    let ghost st0 = (seen@, *next);
    let n = items.len();
    let mut j: usize = 0;
    while j < n
        invariant
            n == items@.len(),
            pair_views_hold(items@, d),
            formats_numbers(*f),
            nums == number_texts(*f),
            j <= n,
            xml_calls(*w) == base + custom_attrs(nums, d, j as int),
            attributes_open(xml_calls(*w)),
        decreases n - j,
    {
        proof {
            assert(items@[j as int].0@ == d[j as int].0);
            assert(items@[j as int].1@ == d[j as int].1);
        }
        let ghost pre = xml_calls(*w);
        match (&items[j].0, &items[j].1) {
            (DocValue::String(_), DocValue::Table(_)) => {},
            (DocValue::String(k), v) => {
                let txt = custom_scalar_string(f, Ghost(nums), v);
                xml_attr(w, k.as_str(), txt.as_str());
            },
            _ => {},
        }
        assert(xml_calls(*w) =~= base + custom_attrs(nums, d, j + 1));
        j += 1;
    }
    let ghost attrs_calls = xml_calls(*w);
    let vals = ipairs_exec(items, Ghost(d));
    let ghost vv = ipairs(d);
    let nv = vals.len();
    let mut keys: Vec<String> = Vec::new();
    let mut k: usize = 0;
    let mut good = true;
    assert(key_views(keys@) =~= Seq::<Seq<char>>::empty());
    while k < nv && good
        invariant
            doc.wf(),
            formats_numbers(*f),
            nums == number_texts(*f),
            nv == vals@.len(),
            value_views(vals@) == vv,
            k <= nv,
            good ==> wrote_keys(custom_array(*doc, nums, vv, k as int, st0, fuel as nat), attrs_calls, xml_calls(*w), (seen@, *next), key_views(keys@)),
            !good ==> k < nv && custom_array(*doc, nums, vv, k + 1, st0, fuel as nat) is None,
        decreases nv - k, if good { 1int } else { 0int },
    {
        assert(vals@[k as int]@ == vv[k as int]);
        if !write_value(doc, f, Ghost(nums), w, &vals[k], seen, next, fuel) {
            good = false;
            continue;
        }
        match meta_of_exec(doc, &vals[k]) {
            Some(m) => push_key(&mut keys, m),
            None => {},
        }
        proof {
            assert(xml_calls(*w) =~= attrs_calls + calls_of_keys(custom_array(*doc, nums, vv, k + 1, st0, fuel as nat)));
        }
        k += 1;
    }
    if !good {
        proof {
            lemma_array_none_grows(*doc, nums, vv, (k + 1) as int, nv as int, st0, fuel as nat);
        }
        return false;
    }
    let ghost array_calls = xml_calls(*w);
    let ghost st2 = (seen@, *next);
    let ghost keys2 = key_views(keys@);
    let mut j: usize = 0;
    let mut good = true;
    while j < n && good
        invariant
            doc.wf(),
            formats_numbers(*f),
            nums == number_texts(*f),
            n == items@.len(),
            pair_views_hold(items@, d),
            j <= n,
            good ==> wrote_keys(custom_named(*doc, nums, d, j as int, st2, keys2, fuel as nat), array_calls, xml_calls(*w), (seen@, *next), key_views(keys@)),
            !good ==> j < n && custom_named(*doc, nums, d, j + 1, st2, keys2, fuel as nat) is None,
        decreases n - j, if good { 1int } else { 0int },
    {
        proof {
            assert(items@[j as int].0@ == d[j as int].0);
            assert(items@[j as int].1@ == d[j as int].1);
        }
        match (&items[j].0, &items[j].1) {
            (DocValue::String(key), DocValue::Table(tb)) => {
                if !holds_key(&keys, key.as_str()) {
                    if !write_table(doc, f, Ghost(nums), w, Some(key.as_str()), *tb, seen, next, fuel) {
                        good = false;
                        continue;
                    }
                    let given = match meta_of_exec(doc, &items[j].1) {
                        Some(m) => m,
                        None => String::from_str(key.as_str()),
                    };
                    push_key(&mut keys, given);
                }
            },
            _ => {},
        }
        proof {
            assert(xml_calls(*w) =~= array_calls + calls_of_keys(custom_named(*doc, nums, d, j + 1, st2, keys2, fuel as nat)));
        }
        j += 1;
    }
    if !good {
        proof {
            lemma_named_none_grows(*doc, nums, d, (j + 1) as int, n as int, st2, keys2, fuel as nat);
        }
        return false;
    }
    proof {
        assert(vv.len() == nv);
        assert(d.len() == n);
        let c2 = calls_of_keys(custom_array(*doc, nums, vv, nv as int, st0, fuel as nat));
        let c3 = calls_of_keys(custom_named(*doc, nums, d, n as int, st2, keys2, fuel as nat));
        assert(xml_calls(*w) =~= base + (custom_attrs(nums, d, n as int) + c2 + c3));
    }
    true
}

/// The calls of a result with keys, if any.
pub open spec fn calls_of_keys(o: Option<(Seq<XmlCall>, IdState, Seq<Seq<char>>)>) -> Seq<XmlCall> {
    match o {
        Some((c, _, _)) => c,
        None => Seq::empty(),
    }
}

proof fn lemma_array_none_grows(
    doc: Document,
    nums: spec_fn(u32) -> Seq<char>,
    vals: Seq<ValueView>,
    k: int,
    n: int,
    st: IdState,
    fuel: nat,
)
    requires
        0 <= k <= n,
        custom_array(doc, nums, vals, k, st, fuel) is None,
    ensures
        custom_array(doc, nums, vals, n, st, fuel) is None,
    decreases n - k,
{
    if k < n {
        lemma_array_none_grows(doc, nums, vals, k + 1, n, st, fuel);
    }
}

proof fn lemma_named_none_grows(
    doc: Document,
    nums: spec_fn(u32) -> Seq<char>,
    d: Seq<(ValueView, ValueView)>,
    k: int,
    n: int,
    st: IdState,
    keys: Seq<Seq<char>>,
    fuel: nat,
)
    requires
        0 <= k <= n,
        custom_named(doc, nums, d, k, st, keys, fuel) is None,
    ensures
        custom_named(doc, nums, d, n, st, keys, fuel) is None,
    decreases n - k,
{
    if k < n {
        lemma_named_none_grows(doc, nums, d, k + 1, n, st, keys, fuel);
    }
}

/// Writes a script document as custom XML, showing numbers by
/// `number_text`. `None` where a table the document does not hold is
/// referred to, or the tables refer to each other in a cycle.
pub fn dump<F: Fn(u32) -> String>(doc: &Document, number_text: &F) -> (r: Option<String>)
    requires
        doc.wf(),
        formats_numbers(*number_text),
    ensures
        r matches Some(s) ==> spec_custom_dump(*doc, number_texts(*number_text)) == Some(s@),
        r is None ==> spec_custom_dump(*doc, number_texts(*number_text)) is None,
{
    let ghost nums = number_texts(*number_text);
    match doc.root() {
        None => Some(String::from_str("<value_node value=\"nil\"/>\n")),
        Some(root) => {
            let mut w = xml_new();
            let mut seen: Vec<(u32, u32)> = Vec::new();
            let mut next: u32 = 1;
            let fuel = doc.table_count() as u128 + 1;
            assert(seen@ =~= Seq::<(u32, u32)>::empty());
            if write_value(doc, number_text, Ghost(nums), &mut w, &root, &mut seen, &mut next, fuel) {
                assert(xml_calls(w) =~= calls_of(custom_item(*doc, nums, root@, (Seq::empty(), 1u32), walk_fuel(*doc))));
                Some(xml_finish(w))
            } else {
                None
            }
        },
    }
}

} // verus!
