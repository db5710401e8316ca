//! Writing a script document as Lua-like source: `return`, then the root
//! value. A table is written in braces, one `key = value,` line per entry,
//! indented two spaces per level; a key that is a valid identifier stands
//! bare, any other key in brackets. Every table gets the next id where it is
//! first written; one that the root reaches along more than one path is
//! wrapped in `RefId('id', ..)` there, and a table met again is `Ref('id')`.
//!
//! Numbers are shown as the caller's number formatter shows the `f32` whose
//! bits they are; the formatter must give one text per number.
use vstd::prelude::*;
use super::document::{DocValue, Document, ValueView};
use super::generic_xml::{
    append, dec_string, find_seen, formats_numbers, is_shared, number_string, number_texts, pair_views_hold,
    seen_id, shared, walk_fuel, IdState,
};
use super::lua_like::{is_valid_ident, lua_string, spec_is_valid_ident, spec_lua_string};
use crate::formats::fdm::meshoid::dec_text;
use crate::hashindex::{hex16_string, spec_hex16};
use crate::text::push_char;
use vstd::string::StringExecFns;

verus! {

/// Two spaces per level.
pub open spec fn indent(level: nat) -> Seq<char> {
    Seq::new(2 * level, |_i: int| ' ')
}

/// A scalar as Lua-like source.
pub open spec fn lua_scalar(nums: spec_fn(u32) -> Seq<char>, v: ValueView) -> Seq<char> {
    match v {
        ValueView::Bool(b) => if b {
            "true"@
        } else {
            "false"@
        },
        ValueView::Number(n) => nums(n),
        ValueView::IdString(h) => "IdString(0x"@ + spec_hex16(h) + ")"@,
        ValueView::String(s) => spec_lua_string(s),
        ValueView::Vector(x, y, z) => "Vector3("@ + nums(x) + ", "@ + nums(y) + ", "@ + nums(z) + ")"@,
        ValueView::Quaternion(x, y, z, w) => "Quaternion("@ + nums(x) + ", "@ + nums(y) + ", "@ + nums(z) + ", "@
            + nums(w) + ")"@,
        ValueView::Table(_) => Seq::empty(),
    }
}

/// The text of a result, if any.
pub open spec fn text_of(o: Option<(Seq<char>, IdState)>) -> Seq<char> {
    match o {
        Some((c, _)) => c,
        None => Seq::empty(),
    }
}

/// Whether the text went from `before` to `after` and the state is `st`, as
/// result `o` says.
pub open spec fn wrote(o: Option<(Seq<char>, IdState)>, before: Seq<char>, after: Seq<char>, st: IdState) -> bool {
    match o {
        Some((t, st2)) => after == before + t && st == st2,
        None => false,
    }
}

/// The text of value `v` at indentation `level` from state `st`, and the
/// state after; `None` where a table is missing, the walk fails, or the ids
/// run out.
pub open spec fn lua_item(
    doc: Document,
    nums: spec_fn(u32) -> Seq<char>,
    v: ValueView,
    st: IdState,
    level: nat,
    fuel: nat,
) -> Option<(Seq<char>, IdState)>
    decreases fuel, 0nat, 0nat,
{
    match v {
        ValueView::Table(t) => match seen_id(st.0, t) {
            Some(id) => Some(("Ref('"@ + dec_text(id as nat) + "')"@, st)),
            None => if fuel == 0 {
                None
            } else {
                match (doc.table_view(t), is_shared(doc, t)) {
                    (Some(tv), Some(sh)) => if st.1 == u32::MAX {
                        None
                    } else {
                        let st1 = (st.0.push((t, st.1)), (st.1 + 1) as u32);
                        let head = (if sh {
                            "RefId('"@ + dec_text(st.1 as nat) + "', "@
                        } else {
                            Seq::empty()
                        }) + match tv.meta {
                            Some(m) => m + seq![' '],
                            None => Seq::empty(),
                        } + "{"@;
                        let tail = if sh {
                            "})"@
                        } else {
                            "}"@
                        };
                        if tv.dict.len() == 0 {
                            Some((head + seq![' '] + tail, st1))
                        } else {
                            match lua_entries(doc, nums, tv.dict, tv.dict.len() as int, st1, level + 1, (fuel - 1) as nat) {
                                Some((body, st2)) => Some((head + seq!['\n'] + body + indent(level) + tail, st2)),
                                None => None,
                            }
                        }
                    },
                    _ => None,
                }
            },
        },
        _ => Some((lua_scalar(nums, v), st)),
    }
}

/// Whether key `k` stands bare: a string that is a valid identifier.
pub open spec fn bare_key(k: ValueView) -> bool {
    match k {
        ValueView::String(s) => spec_is_valid_ident(s),
        _ => false,
    }
}

/// The text of a string key.
pub open spec fn bare_text(k: ValueView) -> Seq<char> {
    match k {
        ValueView::String(s) => s,
        _ => Seq::empty(),
    }
}

/// The line of entry `kv` at indentation `level`: the key (bare where it
/// is a valid identifier, else in brackets), ` = `, the value, and `,`.
pub open spec fn lua_entry(
    doc: Document,
    nums: spec_fn(u32) -> Seq<char>,
    kv: (ValueView, ValueView),
    st: IdState,
    level: nat,
    fuel: nat,
) -> Option<(Seq<char>, IdState)>
    decreases fuel, 1nat, 0nat,
{
    let key: Option<(Seq<char>, IdState)> = if bare_key(kv.0) {
        Some((bare_text(kv.0), st))
    } else {
        match lua_item(doc, nums, kv.0, st, level, fuel) {
            Some((kt, st2)) => Some((seq!['['] + kt + seq![']'], st2)),
            None => None,
        }
    };
    match key {
        None => None,
        Some((kt, st2)) => match lua_item(doc, nums, kv.1, st2, level, fuel) {
            None => None,
            Some((vt, st3)) => Some((indent(level) + kt + " = "@ + vt + ",\n"@, st3)),
        },
    }
}

/// The lines of the first `n` entries of `d` at indentation `level`.
pub open spec fn lua_entries(
    doc: Document,
    nums: spec_fn(u32) -> Seq<char>,
    d: Seq<(ValueView, ValueView)>,
    n: int,
    st: IdState,
    level: nat,
    fuel: nat,
) -> Option<(Seq<char>, IdState)>
    decreases fuel, 2nat, if n > 0 { n as nat } else { 0nat },
{
    if n <= 0 {
        Some((Seq::empty(), st))
    } else {
        match lua_entries(doc, nums, d, n - 1, st, level, fuel) {
            None => None,
            Some((prev, st1)) => match lua_entry(doc, nums, d[n - 1], st1, level, fuel) {
                None => None,
                Some((line, st2)) => Some((prev + line, st2)),
            },
        }
    }
}

/// What `dump` gives: `return`, the root's text (or `nil` for a document
/// without root) and a line end; `None` where writing fails.
pub open spec fn spec_lua_dump(doc: Document, nums: spec_fn(u32) -> Seq<char>) -> Option<Seq<char>> {
    match doc.root_view() {
        None => Some("return nil\n"@),
        Some(r) => match lua_item(doc, nums, r, (Seq::empty(), 0u32), 0, walk_fuel(doc)) {
            Some((t, _)) => Some("return "@ + t + "\n"@),
            None => None,
        },
    }
}

/// A document whose root is a scalar is written as `return`, the scalar
/// and a line end: a vector as `Vector3(x, y, z)` and a quaternion as
/// `Quaternion(x, y, z, w)`, each component in that order as the formatter
/// shows it; an Idstring as `IdString(0x` and its sixteen hex digits; a
/// number as the formatter shows it; a boolean as `true` or `false`.
pub proof fn lemma_lua_scalar_roots(doc: Document, nums: spec_fn(u32) -> Seq<char>)
    ensures
        doc.root_view() matches Some(ValueView::Vector(x, y, z)) ==> spec_lua_dump(doc, nums) == Some(
            "return "@ + ("Vector3("@ + nums(x) + ", "@ + nums(y)) + (", "@ + nums(z) + ")"@) + "\n"@,
        ),
        doc.root_view() matches Some(ValueView::Quaternion(x, y, z, w)) ==> spec_lua_dump(doc, nums) == Some(
            "return "@ + ("Quaternion("@ + nums(x) + ", "@ + nums(y)) + (", "@ + nums(z) + ", "@ + nums(w) + ")"@)
                + "\n"@,
        ),
        doc.root_view() matches Some(ValueView::IdString(h)) ==> spec_lua_dump(doc, nums) == Some(
            "return "@ + ("IdString(0x"@ + spec_hex16(h) + ")"@) + "\n"@,
        ),
        doc.root_view() matches Some(ValueView::Number(v)) ==> spec_lua_dump(doc, nums) == Some(
            "return "@ + nums(v) + "\n"@,
        ),
        doc.root_view() == Some(ValueView::Bool(true)) ==> spec_lua_dump(doc, nums) == Some("return "@ + "true"@ + "\n"@),
        doc.root_view() == Some(ValueView::Bool(false)) ==> spec_lua_dump(doc, nums) == Some("return "@ + "false"@ + "\n"@),
{
    match doc.root_view() {
        Some(ValueView::Vector(x, y, z)) => {
            assert(lua_scalar(nums, ValueView::Vector(x, y, z)) =~= ("Vector3("@ + nums(x) + ", "@ + nums(y)) + (", "@
                + nums(z) + ")"@));
        },
        Some(ValueView::Quaternion(x, y, z, w)) => {
            assert(lua_scalar(nums, ValueView::Quaternion(x, y, z, w)) =~= ("Quaternion("@ + nums(x) + ", "@ + nums(
                y,
            )) + (", "@ + nums(z) + ", "@ + nums(w) + ")"@));
        },
        _ => {},
    }
}

/// Appends two spaces per level.
fn push_indent(out: &mut String, level: u128)
    ensures
        final(out)@ == old(out)@ + indent(level as nat),
{
    let mut i: u128 = 0;
    while i < level
        invariant
            i <= level,
            out@ == old(out)@ + indent(i as nat),
        decreases level - i,
    {
        push_char(out, ' ');
        push_char(out, ' ');
        i += 1;
        assert(out@ =~= old(out)@ + indent(i as nat));
    }
}

/// Appends a scalar's text.
fn write_scalar<F: Fn(u32) -> String>(f: &F, Ghost(nums): Ghost<spec_fn(u32) -> Seq<char>>, out: &mut String, v: &DocValue)
    requires
        formats_numbers(*f),
        nums == number_texts(*f),
    ensures
        final(out)@ == old(out)@ + lua_scalar(nums, v@),
{
    match v {
        DocValue::Bool(b) => if *b {
            append(out, "true");
        } else {
            append(out, "false");
        },
        DocValue::Number(n) => append(out, number_string(f, Ghost(nums), *n).as_str()),
        DocValue::IdString(h) => {
            append(out, "IdString(0x");
            append(out, hex16_string(*h).as_str());
            append(out, ")");
        },
        DocValue::String(s) => append(out, lua_string(s.as_str()).as_str()),
        DocValue::Vector(vec) => {
            append(out, "Vector3(");
            append(out, number_string(f, Ghost(nums), vec.x).as_str());
            append(out, ", ");
            append(out, number_string(f, Ghost(nums), vec.y).as_str());
            append(out, ", ");
            append(out, number_string(f, Ghost(nums), vec.z).as_str());
            append(out, ")");
        },
        DocValue::Quaternion(q) => {
            append(out, "Quaternion(");
            append(out, number_string(f, Ghost(nums), q.x).as_str());
            append(out, ", ");
            append(out, number_string(f, Ghost(nums), q.y).as_str());
            append(out, ", ");
            append(out, number_string(f, Ghost(nums), q.z).as_str());
            append(out, ", ");
            append(out, number_string(f, Ghost(nums), q.w).as_str());
            append(out, ")");
        },
        DocValue::Table(_) => {},
    }
    assert(out@ =~= old(out)@ + lua_scalar(nums, v@));
}

/// Appends value `v` at indentation `level`, as `lua_item` says; `false`
/// where that gives `None`.
#[verifier::rlimit(80)]
#[verifier::spinoff_prover]
fn write_item<F: Fn(u32) -> String>(
    doc: &Document,
    f: &F,
    Ghost(nums): Ghost<spec_fn(u32) -> Seq<char>>,
    out: &mut String,
    v: &DocValue,
    seen: &mut Vec<(u32, u32)>,
    next: &mut u32,
    level: u128,
    fuel: u128,
) -> (ok: bool)
    requires
        doc.wf(),
        formats_numbers(*f),
        nums == number_texts(*f),
        level as int + fuel <= u128::MAX,
    ensures
        ok == lua_item(*doc, nums, v@, (old(seen)@, *old(next)), level as nat, fuel as nat) is Some,
        ok ==> wrote(
            lua_item(*doc, nums, v@, (old(seen)@, *old(next)), level as nat, fuel as nat),
            old(out)@,
            final(out)@,
            (final(seen)@, *final(next)),
        ),
    decreases fuel, 0int, 0int,
{
    let ghost before = out@;
    match v {
        DocValue::Table(t) => {
            let t = *t;
            if let Some(id) = find_seen(seen, t) {
                append(out, "Ref('");
                append(out, dec_string(id as u128).as_str());
                append(out, "')");
                assert(out@ =~= before + ("Ref('"@ + dec_text(id as nat) + "')"@));
                return true;
            }
            if fuel == 0 {
                return false;
            }
            let tab = match doc.table(t) {
                None => return false,
                Some(tab) => tab,
            };
            let sh = match shared(doc, t) {
                None => return false,
                Some(sh) => sh,
            };
            if *next == u32::MAX {
                return false;
            }
            let id = *next;
            if sh {
                append(out, "RefId('");
                append(out, dec_string(id as u128).as_str());
                append(out, "', ");
            }
            seen.push((t, id));
            *next = id + 1;
            match tab.get_metatable() {
                Some(m) => {
                    append(out, m.as_str());
                    push_char(out, ' ');
                },
                None => {},
            }
            append(out, "{");
            let ghost head_text = out@;
            let ghost st1 = (seen@, *next);
            let ghost tail = if sh {
                "})"@
            } else {
                "}"@
            };
            let ghost head = (if sh {
                "RefId('"@ + dec_text(id as nat) + "', "@
            } else {
                Seq::empty()
            }) + match tab@.meta {
                Some(m) => m + seq![' '],
                None => Seq::<char>::empty(),
            } + "{"@;
            proof {
                assert(head_text =~= before + head);
                assert(st1 == (old(seen)@.push((t, *old(next))), (*old(next) + 1) as u32));
                assert(doc.table_view(t) == Some(tab@));
                assert(seen_id(old(seen)@, t) is None);
                assert(is_shared(*doc, t) == Some(sh));
            }
            let items = tab.items();
            let ghost d = tab@.dict;
            let n = items.len();
            if n == 0 {
                push_char(out, ' ');
                if sh {
                    append(out, "})");
                } else {
                    append(out, "}");
                }
                proof {
                    assert(tab@.dict.len() == 0);
                    assert(out@ =~= head_text + seq![' '] + tail);
                    assert(lua_item(*doc, nums, v@, (old(seen)@, *old(next)), level as nat, fuel as nat) == Some(
                        (head + seq![' '] + tail, st1),
                    ));
                    assert(out@ =~= before + (head + seq![' '] + tail));
                }
                return true;
            }
            push_char(out, '\n');
            let ghost body_start = out@;
            proof {
                assert(tab@.dict.len() == n);
            }
            if !write_entries(doc, f, Ghost(nums), out, &items, Ghost(d), seen, next, level + 1, fuel - 1) {
                return false;
            }
            push_indent(out, level);
            if sh {
                append(out, "})");
            } else {
                append(out, "}");
            }
            proof {
                let body = text_of(lua_entries(*doc, nums, d, n as int, st1, (level + 1) as nat, (fuel - 1) as nat));
                assert(out@ =~= head_text + seq!['\n'] + body + indent(level as nat) + tail);
                assert(out@ =~= before + (head + seq!['\n'] + body + indent(level as nat) + tail));
            }
            true
        },
        _ => {
            write_scalar(f, Ghost(nums), out, v);
            true
        },
    }
}

/// Appends the line of entry `(key, value)`, as `lua_entry` says; `false`
/// where that gives `None`.
fn write_entry<F: Fn(u32) -> String>(
    doc: &Document,
    f: &F,
    Ghost(nums): Ghost<spec_fn(u32) -> Seq<char>>,
    out: &mut String,
    key: &DocValue,
    value: &DocValue,
    seen: &mut Vec<(u32, u32)>,
    next: &mut u32,
    level: u128,
    fuel: u128,
) -> (ok: bool)
    requires
        doc.wf(),
        formats_numbers(*f),
        nums == number_texts(*f),
        level as int + fuel <= u128::MAX,
    ensures
        ok == lua_entry(*doc, nums, (key@, value@), (old(seen)@, *old(next)), level as nat, fuel as nat) is Some,
        ok ==> wrote(
            lua_entry(*doc, nums, (key@, value@), (old(seen)@, *old(next)), level as nat, fuel as nat),
            old(out)@,
            final(out)@,
            (final(seen)@, *final(next)),
        ),
    decreases fuel, 1int, 0int,
{
    let ghost before = out@;
    let ghost st = (seen@, *next);
    push_indent(out, level);
    let ghost ind = out@;
    let bare = match key {
        DocValue::String(s) => is_valid_ident(s.as_str()),
        _ => false,
    };
    if bare {
        match key {
            DocValue::String(s) => append(out, s.as_str()),
            _ => {},
        }
        assert(out@ =~= ind + bare_text(key@));
    } else {
        push_char(out, '[');
        let ghost ks = out@;
        if !write_item(doc, f, Ghost(nums), out, key, seen, next, level, fuel) {
            return false;
        }
        proof {
            let kt = text_of(lua_item(*doc, nums, key@, st, level as nat, fuel as nat));
            assert(out@ == ks + kt);
        }
        push_char(out, ']');
        proof {
            let kt = text_of(lua_item(*doc, nums, key@, st, level as nat, fuel as nat));
            assert(out@ =~= ind + (seq!['['] + kt + seq![']']));
        }
    }
    proof {
        let kr: Option<(Seq<char>, IdState)> = if bare_key(key@) {
            Some((bare_text(key@), st))
        } else {
            match lua_item(*doc, nums, key@, st, level as nat, fuel as nat) {
                Some((kt, st2)) => Some((seq!['['] + kt + seq![']'], st2)),
                None => None,
            }
        };
        assert(bare == bare_key(key@));
        assert(wrote(kr, before + indent(level as nat), out@, (seen@, *next)));
    }
    let ghost mid = out@;
    append(out, " = ");
    if !write_item(doc, f, Ghost(nums), out, value, seen, next, level, fuel) {
        return false;
    }
    append(out, ",\n");
    proof {
        assert(out@ =~= before + text_of(lua_entry(*doc, nums, (key@, value@), st, level as nat, fuel as nat)));
    }
    true
}

/// Appends the lines of the entries `items`, whose views are `d`, as
/// `lua_entries` says; `false` where that gives `None`.
fn write_entries<F: Fn(u32) -> String>(
    doc: &Document,
    f: &F,
    Ghost(nums): Ghost<spec_fn(u32) -> Seq<char>>,
    out: &mut String,
    items: &Vec<(DocValue, DocValue)>,
    Ghost(d): Ghost<Seq<(ValueView, ValueView)>>,
    seen: &mut Vec<(u32, u32)>,
    next: &mut u32,
    level: u128,
    fuel: u128,
) -> (ok: bool)
    requires
        doc.wf(),
        formats_numbers(*f),
        nums == number_texts(*f),
        level as int + fuel <= u128::MAX,
        pair_views_hold(items@, d),
    ensures
        ok == lua_entries(*doc, nums, d, d.len() as int, (old(seen)@, *old(next)), level as nat, fuel as nat) is Some,
        ok ==> wrote(
            lua_entries(*doc, nums, d, d.len() as int, (old(seen)@, *old(next)), level as nat, fuel as nat),
            old(out)@,
            final(out)@,
            (final(seen)@, *final(next)),
        ),
    decreases fuel, 2int, 0int,
{
    let ghost st0 = (seen@, *next);
    let ghost start = out@;
    let n = items.len();
    let mut k: usize = 0;
    let mut good = true;
    while k < n && good
        invariant
            doc.wf(),
            formats_numbers(*f),
            nums == number_texts(*f),
            level as int + fuel <= u128::MAX,
            n == items@.len(),
            d.len() == n,
            pair_views_hold(items@, d),
            k <= n,
            good ==> wrote(lua_entries(*doc, nums, d, k as int, st0, level as nat, fuel as nat), start, out@, (seen@, *next)),
            !good ==> k < n && lua_entries(*doc, nums, d, k + 1, st0, level as nat, fuel as nat) is None,
        decreases n - k, if good { 1int } else { 0int },
    {
        proof {
            assert(items@[k as int].0@ == d[k as int].0);
            assert(items@[k as int].1@ == d[k as int].1);
            assert(d[k as int] == (d[k as int].0, d[k as int].1));
        }
        let ghost pre = out@;
        let ghost stk = (seen@, *next);
        if !write_entry(doc, f, Ghost(nums), out, &items[k].0, &items[k].1, seen, next, level, fuel) {
            good = false;
            continue;
        }
        proof {
            let line = text_of(lua_entry(*doc, nums, d[k as int], stk, level as nat, fuel as nat));
            assert(out@ == pre + line);
            assert(pre == start + text_of(lua_entries(*doc, nums, d, k as int, st0, level as nat, fuel as nat)));
            assert(out@ =~= start + text_of(lua_entries(*doc, nums, d, k + 1, st0, level as nat, fuel as nat)));
        }
        k += 1;
    }
    if !good {
        proof {
            lemma_lua_entries_none_grows(*doc, nums, d, (k + 1) as int, n as int, st0, level as nat, fuel as nat);
        }
        return false;
    }
    true
}

proof fn lemma_lua_entries_none_grows(
    doc: Document,
    nums: spec_fn(u32) -> Seq<char>,
    d: Seq<(ValueView, ValueView)>,
    k: int,
    n: int,
    st: IdState,
    level: nat,
    fuel: nat,
)
    requires
        0 <= k <= n,
        lua_entries(doc, nums, d, k, st, level, fuel) is None,
    ensures
        lua_entries(doc, nums, d, n, st, level, fuel) is None,
    decreases n - k,
{
    if k < n {
        lemma_lua_entries_none_grows(doc, nums, d, k + 1, n, st, level, fuel);
    }
}

/// Writes a script document as Lua-like source, showing numbers by
/// `number_text`. `None` where a table the document does not hold is
/// referred to, the tables refer to each other in a cycle, or there are
/// more tables than ids.
pub fn dump<F: Fn(u32) -> String>(doc: &Document, number_text: &F) -> (r: Option<String>)
    requires
        doc.wf(),
        formats_numbers(*number_text),
    ensures
        r matches Some(s) ==> spec_lua_dump(*doc, number_texts(*number_text)) == Some(s@),
        r is None ==> spec_lua_dump(*doc, number_texts(*number_text)) is None,
{
    let ghost nums = number_texts(*number_text);
    match doc.root() {
        None => Some(String::from_str("return nil\n")),
        Some(root) => {
            let mut out = String::new();
            append(&mut out, "return ");
            let ghost start = out@;
            let mut seen: Vec<(u32, u32)> = Vec::new();
            let mut next: u32 = 0;
            let fuel = doc.table_count() as u128 + 1;
            assert(seen@ =~= Seq::<(u32, u32)>::empty());
            if write_item(doc, number_text, Ghost(nums), &mut out, &root, &mut seen, &mut next, 0, fuel) {
                append(&mut out, "\n");
                assert(out@ =~= "return "@ + text_of(lua_item(*doc, nums, root@, (Seq::empty(), 0u32), 0, walk_fuel(*doc))) + "\n"@);
                Some(out)
            } else {
                None
            }
        },
    }
}

} // verus!
