//! The document that the script data formats read into: a root value and the
//! tables it reaches, each table named by an id so that a table met twice is
//! the same table.
use vstd::prelude::*;
use vstd::string::StrSliceExecFns;
use crate::text::same_text;
use super::Vector;

verus! {

/// A quaternion of four components.
#[derive(Copy, Clone, PartialOrd, PartialEq, Ord, Eq, Debug, Hash)]
pub struct Quaternion<T> {
    pub x: T,
    pub y: T,
    pub z: T,
    pub w: T,
}

/// A value of a script document. Numbers are held as the bits of their
/// `f32`; a table is named by its id in the document.
#[derive(Debug)]
pub enum DocValue {
    Bool(bool),
    Number(u32),
    IdString(u64),
    String(String),
    Vector(Vector<u32>),
    Quaternion(Quaternion<u32>),
    Table(u32),
}

/// A document value as mathematics sees it.
pub enum ValueView {
    Bool(bool),
    Number(u32),
    IdString(u64),
    String(Seq<char>),
    Vector(u32, u32, u32),
    Quaternion(u32, u32, u32, u32),
    Table(u32),
}

impl View for DocValue {
    type V = ValueView;

    open spec fn view(&self) -> ValueView {
        match self {
            DocValue::Bool(b) => ValueView::Bool(*b),
            DocValue::Number(n) => ValueView::Number(*n),
            DocValue::IdString(h) => ValueView::IdString(*h),
            DocValue::String(s) => ValueView::String(s@),
            DocValue::Vector(v) => ValueView::Vector(v.x, v.y, v.z),
            DocValue::Quaternion(q) => ValueView::Quaternion(q.x, q.y, q.z, q.w),
            DocValue::Table(t) => ValueView::Table(*t),
        }
    }
}

/// Whether the bits are those of a NaN.
pub open spec fn is_nan_bits(x: u32) -> bool {
    (x & 0x7F80_0000) == 0x7F80_0000 && (x & 0x007F_FFFF) != 0
}

/// Whether two `f32`, given by their bits, are equal as keys: every NaN is
/// equal to every NaN, the two zeros are equal, and otherwise the bits must
/// agree.
pub open spec fn same_number(a: u32, b: u32) -> bool {
    if is_nan_bits(a) || is_nan_bits(b) {
        is_nan_bits(a) && is_nan_bits(b)
    } else {
        a == b || ((a & 0x7FFF_FFFF) == 0 && (b & 0x7FFF_FFFF) == 0)
    }
}

/// Whether two values are the same key of a table.
pub open spec fn same_value(a: ValueView, b: ValueView) -> bool {
    match (a, b) {
        (ValueView::Bool(x), ValueView::Bool(y)) => x == y,
        (ValueView::Number(x), ValueView::Number(y)) => same_number(x, y),
        (ValueView::IdString(x), ValueView::IdString(y)) => x == y,
        (ValueView::String(x), ValueView::String(y)) => x == y,
        (ValueView::Vector(x0, x1, x2), ValueView::Vector(y0, y1, y2)) => same_number(x0, y0)
            && same_number(x1, y1) && same_number(x2, y2),
        (ValueView::Quaternion(x0, x1, x2, x3), ValueView::Quaternion(y0, y1, y2, y3)) =>
            same_number(x0, y0) && same_number(x1, y1) && same_number(x2, y2) && same_number(x3, y3),
        (ValueView::Table(x), ValueView::Table(y)) => x == y,
        _ => false,
    }
}

fn is_nan(x: u32) -> (r: bool)
    ensures
        r == is_nan_bits(x),
{
    (x & 0x7F80_0000) == 0x7F80_0000 && (x & 0x007F_FFFF) != 0
}

/// Whether two `f32` bit patterns are the same key.
pub fn numbers_equal(a: u32, b: u32) -> (r: bool)
    ensures
        r == same_number(a, b),
{
    if is_nan(a) || is_nan(b) {
        is_nan(a) && is_nan(b)
    } else {
        a == b || ((a & 0x7FFF_FFFF) == 0 && (b & 0x7FFF_FFFF) == 0)
    }
}

/// Whether two values are the same key of a table.
pub fn values_equal(a: &DocValue, b: &DocValue) -> (r: bool)
    ensures
        r == same_value(a@, b@),
{
    match (a, b) {
        (DocValue::Bool(x), DocValue::Bool(y)) => *x == *y,
        (DocValue::Number(x), DocValue::Number(y)) => numbers_equal(*x, *y),
        (DocValue::IdString(x), DocValue::IdString(y)) => *x == *y,
        (DocValue::String(x), DocValue::String(y)) => same_text(x.as_str(), y.as_str()),
        (DocValue::Vector(x), DocValue::Vector(y)) => numbers_equal(x.x, y.x) && numbers_equal(
            x.y,
            y.y,
        ) && numbers_equal(x.z, y.z),
        (DocValue::Quaternion(x), DocValue::Quaternion(y)) => numbers_equal(x.x, y.x)
            && numbers_equal(x.y, y.y) && numbers_equal(x.z, y.z) && numbers_equal(x.w, y.w),
        (DocValue::Table(x), DocValue::Table(y)) => *x == *y,
        _ => false,
    }
}

/// A copy of a value.
pub fn copy_value(v: &DocValue) -> (r: DocValue)
    ensures
        r@ == v@,
{
    match v {
        DocValue::Bool(b) => DocValue::Bool(*b),
        DocValue::Number(n) => DocValue::Number(*n),
        DocValue::IdString(h) => DocValue::IdString(*h),
        DocValue::String(s) => DocValue::String(s.clone()),
        DocValue::Vector(x) => DocValue::Vector(Vector { x: x.x, y: x.y, z: x.z }),
        DocValue::Quaternion(q) => DocValue::Quaternion(Quaternion { x: q.x, y: q.y, z: q.z, w: q.w }),
        DocValue::Table(t) => DocValue::Table(*t),
    }
}

/// The views of a sequence of pairs of values.
pub open spec fn pair_views(s: Seq<(DocValue, DocValue)>) -> Seq<(ValueView, ValueView)> {
    s.map_values(|p: (DocValue, DocValue)| (p.0@, p.1@))
}

/// Where the first key of `d` that is the same as `k` stands.
pub open spec fn key_index(d: Seq<(ValueView, ValueView)>, k: ValueView) -> Option<int>
    decreases d.len(),
{
    if d.len() == 0 {
        None
    } else {
        match key_index(d.drop_last(), k) {
            Some(i) => Some(i),
            None => if same_value(d.last().0, k) {
                Some(d.len() - 1)
            } else {
                None
            },
        }
    }
}

/// `d` with `k` set to `v`: where a same key is present it keeps its place
/// and its first form and takes the new value; otherwise the pair is added
/// at the end.
pub open spec fn dict_insert(d: Seq<(ValueView, ValueView)>, k: ValueView, v: ValueView) -> Seq<
    (ValueView, ValueView),
> {
    match key_index(d, k) {
        Some(i) => d.update(i, (d[i].0, v)),
        None => d.push((k, v)),
    }
}

/// A table as mathematics sees it: its metatable, and its distinct keys in
/// the order each was first added, each in the form first added and with the
/// last value set.
pub struct TableView {
    pub meta: Option<Seq<char>>,
    pub dict: Seq<(ValueView, ValueView)>,
}

/// The pairs of `pairs` inserted one after another into `d`.
pub open spec fn insert_all(d: Seq<(ValueView, ValueView)>, pairs: Seq<(ValueView, ValueView)>) -> Seq<
    (ValueView, ValueView),
>
    decreases pairs.len(),
{
    if pairs.len() == 0 {
        d
    } else {
        dict_insert(insert_all(d, pairs.drop_last()), pairs.last().0, pairs.last().1)
    }
}

/// The table made by inserting `pairs`, in order, into a new table with
/// metatable `meta`.
pub open spec fn table_from_pairs(meta: Option<Seq<char>>, pairs: Seq<(ValueView, ValueView)>) -> TableView {
    TableView { meta, dict: insert_all(Seq::empty(), pairs) }
}

/// What iterating a table gives: each distinct key once, in the order keys
/// were first added, with its last value.
pub open spec fn table_items(t: TableView) -> Seq<(ValueView, ValueView)> {
    t.dict
}

/// No two keys of `d` are the same key.
pub open spec fn distinct_keys(d: Seq<(ValueView, ValueView)>) -> bool {
    forall|i: int, j: int| 0 <= i < j < d.len() ==> !same_value(#[trigger] d[i].0, #[trigger] d[j].0)
}

/// A table of a script document.
pub struct DocTable {
    metatable: Option<String>,
    dict: Vec<(DocValue, DocValue)>,
}

impl View for DocTable {
    type V = TableView;

    closed spec fn view(&self) -> TableView {
        TableView {
            meta: match self.metatable {
                Some(s) => Some(s@),
                None => None,
            },
            dict: pair_views(self.dict@),
        }
    }
}

proof fn lemma_key_index_range(d: Seq<(ValueView, ValueView)>, k: ValueView)
    ensures
        key_index(d, k) matches Some(i) ==> 0 <= i < d.len() && same_value(d[i].0, k),
        key_index(d, k) is None ==> forall|i: int| 0 <= i < d.len() ==> !same_value(#[trigger] d[i].0, k),
    decreases d.len(),
{
    if d.len() > 0 {
        lemma_key_index_range(d.drop_last(), k);
        assert forall|i: int| 0 <= i < d.len() - 1 implies #[trigger] d[i] == d.drop_last()[i] by {}
    }
}

proof fn lemma_key_index_update(d: Seq<(ValueView, ValueView)>, i: int, v: ValueView, q: ValueView)
    requires
        0 <= i < d.len(),
    ensures
        key_index(d.update(i, (d[i].0, v)), q) == key_index(d, q),
    decreases d.len(),
{
    let e = d.update(i, (d[i].0, v));
    if d.len() > 0 {
        if i < d.len() - 1 {
            assert(e.drop_last() =~= d.drop_last().update(i, (d[i].0, v)));
            lemma_key_index_update(d.drop_last(), i, v, q);
        } else {
            assert(e.drop_last() =~= d.drop_last());
        }
    }
}

/// Setting a key keeps the keys distinct.
proof fn lemma_insert_keeps_distinct(d: Seq<(ValueView, ValueView)>, k: ValueView, v: ValueView)
    requires
        distinct_keys(d),
    ensures
        distinct_keys(dict_insert(d, k, v)),
{
    lemma_key_index_range(d, k);
    let e = dict_insert(d, k, v);
    match key_index(d, k) {
        Some(i) => {
            assert forall|a: int, b: int| 0 <= a < b < e.len() implies !same_value(#[trigger] e[a].0, #[trigger] e[b].0) by {
                assert(e[a].0 == d[a].0 && e[b].0 == d[b].0);
            }
        },
        None => {
            assert forall|a: int, b: int| 0 <= a < b < e.len() implies !same_value(#[trigger] e[a].0, #[trigger] e[b].0) by {
                if b == d.len() {
                    assert(!same_value(d[a].0, k));
                    lemma_same_value_sym(d[a].0, k);
                } else {
                    assert(e[a] == d[a] && e[b] == d[b]);
                }
            }
        },
    }
}

impl DocTable {
    /// The table is well formed: no two of its keys are the same key.
    pub open spec fn wf(&self) -> bool {
        distinct_keys(self@.dict)
    }

    /// An empty table without metatable.
    pub fn new() -> (r: DocTable)
        ensures
            r.wf(),
            r@ == table_from_pairs(None, Seq::empty()),
    {
        let r = DocTable { metatable: None, dict: Vec::new() };
        assert(r@.dict =~= Seq::<(ValueView, ValueView)>::empty());
        r
    }

    fn find(&self, key: &DocValue) -> (r: Option<usize>)
        ensures
            match r {
                Some(i) => key_index(self@.dict, key@) == Some(i as int),
                None => key_index(self@.dict, key@) is None,
            },
    {
        let n = self.dict.len();
        let mut i: usize = 0;
        while i < n
            invariant
                n == self.dict@.len(),
                i <= n,
                key_index(self@.dict.take(i as int), key@) is None,
                self@.dict == pair_views(self.dict@),
            decreases n - i,
        {
            let ghost d = self@.dict;
            assert(d.take(i + 1).drop_last() =~= d.take(i as int));
            if values_equal(&self.dict[i].0, key) {
                proof {
                    lemma_key_index_prefix(d, key@, i + 1);
                }
                return Some(i);
            }
            i += 1;
        }
        assert(self@.dict.take(n as int) =~= self@.dict);
        None
    }

    /// Sets `key` to `value`: a key that is already present keeps its place
    /// and its first form and takes the new value; a new key goes last.
    pub fn insert(&mut self, key: DocValue, value: DocValue)
        requires
            old(self).wf(),
        ensures
            final(self).wf(),
            final(self)@ == (TableView {
                meta: old(self)@.meta,
                dict: dict_insert(old(self)@.dict, key@, value@),
            }),
    {
        let ghost old_view = self@;
        let ghost kv = key@;
        let ghost vv = value@;
        match self.find(&key) {
            Some(i) => {
                proof {
                    lemma_key_index_range(self@.dict, key@);
                }
                let old_key = copy_value(&self.dict[i].0);
                self.dict.set(i, (old_key, value));
            },
            None => {
                self.dict.push((key, value));
            },
        }
        proof {
            let d = old_view.dict;
            assert(self@.dict =~= dict_insert(d, kv, vv));
            lemma_insert_keeps_distinct(d, kv, vv);
        }
    }

    /// The metatable's name, if there is one.
    pub fn get_metatable(&self) -> (r: Option<String>)
        ensures
            r matches Some(s) ==> self@.meta == Some(s@),
            r is None ==> self@.meta is None,
    {
        match &self.metatable {
            Some(s) => Some(s.clone()),
            None => None,
        }
    }

    /// Sets the metatable's name.
    pub fn set_metatable(&mut self, meta: Option<String>)
        requires
            old(self).wf(),
        ensures
            final(self).wf(),
            final(self)@ == (TableView {
                meta: match meta {
                    Some(s) => Some(s@),
                    None => None,
                },
                ..old(self)@
            }),
    {
        self.metatable = meta;
    }

    /// How many items the table holds: its distinct keys.
    pub fn len(&self) -> (r: usize)
        ensures
            r == self@.dict.len(),
    {
        self.dict.len()
    }

    /// The table's entries as iteration gives them: each distinct key once,
    /// in the order keys were first added, with its last value; as many as
    /// `len` says.
    pub fn items(&self) -> (r: Vec<(DocValue, DocValue)>)
        ensures
            pair_views(r@) == table_items(self@),
            r@.len() == self@.dict.len(),
    {
        let n = self.dict.len();
        let mut out: Vec<(DocValue, DocValue)> = Vec::new();
        let mut j: usize = 0;
        while j < n
            invariant
                n == self.dict@.len(),
                j <= n,
                self@.dict == pair_views(self.dict@),
                pair_views(out@) == self@.dict.take(j as int),
            decreases n - j,
        {
            let k = copy_value(&self.dict[j].0);
            let v = copy_value(&self.dict[j].1);
            let ghost before = out@;
            out.push((k, v));
            proof {
                assert(pair_views(out@) =~= pair_views(before).push((k@, v@)));
            }
            j += 1;
            assert(pair_views(out@) =~= self@.dict.take(j as int));
        }
        assert(self@.dict.take(n as int) =~= self@.dict);
        out
    }
}

/// Looking among the first `m` pairs finds the match at `m - 1` when none
/// came before it.
proof fn lemma_key_index_prefix(d: Seq<(ValueView, ValueView)>, k: ValueView, m: int)
    requires
        0 < m <= d.len(),
        key_index(d.take(m - 1), k) is None,
        same_value(d[m - 1].0, k),
    ensures
        key_index(d, k) == Some(m - 1),
{
    assert(d.take(m).drop_last() =~= d.take(m - 1));
    assert(key_index(d.take(m), k) == Some(m - 1));
    lemma_key_index_extend(d, k, m);
}

/// A key found among the first `m` pairs is found at the same place in all.
proof fn lemma_key_index_extend(d: Seq<(ValueView, ValueView)>, k: ValueView, m: int)
    requires
        0 <= m <= d.len(),
        key_index(d.take(m), k) is Some,
    ensures
        key_index(d, k) == key_index(d.take(m), k),
    decreases d.len() - m,
{
    if m < d.len() {
        assert(d.take(m + 1).drop_last() =~= d.take(m));
        lemma_key_index_extend(d, k, m + 1);
    } else {
        assert(d.take(m) =~= d);
    }
}


/// A script document: its root value, if any, and its tables, each under
/// its id.
pub struct Document {
    root_value: Option<DocValue>,
    tables: Vec<(u32, DocTable)>,
}

impl Document {
    /// The root value.
    pub closed spec fn root_view(&self) -> Option<ValueView> {
        match self.root_value {
            Some(v) => Some(v@),
            None => None,
        }
    }

    /// The ids of the tables, in the order they were added.
    pub closed spec fn ids(&self) -> Seq<u32> {
        self.tables@.map_values(|p: (u32, DocTable)| p.0)
    }

    /// The table added `k`-th.
    pub closed spec fn table_at(&self, k: int) -> TableView {
        self.tables@[k].1@
    }

    /// Each id names one table, and every table is well formed.
    pub closed spec fn wf(&self) -> bool {
        &&& self.ids().no_duplicates()
        &&& forall|k: int| 0 <= k < self.tables@.len() ==> (#[trigger] self.tables@[k]).1.wf()
    }

    /// Whether the document holds a table with id `id`.
    pub open spec fn holds(&self, id: u32) -> bool {
        self.ids().contains(id)
    }

    /// The table with id `id`, if the document holds one.
    pub open spec fn table_view(&self, id: u32) -> Option<TableView> {
        if self.holds(id) {
            Some(self.table_at(choose|k: int| 0 <= k < self.ids().len() && self.ids()[k] == id))
        } else {
            None
        }
    }

    /// A document without root or tables.
    pub fn new() -> (r: Document)
        ensures
            r.wf(),
            r.root_view() is None,
            r.ids() == Seq::<u32>::empty(),
    {
        let r = Document { root_value: None, tables: Vec::new() };
        assert(r.ids() =~= Seq::<u32>::empty());
        r
    }

    /// A copy of the root value.
    pub fn root(&self) -> (r: Option<DocValue>)
        ensures
            r matches Some(v) ==> self.root_view() == Some(v@),
            r is None ==> self.root_view() is None,
    {
        match &self.root_value {
            Some(v) => Some(copy_value(v)),
            None => None,
        }
    }

    /// Sets the root value.
    pub fn set_root(&mut self, t: Option<DocValue>)
        requires
            old(self).wf(),
        ensures
            final(self).wf(),
            final(self).ids() == old(self).ids(),
            forall|k: int| 0 <= k < old(self).ids().len() ==> final(self).table_at(k) == old(self).table_at(k),
            t matches Some(v) ==> final(self).root_view() == Some(v@),
            t is None ==> final(self).root_view() is None,
    {
        self.root_value = t;
    }

    /// How many tables the document holds.
    pub fn table_count(&self) -> (r: usize)
        ensures
            r == self.ids().len(),
    {
        self.tables.len()
    }

    /// The id of the table added `k`-th.
    pub fn table_id(&self, k: usize) -> (r: u32)
        requires
            k < self.ids().len(),
        ensures
            r == self.ids()[k as int],
    {
        self.tables[k].0
    }

    /// The table with id `id`, if the document holds one.
    pub fn table(&self, id: u32) -> (r: Option<&DocTable>)
        requires
            self.wf(),
        ensures
            r is None ==> !self.holds(id),
            r matches Some(t) ==> exists|k: int| 0 <= k < self.ids().len() && self.ids()[k] == id
                && self.table_at(k) == t@ && t.wf(),
            r matches Some(t) ==> self.table_view(id) == Some(t@),
            r is None ==> self.table_view(id) is None,
    {
        let n = self.tables.len();
        let mut k: usize = 0;
        while k < n
            invariant
                n == self.tables@.len(),
                k <= n,
                self.wf(),
                forall|j: int| 0 <= j < k ==> self.ids()[j] != id,
            decreases n - k,
        {
            if self.tables[k].0 == id {
                assert(self.ids()[k as int] == id);
                assert(self.tables@[k as int].1.wf());
                assert(self.table_at(k as int) == self.tables@[k as int].1@);
                proof {
                    let c = choose|c: int| 0 <= c < self.ids().len() && self.ids()[c] == id;
                    assert(self.ids().contains(id));
                    assert(0 <= c < self.ids().len() && self.ids()[c] == id);
                    if c != k as int {
                        assert(self.ids().no_duplicates());
                    }
                }
                return Some(&self.tables[k].1);
            }
            k += 1;
        }
        proof {
            if self.ids().contains(id) {
                let j = choose|j: int| 0 <= j < self.ids().len() && self.ids()[j] == id;
                assert(self.ids()[j] == id);
            }
        }
        None
    }

    /// Adds a table under an id that the document does not hold yet.
    pub fn add_table(&mut self, id: u32, table: DocTable)
        requires
            old(self).wf(),
            !old(self).holds(id),
            table.wf(),
        ensures
            final(self).wf(),
            final(self).root_view() == old(self).root_view(),
            final(self).ids() == old(self).ids().push(id),
            forall|k: int| 0 <= k < old(self).ids().len() ==> final(self).table_at(k) == old(self).table_at(k),
            final(self).table_at(old(self).ids().len() as int) == table@,
    {
        let ghost before = self.ids();
        self.tables.push((id, table));
        assert(self.ids() =~= before.push(id));
        proof {
            assert forall|a: int, b: int| 0 <= a < b < self.ids().len() implies self.ids()[a] != self.ids()[b] by {
                if b == before.len() {
                    assert(before[a] == self.ids()[a]);
                    assert(before.contains(before[a]));
                }
            }
        }
    }
}


/// Reading a key back after setting it gives the value it was set to.
pub proof fn lemma_insert_then_lookup(d: Seq<(ValueView, ValueView)>, k: ValueView, v: ValueView)
    ensures
        ({
            let e = dict_insert(d, k, v);
            &&& key_index(e, k) is Some
            &&& e[key_index(e, k)->Some_0].1 == v
        }),
{
    lemma_key_index_range(d, k);
    match key_index(d, k) {
        Some(i) => {
            lemma_key_index_update(d, i, v, k);
        },
        None => {
            let e = d.push((k, v));
            assert(e.drop_last() =~= d);
            assert(same_value(k, k));
        },
    }
}

/// Setting a key leaves the value of every other key as it was.
pub proof fn lemma_insert_keeps_others(d: Seq<(ValueView, ValueView)>, k: ValueView, v: ValueView, q: ValueView)
    requires
        !same_value(q, k),
    ensures
        key_index(dict_insert(d, k, v), q) == key_index(d, q),
        key_index(d, q) matches Some(i) ==> dict_insert(d, k, v)[i] == d[i],
{
    lemma_key_index_range(d, k);
    lemma_key_index_range(d, q);
    match key_index(d, k) {
        Some(i) => {
            lemma_key_index_update(d, i, v, q);
            if let Some(j) = key_index(d, q) {
                if i == j {
                    lemma_same_value_trans(k, d[i].0, q);
                }
            }
        },
        None => {
            let e = d.push((k, v));
            assert(e.drop_last() =~= d);
            if key_index(d, q) is None {
                lemma_same_value_sym(q, k);
            }
        },
    }
}

proof fn lemma_same_value_sym(a: ValueView, b: ValueView)
    ensures
        same_value(a, b) == same_value(b, a),
{
}

proof fn lemma_same_value_trans(a: ValueView, b: ValueView, c: ValueView)
    requires
        same_value(b, a),
        same_value(b, c),
    ensures
        same_value(a, c),
{
}

} // verus!
