//! Documents of script data: tables of items under integer and string keys,
//! built table by table and read through references to them.
use vstd::prelude::*;
use std::collections::BTreeMap;
use std::rc::Rc;

use super::{DanglingTableId, DuplicateKey, Item, Key, QuatBits, Scalar, TableId, Vec3Bits};

verus! {

broadcast use {vstd::std_specs::btree::group_btree_axioms, vstd::laws_cmp::group_laws_cmp};

/// An item as a document holds it: a scalar, or the id of a table.
pub type ScalarItem = Item<String, TableId>;

/// What an item of a document is: a scalar with its string's characters, or
/// the id of a table.
pub type ItemView = Item<Seq<char>, TableId>;

/// An item names a table only among the first `n`.
pub open spec fn item_ok(it: ItemView, n: int) -> bool {
    it matches Item::Table(t) ==> t.0 < n
}

/// The least number of tables among which an item names one.
pub open spec fn n_of(it: ItemView) -> int {
    match it {
        Item::Table(t) => t.0 + 1,
        Item::Scalar(_) => 0,
    }
}

/// A copy of an item.
fn copy_item(it: &ScalarItem) -> (r: ScalarItem)
    ensures
        r@ == it@,
{
    match it {
        Item::Table(t) => Item::Table(*t),
        Item::Scalar(s) => Item::Scalar(
            match s {
                Scalar::String(st) => Scalar::String(st.clone()),
                Scalar::Bool(i) => Scalar::Bool(*i),
                Scalar::Number(i) => Scalar::Number(*i),
                Scalar::IdString(i) => Scalar::IdString(*i),
                Scalar::Vector(i) => Scalar::Vector(*i),
                Scalar::Quaternion(i) => Scalar::Quaternion(*i),
            },
        ),
    }
}

/// The map that a list of string-keyed pairs makes, later pairs winning.
pub open spec fn pairs_map(v: Seq<(String, ScalarItem)>) -> Map<Seq<char>, ItemView>
    decreases v.len(),
{
    if v.len() == 0 {
        Map::empty()
    } else {
        pairs_map(v.drop_last()).insert(v.last().0@, v.last().1@)
    }
}

/// No two pairs have one key.
pub open spec fn keys_distinct(v: Seq<(String, ScalarItem)>) -> bool {
    forall|a: int, b: int| 0 <= a < b < v.len() ==> (#[trigger] v[a]).0@ != (#[trigger] v[b]).0@
}

proof fn lemma_pairs_map(v: Seq<(String, ScalarItem)>)
    requires
        keys_distinct(v),
    ensures
        forall|k: Seq<char>|
            #[trigger] pairs_map(v).contains_key(k) <==> exists|i: int|
                0 <= i < v.len() && (#[trigger] v[i]).0@ == k,
        forall|i: int| 0 <= i < v.len() ==> pairs_map(v)[(#[trigger] v[i]).0@] == v[i].1@,
    decreases v.len(),
{
    if v.len() > 0 {
        let w = v.drop_last();
        assert(keys_distinct(w));
        lemma_pairs_map(w);
        assert forall|k: Seq<char>|
            #[trigger] pairs_map(v).contains_key(k) <==> exists|i: int|
                0 <= i < v.len() && (#[trigger] v[i]).0@ == k by {
            if pairs_map(v).contains_key(k) && k != v.last().0@ {
                assert(pairs_map(w).contains_key(k));
                let i = choose|i: int| 0 <= i < w.len() && (#[trigger] w[i]).0@ == k;
                assert(v[i] == w[i]);
                assert(0 <= i < v.len() && v[i].0@ == k);
            }
            if pairs_map(v).contains_key(k) && k == v.last().0@ {
                assert(v[v.len() - 1].0@ == k);
            }
            if exists|i: int| 0 <= i < v.len() && (#[trigger] v[i]).0@ == k {
                let i = choose|i: int| 0 <= i < v.len() && (#[trigger] v[i]).0@ == k;
                if i < v.len() - 1 {
                    assert(w[i] == v[i]);
                }
            }
        }
        assert forall|i: int| 0 <= i < v.len() implies pairs_map(v)[(#[trigger] v[i]).0@] == v[i].1@ by {
            if i < v.len() - 1 {
                assert(w[i] == v[i]);
            }
        }
    }
}

proof fn lemma_pairs_map_update(v: Seq<(String, ScalarItem)>, j: int, p: (String, ScalarItem))
    requires
        keys_distinct(v),
        0 <= j < v.len(),
        v[j].0@ == p.0@,
    ensures
        keys_distinct(v.update(j, p)),
        pairs_map(v.update(j, p)) == pairs_map(v).insert(p.0@, p.1@),
{
    let w = v.update(j, p);
    assert(keys_distinct(w)) by {
        assert forall|a: int, b: int| 0 <= a < b < w.len() implies (#[trigger] w[a]).0@ != (#[trigger] w[b]).0@ by {
            assert(w[a].0@ == v[a].0@ && w[b].0@ == v[b].0@);
        }
    }
    lemma_pairs_map(v);
    lemma_pairs_map(w);
    assert forall|k: Seq<char>| #[trigger] pairs_map(w).contains_key(k) <==> pairs_map(v).insert(p.0@, p.1@).contains_key(k) by {
        if pairs_map(w).contains_key(k) {
            let i = choose|i: int| 0 <= i < w.len() && (#[trigger] w[i]).0@ == k;
            assert(v[i].0@ == k);
        }
        if pairs_map(v).contains_key(k) {
            let i = choose|i: int| 0 <= i < v.len() && (#[trigger] v[i]).0@ == k;
            assert(w[i].0@ == k);
        }
    }
    assert forall|k: Seq<char>| #[trigger] pairs_map(w).contains_key(k) implies pairs_map(w)[k] == pairs_map(v).insert(p.0@, p.1@)[k] by {
        let i = choose|i: int| 0 <= i < w.len() && (#[trigger] w[i]).0@ == k;
        if i != j {
            assert(w[i] == v[i]);
        }
    }
    assert(pairs_map(w) =~= pairs_map(v).insert(p.0@, p.1@));
}

/// `after` is the table `before` with `it` put under `k`: its other items
/// and its metatable kept, a new string key last in order.
pub open spec fn table_put(before: TableData, after: TableData, k: Key<Seq<char>>, it: ItemView) -> bool {
    &&& after.meta_view() == before.meta_view()
    &&& match k {
        Key::Index(i) => {
            &&& after.numeric_view() == before.numeric_view().insert(i, it)
            &&& after.string_view() == before.string_view()
            &&& after.string_order() == before.string_order()
        },
        Key::String(s) => {
            &&& after.numeric_view() == before.numeric_view()
            &&& after.string_view() == before.string_view().insert(s, it)
            &&& after.string_order() == if before.string_view().contains_key(s) {
                before.string_order()
            } else {
                before.string_order().push(s)
            }
        },
    }
}

/// A table: its metatable's name, its items under integer keys, and its
/// items under string keys in the order they were first given.
pub struct TableData {
    meta: Option<String>,
    numeric: BTreeMap<usize, ScalarItem>,
    stringed: Vec<(String, ScalarItem)>,
}

impl TableData {
    /// The name of the table's metatable.
    pub closed spec fn meta_view(&self) -> Option<Seq<char>> {
        match self.meta {
            Some(m) => Some(m@),
            None => None,
        }
    }

    /// The items under integer keys.
    pub closed spec fn numeric_view(&self) -> Map<usize, ItemView> {
        Map::new(|k: usize| self.numeric@.contains_key(k), |k: usize| self.numeric@[k]@)
    }

    /// The items under string keys.
    pub closed spec fn string_view(&self) -> Map<Seq<char>, ItemView> {
        pairs_map(self.stringed@)
    }

    /// The string keys in the order they were first given.
    pub closed spec fn string_order(&self) -> Seq<Seq<char>> {
        self.stringed@.map_values(|p: (String, ScalarItem)| p.0@)
    }

    /// The item under `k`, if any.
    pub open spec fn get_view(&self, k: Key<Seq<char>>) -> Option<ItemView> {
        match k {
            Key::Index(i) => if self.numeric_view().contains_key(i) {
                Some(self.numeric_view()[i])
            } else {
                None
            },
            Key::String(s) => if self.string_view().contains_key(s) {
                Some(self.string_view()[s])
            } else {
                None
            },
        }
    }

    /// Finitely many integer keys, and no string key given twice.
    pub closed spec fn sane(&self) -> bool {
        &&& self.numeric@.dom().finite()
        &&& keys_distinct(self.stringed@)
    }

    /// The table is sane, and every item names one of the first `n` tables.
    pub closed spec fn ok(&self, n: int) -> bool {
        &&& self.sane()
        &&& forall|k: usize| #[trigger] self.numeric@.contains_key(k) ==> item_ok(self.numeric@[k]@, n)
        &&& forall|i: int| 0 <= i < self.stringed@.len() ==> item_ok((#[trigger] self.stringed@[i]).1@, n)
    }

    /// An empty table.
    fn new() -> (r: TableData)
        ensures
            r.meta_view() is None,
            r.numeric_view() == Map::<usize, ItemView>::empty(),
            r.string_view() == Map::<Seq<char>, ItemView>::empty(),
            r.string_order() == Seq::<Seq<char>>::empty(),
            forall|n: int| r.ok(n),
    {
        let r = TableData { meta: None, numeric: BTreeMap::new(), stringed: Vec::new() };
        assert(r.numeric_view() =~= Map::<usize, ItemView>::empty());
        assert(r.string_order() =~= Seq::<Seq<char>>::empty());
        r
    }

    /// The item under `k`, if any.
    fn get(&self, k: Key<&str>) -> (r: Option<ScalarItem>)
        requires
            self.sane(),
        ensures
            match r {
                Some(it) => self.get_view(k@) == Some(it@),
                None => self.get_view(k@) is None,
            },
    {
        proof {
            lemma_pairs_map(self.stringed@);
        }
        match k {
            Key::Index(i) => match self.numeric.get(&i) {
                Some(it) => Some(copy_item(it)),
                None => None,
            },
            Key::String(s) => match self.find_string(s) {
                Some(j) => Some(copy_item(&self.stringed[j].1)),
                None => None,
            },
        }
    }

    /// Puts `item` under `k`, in place of what was there.
    fn put(&mut self, k: Key<String>, item: ScalarItem)
        requires
            old(self).sane(),
        ensures
            final(self).sane(),
            table_put(*old(self), *final(self), k@, item@),
            forall|n: int| old(self).ok(n) && item_ok(item@, n) ==> final(self).ok(n),
    {
        proof {
            lemma_pairs_map(self.stringed@);
        }
        match k {
            Key::Index(i) => {
                self.numeric.insert(i, item);
                assert(self.numeric_view() =~= old(self).numeric_view().insert(i, item@));
            },
            Key::String(s) => {
                match self.find_string(s.as_str()) {
                    Some(j) => {
                        proof {
                            lemma_pairs_map_update(self.stringed@, j as int, (s, item));
                        }
                        let ghost before = self.stringed@;
                        self.stringed.set(j, (s, item));
                        assert(self.string_order() =~= old(self).string_order());
                        assert forall|n: int| old(self).ok(n) && item_ok(item@, n) implies self.ok(n) by {
                            assert forall|q: int| 0 <= q < self.stringed@.len() implies item_ok((#[trigger] self.stringed@[q]).1@, n) by {
                                if q != j {
                                    assert(self.stringed@[q] == before[q]);
                                }
                            }
                        }
                    },
                    None => {
                        let ghost before = self.stringed@;
                        self.stringed.push((s, item));
                        assert(self.stringed@.drop_last() =~= before);
                        assert(!pairs_map(before).contains_key(s@)) by {
                            if pairs_map(before).contains_key(s@) {
                                let q = choose|q: int| 0 <= q < before.len() && (#[trigger] before[q]).0@ == s@;
                            }
                        }
                        assert(self.string_order() =~= old(self).string_order().push(s@));
                        assert(keys_distinct(self.stringed@)) by {
                            assert forall|a: int, b: int| 0 <= a < b < self.stringed@.len() implies (#[trigger] self.stringed@[a]).0@ != (#[trigger] self.stringed@[b]).0@ by {
                                if b == before.len() {
                                    assert(self.stringed@[a] == before[a]);
                                } else {
                                    assert(self.stringed@[a] == before[a] && self.stringed@[b] == before[b]);
                                }
                            }
                        }
                    },
                }
            },
        }
    }

    /// Where the pair with string key `s` is, if any.
    fn find_string(&self, s: &str) -> (r: Option<usize>)
        ensures
            r matches Some(j) ==> j < self.stringed@.len() && self.stringed@[j as int].0@ == s@,
            r is None ==> forall|q: int| 0 <= q < self.stringed@.len() ==> (#[trigger] self.stringed@[q]).0@ != s@,
    {
        let mut j: usize = 0;
        while j < self.stringed.len()
            invariant
                j <= self.stringed@.len(),
                forall|q: int| 0 <= q < j ==> (#[trigger] self.stringed@[q]).0@ != s@,
            decreases self.stringed.len() - j,
        {
            if crate::text::same_text(self.stringed[j].0.as_str(), s) {
                return Some(j);
            }
            j = j + 1;
        }
        None
    }

    /// Whether an item is under `k`.
    fn contains(&self, k: Key<&str>) -> (r: bool)
        requires
            self.sane(),
        ensures
            r == (self.get_view(k@) is Some),
    {
        proof {
            lemma_pairs_map(self.stringed@);
        }
        match k {
            Key::Index(i) => self.numeric.contains_key(&i),
            Key::String(s) => match self.find_string(s) {
                Some(j) => {
                    assert(pairs_map(self.stringed@).contains_key(self.stringed@[j as int].0@));
                    true
                },
                None => false,
            },
        }
    }
}

/// `after` is `before` with `it` put under `k` in table `t`, the other
/// tables kept.
pub open spec fn tables_put(before: Seq<TableData>, after: Seq<TableData>, t: int, k: Key<Seq<char>>, it: ItemView) -> bool {
    &&& 0 <= t < before.len()
    &&& after.len() == before.len()
    &&& forall|j: int| 0 <= j < before.len() && j != t ==> after[j] == before[j]
    &&& table_put(before[t], after[t], k, it)
}

/// Every table of `tables` is well formed among them.
pub open spec fn tables_ok(tables: Seq<TableData>) -> bool {
    forall|j: int| 0 <= j < tables.len() ==> (#[trigger] tables[j]).ok(tables.len() as int)
}

/// A table that holds nothing.
pub open spec fn is_empty_table(t: TableData) -> bool {
    &&& t.meta_view() is None
    &&& t.numeric_view() == Map::<usize, ItemView>::empty()
    &&& t.string_view() == Map::<Seq<char>, ItemView>::empty()
    &&& t.string_order() == Seq::<Seq<char>>::empty()
}

/// A document being built: its tables so far.
pub struct DocumentBuilder {
    tables: Vec<TableData>,
}

impl DocumentBuilder {
    /// The tables so far.
    pub closed spec fn tables_view(&self) -> Seq<TableData> {
        self.tables@
    }

    /// Every table is well formed among the tables there are.
    pub open spec fn wf(&self) -> bool {
        tables_ok(self.tables_view())
    }

    /// A builder with no tables.
    pub fn new() -> (r: DocumentBuilder)
        ensures
            r.tables_view().len() == 0,
            r.wf(),
    {
        DocumentBuilder { tables: Vec::new() }
    }

    /// Puts `item` under `key` in table `table`.
    fn put_item(&mut self, table: usize, key: Key<String>, item: ScalarItem)
        requires
            old(self).wf(),
            table < old(self).tables_view().len(),
            item_ok(item@, old(self).tables_view().len() as int),
        ensures
            final(self).wf(),
            tables_put(old(self).tables_view(), final(self).tables_view(), table as int, key@, item@),
    {
        let ghost n = self.tables@.len() as int;
        let ghost before = self.tables@;
        assert(before[table as int].ok(n));
        self.tables[table].put(key, item);
        assert forall|j: int| 0 <= j < self.tables@.len() implies (#[trigger] self.tables@[j]).ok(n) by {
            if j != table {
                assert(self.tables@[j] == before[j]);
            }
        }
    }

    /// Adds an empty table at the end.
    fn push_table(&mut self)
        requires
            old(self).wf(),
        ensures
            final(self).wf(),
            final(self).tables_view().len() == old(self).tables_view().len() + 1,
            final(self).tables_view().drop_last() == old(self).tables_view(),
            is_empty_table(final(self).tables_view().last()),
    {
        let ghost before = self.tables@;
        let t = TableData::new();
        self.tables.push(t);
        assert(self.tables@.drop_last() =~= before);
        assert forall|j: int| 0 <= j < self.tables@.len() implies (#[trigger] self.tables@[j]).ok(self.tables@.len() as int) by {
            if j < before.len() {
                assert(self.tables@[j] == before[j]);
                lemma_ok_grows(before[j], before.len() as int, self.tables@.len() as int);
            }
        }
    }
}

/// A table well formed among `n` tables is well formed among more.
proof fn lemma_ok_grows(t: TableData, n: int, m: int)
    requires
        t.ok(n),
        n <= m,
    ensures
        t.ok(m),
{
}

/// `r` is the item `it` of document `doc`, with a reference for a table.
pub open spec fn refers(r: Item<String, TableRef>, it: ItemView, doc: DocumentRef) -> bool {
    match it {
        Item::Scalar(sc) => r matches Item::Scalar(rs) && rs@ == sc,
        Item::Table(t) => r matches Item::Table(tr) && tr.id_view() == t && tr.doc_view() == doc,
    }
}

/// The contents of a finished document: its root item and its tables.
pub struct DocumentData {
    root: Option<ScalarItem>,
    tables: Vec<TableData>,
}

/// A finished document, shared by the references into it.
pub struct DocumentRef(Rc<DocumentData>);

/// Another handle on the same document, by `Rc::clone`.
#[verifier::external_body]
fn share(d: &Rc<DocumentData>) -> (r: Rc<DocumentData>)
    ensures
        r == *d,
{
    Rc::clone(d)
}

impl DocumentRef {
    /// The root item.
    pub closed spec fn root_view(&self) -> Option<ItemView> {
        match self.0.root {
            Some(it) => Some(it@),
            None => None,
        }
    }

    /// The tables.
    pub closed spec fn tables_view(&self) -> Seq<TableData> {
        self.0.tables@
    }

    /// Every table, and the root, names only tables that there are.
    pub open spec fn wf(&self) -> bool {
        &&& tables_ok(self.tables_view())
        &&& self.root_view() matches Some(it) ==> item_ok(it, self.tables_view().len() as int)
    }

    /// The root item, with a reference for a table.
    pub fn root(&self) -> (r: Option<Item<String, TableRef>>)
        requires
            self.wf(),
        ensures
            match self.root_view() {
                None => r is None,
                Some(it) => r matches Some(ri) && refers(ri, it, *self),
            },
    {
        match &self.0.root {
            None => None,
            Some(it) => Some(self.refify_table(copy_item(it))),
        }
    }

    /// The item, with a reference in place of a table's id.
    fn refify_table(&self, item: ScalarItem) -> (r: Item<String, TableRef>)
        requires
            item_ok(item@, self.tables_view().len() as int),
        ensures
            refers(r, item@, *self),
    {
        match item {
            Item::Scalar(s) => Item::Scalar(s),
            Item::Table(t) => Item::Table(TableRef(share(&self.0), t)),
        }
    }

    /// A reference to table `id`, if there is one.
    pub fn table(&self, id: TableId) -> (r: Option<TableRef>)
        ensures
            id.0 < self.tables_view().len() <==> r is Some,
            r matches Some(tr) ==> tr.id_view() == id && tr.doc_view() == *self,
    {
        if self.0.tables.len() > id.0 {
            Some(TableRef(share(&self.0), id))
        } else {
            None
        }
    }
}

/// A table of a finished document.
pub struct TableRef(Rc<DocumentData>, TableId);

impl TableRef {
    /// The table's id.
    pub closed spec fn id_view(&self) -> TableId {
        self.1
    }

    /// The document the table is in.
    pub closed spec fn doc_view(&self) -> DocumentRef {
        DocumentRef(self.0)
    }

    /// The table's contents.
    pub open spec fn table_view(&self) -> TableData {
        self.doc_view().tables_view()[self.id_view().0 as int]
    }

    /// The document is well formed and has the table.
    pub open spec fn wf(&self) -> bool {
        &&& self.doc_view().wf()
        &&& self.id_view().0 < self.doc_view().tables_view().len()
    }

    pub fn id(&self) -> (r: TableId)
        ensures
            r == self.id_view(),
    {
        self.1
    }

    pub fn document(&self) -> (r: DocumentRef)
        ensures
            r == self.doc_view(),
    {
        DocumentRef(share(&self.0))
    }

    /// The name of the metatable of the document's first table (whichever
    /// table this is).
    pub fn meta(&self) -> (r: Option<String>)
        requires
            self.wf(),
        ensures
            match self.doc_view().tables_view()[0].meta_view() {
                Some(m) => r matches Some(rm) && rm@ == m,
                None => r is None,
            },
    {
        match &self.0.tables[0].meta {
            Some(m) => Some(m.clone()),
            None => None,
        }
    }

    /// The item under `key`, as the table holds it.
    pub fn get_item(&self, key: Key<&str>) -> (r: Option<ScalarItem>)
        requires
            self.wf(),
        ensures
            match r {
                Some(it) => self.table_view().get_view(key@) == Some(it@),
                None => self.table_view().get_view(key@) is None,
            },
    {
        let t: &TableData = &self.0.tables[self.1.0];
        proof {
            assert(self.doc_view().tables_view()[self.id_view().0 as int].ok(self.doc_view().tables_view().len() as int));
        }
        t.get(key)
    }

    /// The item under `key`, with a reference for a table.
    pub fn get(&self, key: Key<&str>) -> (r: Option<Item<String, TableRef>>)
        requires
            self.wf(),
        ensures
            match self.table_view().get_view(key@) {
                None => r is None,
                Some(it) => r matches Some(ri) && refers(ri, it, self.doc_view()),
            },
    {
        let doc = DocumentRef(share(&self.0));
        match self.get_item(key) {
            None => None,
            Some(it) => {
                proof {
                    lemma_get_ok(self.table_view(), key@, self.doc_view().tables_view().len() as int);
                }
                Some(doc.refify_table(it))
            },
        }
    }
}

impl TableRef {
    /// Another reference to the same table.
    pub fn share(&self) -> (r: TableRef)
        ensures
            r.id_view() == self.id_view(),
            r.doc_view() == self.doc_view(),
    {
        TableRef(share(&self.0), self.1)
    }

    /// The items under integer keys from 1 up, for as long as the keys run
    /// without a gap.
    pub fn integer_pairs(&self) -> (r: IPairs)
        ensures
            r.table_view() == *self,
            r.current() == 0,
    {
        IPairs::new(self.share())
    }

    /// The items under string keys, in the order the keys were first given,
    /// with a reference for a table.
    pub fn string_pairs(&self) -> (r: Vec<(String, Item<String, TableRef>)>)
        requires
            self.wf(),
        ensures
            r@.len() == self.table_view().string_order().len(),
            forall|i: int|
                0 <= i < r@.len() ==> {
                    let k = self.table_view().string_order()[i];
                    &&& (#[trigger] r@[i]).0@ == k
                    &&& self.table_view().string_view().contains_key(k)
                    &&& refers(r@[i].1, self.table_view().string_view()[k], self.doc_view())
                },
    {
        let doc = DocumentRef(share(&self.0));
        let t: &TableData = &self.0.tables[self.1.0];
        let ghost n = self.doc_view().tables_view().len() as int;
        proof {
            assert(t.ok(n));
            lemma_pairs_map(t.stringed@);
        }
        let mut out: Vec<(String, Item<String, TableRef>)> = Vec::new();
        let mut i: usize = 0;
        while i < t.stringed.len()
            invariant
                *t == self.table_view(),
                doc == self.doc_view(),
                n == doc.tables_view().len(),
                t.ok(n),
                i <= t.stringed@.len(),
                out@.len() == i,
                forall|q: int| 0 <= q < t.stringed@.len() ==> pairs_map(t.stringed@)[(#[trigger] t.stringed@[q]).0@] == t.stringed@[q].1@,
                forall|q: int| 0 <= q < t.stringed@.len() ==> pairs_map(t.stringed@).contains_key((#[trigger] t.stringed@[q]).0@),
                forall|q: int|
                    0 <= q < i ==> {
                        let k = t.stringed@[q].0@;
                        &&& (#[trigger] out@[q]).0@ == k
                        &&& refers(out@[q].1, t.stringed@[q].1@, doc)
                    },
            decreases t.stringed.len() - i,
        {
            let key = t.stringed[i].0.clone();
            let item = copy_item(&t.stringed[i].1);
            assert(item_ok(t.stringed@[i as int].1@, n));
            out.push((key, doc.refify_table(item)));
            i = i + 1;
        }
        assert forall|q: int| 0 <= q < out@.len() implies self.table_view().string_order()[q] == t.stringed@[q].0@ by {}
        out
    }
}

/// The items of a table under the integer keys 1, 2, 3 and on, one at a
/// time, until a key is missing.
pub struct IPairs {
    table: TableRef,
    current_idx: usize,
}

impl IPairs {
    /// The table walked.
    pub closed spec fn table_view(&self) -> TableRef {
        self.table
    }

    /// The last key given so far; 0 before the first.
    pub closed spec fn current(&self) -> usize {
        self.current_idx
    }

    pub fn new(table: TableRef) -> (r: IPairs)
        ensures
            r.table_view() == table,
            r.current() == 0,
    {
        IPairs { table, current_idx: 0 }
    }

    /// The item under the key after the last one given, if there is one.
    pub fn next(&mut self) -> (r: Option<(usize, Item<String, TableRef>)>)
        requires
            old(self).table_view().wf(),
            old(self).current() < usize::MAX,
        ensures
            final(self).table_view() == old(self).table_view(),
            match old(self).table_view().table_view().get_view(Key::Index((old(self).current() + 1) as usize)) {
                None => r is None && final(self).current() == old(self).current(),
                Some(it) => {
                    &&& final(self).current() == old(self).current() + 1
                    &&& r matches Some((k, ri)) && k == final(self).current() && refers(
                        ri,
                        it,
                        old(self).table_view().doc_view(),
                    )
                },
            },
    {
        match self.table.get(Key::Index(self.current_idx + 1)) {
            None => None,
            Some(i) => {
                self.current_idx = self.current_idx + 1;
                Some((self.current_idx, i))
            },
        }
    }
}

/// What a well formed table gives names only tables that there are.
proof fn lemma_get_ok(t: TableData, k: Key<Seq<char>>, n: int)
    requires
        t.ok(n),
    ensures
        t.get_view(k) matches Some(it) ==> item_ok(it, n),
{
    lemma_pairs_map(t.stringed@);
    if let Key::String(s) = k {
        if t.string_view().contains_key(s) {
            let i = choose|i: int| 0 <= i < t.stringed@.len() && (#[trigger] t.stringed@[i]).0@ == s;
            assert(t.string_view()[s] == t.stringed@[i].1@);
        }
    }
}

impl DocumentBuilder {
    /// A document with no root and no tables.
    pub fn empty_document(self) -> (r: DocumentRef)
        ensures
            r.root_view() is None,
            r.tables_view().len() == 0,
    {
        DocumentRef(Rc::new(DocumentData { root: None, tables: Vec::new() }))
    }

    /// A document whose root is `item` and that has no tables (the tables
    /// built so far are dropped).
    fn doc(self, item: ScalarItem) -> (r: DocumentRef)
        ensures
            r.root_view() == Some(item@),
            r.tables_view().len() == 0,
    {
        DocumentRef(Rc::new(DocumentData { root: Some(item), tables: Vec::new() }))
    }

    /// A document whose root is a scalar.
    pub fn scalar_document(self, item: Scalar<String>) -> (r: DocumentRef)
        ensures
            r.root_view() == Some(Item::<Seq<char>, TableId>::Scalar(item@)),
            r.tables_view().len() == 0,
    {
        self.doc(Item::Scalar(item))
    }

    pub fn bool_document(self, b: bool) -> (r: DocumentRef)
        ensures
            r.root_view() == Some(Item::<Seq<char>, TableId>::Scalar(Scalar::Bool(b))),
            r.tables_view().len() == 0,
    {
        self.scalar_document(Scalar::Bool(b))
    }

    /// A document whose root is a number, given by the bits of its float.
    pub fn number_document(self, n: u32) -> (r: DocumentRef)
        ensures
            r.root_view() == Some(Item::<Seq<char>, TableId>::Scalar(Scalar::Number(n))),
            r.tables_view().len() == 0,
    {
        self.scalar_document(Scalar::Number(n))
    }

    pub fn idstring_document(self, id: u64) -> (r: DocumentRef)
        ensures
            r.root_view() == Some(Item::<Seq<char>, TableId>::Scalar(Scalar::IdString(id))),
            r.tables_view().len() == 0,
    {
        self.scalar_document(Scalar::IdString(id))
    }

    pub fn vector_document(self, v: Vec3Bits) -> (r: DocumentRef)
        ensures
            r.root_view() == Some(Item::<Seq<char>, TableId>::Scalar(Scalar::Vector(v))),
            r.tables_view().len() == 0,
    {
        self.scalar_document(Scalar::Vector(v))
    }

    pub fn quaternion_document(self, q: QuatBits) -> (r: DocumentRef)
        ensures
            r.root_view() == Some(Item::<Seq<char>, TableId>::Scalar(Scalar::Quaternion(q))),
            r.tables_view().len() == 0,
    {
        self.scalar_document(Scalar::Quaternion(q))
    }

    pub fn string_document(self, s: &str) -> (r: DocumentRef)
        ensures
            r.root_view() == Some(Item::<Seq<char>, TableId>::Scalar(Scalar::String(s@))),
            r.tables_view().len() == 0,
    {
        self.doc(Item::Scalar(Scalar::String(String::from_str(s))))
    }

    /// Adds a table and gives a writer for the first table, whose id is 0.
    pub fn table_document<'t>(&'t mut self) -> (r: (InteriorTableWriter<'t>, TableId))
        requires
            old(self).wf(),
        ensures
            r.1 == TableId(0),
            r.0.table == 0,
            r.0.root.wf(),
            r.0.root.tables_view().len() == old(self).tables_view().len() + 1,
            r.0.root.tables_view().drop_last() == old(self).tables_view(),
            is_empty_table(r.0.root.tables_view().last()),
            *final(self) == *final(r.0.root),
    {
        self.push_table();
        (InteriorTableWriter { root: self, table: 0 }, TableId(0))
    }

    /// The document: its root is the first table.
    pub fn finish(self) -> (r: DocumentRef)
        ensures
            r.root_view() == Some(Item::<Seq<char>, TableId>::Table(TableId(0))),
            r.tables_view() == self.tables_view(),
            self.wf() && self.tables_view().len() > 0 ==> r.wf(),
    {
        DocumentRef(Rc::new(DocumentData { root: Some(Item::Table(TableId(0))), tables: self.tables }))
    }
}

/// Writes the items of one table of a document being built.
pub struct InteriorTableWriter<'t> {
    pub root: &'t mut DocumentBuilder,
    pub table: usize,
}

/// Writes one item, under a key it was made for, into a table of a
/// document being built.
pub struct EntryWriter<'t> {
    pub root: &'t mut DocumentBuilder,
    pub table: usize,
    pub key: Key<String>,
}

impl<'t> InteriorTableWriter<'t> {
    /// The builder is well formed and has the table.
    pub open spec fn wf(&self) -> bool {
        &&& self.root.wf()
        &&& self.table < self.root.tables_view().len()
    }

    pub fn table_id(&self) -> (r: TableId)
        ensures
            r == TableId(self.table),
    {
        TableId(self.table)
    }

    /// Sets the name of the table's metatable.
    pub fn set_meta(&mut self, meta: Option<&str>)
        requires
            old(self).wf(),
        ensures
            final(self).table == old(self).table,
            final(self).wf(),
            *final(final(self).root) == *final(old(self).root),
            ({
                let before = old(self).root.tables_view();
                let after = final(self).root.tables_view();
                let t = old(self).table as int;
                &&& after.len() == before.len()
                &&& forall|j: int| 0 <= j < before.len() && j != t ==> after[j] == before[j]
                &&& after[t].meta_view() == match meta {
                    Some(m) => Some(m@),
                    None => None::<Seq<char>>,
                }
                &&& after[t].numeric_view() == before[t].numeric_view()
                &&& after[t].string_view() == before[t].string_view()
                &&& after[t].string_order() == before[t].string_order()
            }),
    {
        let m = match meta {
            Some(s) => Some(String::from_str(s)),
            None => None,
        };
        self.root.set_table_meta(self.table, m);
    }

    /// A writer for the item under integer key `idx`; an error if the table
    /// already has one.
    pub fn indexed(&mut self, idx: usize) -> (r: Result<EntryWriter<'_>, DuplicateKey>)
        requires
            old(self).wf(),
        ensures
            final(self).table == old(self).table,
            *final(final(self).root) == *final(old(self).root),
            old(self).root.tables_view()[old(self).table as int].numeric_view().contains_key(idx) ==> {
                &&& r matches Err(DuplicateKey(k)) && k@ == Key::<Seq<char>>::Index(idx)
                &&& *final(self).root == *old(self).root
            },
            !old(self).root.tables_view()[old(self).table as int].numeric_view().contains_key(idx) ==> {
                &&& r matches Ok(e) && e.table == old(self).table && e.key@ == Key::<Seq<char>>::Index(idx)
                    && *e.root == *old(self).root && *final(self).root == *final(e.root)
            },
    {
        let ghost n = self.root.tables_view().len() as int;
        proof {
            assert(self.root.tables_view()[self.table as int].ok(n));
        }
        if self.root.tables[self.table].contains(Key::Index(idx)) {
            return Err(DuplicateKey(Key::Index(idx)));
        }
        Ok(EntryWriter { root: self.root, table: self.table, key: Key::Index(idx) })
    }

    /// A writer for the item under string key `s` — of the document's first
    /// table, whichever table this writer is for; an error if this writer's
    /// table already has one.
    pub fn string_keyed(&mut self, s: &str) -> (r: Result<EntryWriter<'_>, DuplicateKey>)
        requires
            old(self).wf(),
        ensures
            final(self).table == old(self).table,
            *final(final(self).root) == *final(old(self).root),
            old(self).root.tables_view()[old(self).table as int].string_view().contains_key(s@) ==> {
                &&& r matches Err(DuplicateKey(k)) && k@ == Key::<Seq<char>>::String(s@)
                &&& *final(self).root == *old(self).root
            },
            !old(self).root.tables_view()[old(self).table as int].string_view().contains_key(s@) ==> {
                &&& r matches Ok(e) && e.table == 0 && e.key@ == Key::<Seq<char>>::String(s@)
                    && *e.root == *old(self).root && *final(self).root == *final(e.root)
            },
    {
        let ghost n = self.root.tables_view().len() as int;
        proof {
            assert(self.root.tables_view()[self.table as int].ok(n));
        }
        if self.root.tables[self.table].contains(Key::String(s)) {
            return Err(DuplicateKey(Key::String(String::from_str(s))));
        }
        Ok(EntryWriter { root: self.root, table: 0, key: Key::String(String::from_str(s)) })
    }

    /// `indexed` or `string_keyed`, by the kind of `key`.
    pub fn key(&mut self, key: Key<&str>) -> (r: Result<EntryWriter<'_>, DuplicateKey>)
        requires
            old(self).wf(),
        ensures
            final(self).table == old(self).table,
            *final(final(self).root) == *final(old(self).root),
            old(self).root.tables_view()[old(self).table as int].get_view(key@) is Some ==> {
                &&& r matches Err(DuplicateKey(k)) && k@ == key@
                &&& *final(self).root == *old(self).root
            },
            old(self).root.tables_view()[old(self).table as int].get_view(key@) is None ==> {
                &&& r matches Ok(e) && e.key@ == key@ && e.table == (if key is Index {
                    old(self).table
                } else {
                    0
                }) && *e.root == *old(self).root && *final(self).root == *final(e.root)
            },
    {
        match key {
            Key::Index(idx) => self.indexed(idx),
            Key::String(st) => self.string_keyed(st),
        }
    }
}

impl DocumentBuilder {
    /// Sets the metatable name of table `table`.
    fn set_table_meta(&mut self, table: usize, meta: Option<String>)
        requires
            old(self).wf(),
            table < old(self).tables_view().len(),
        ensures
            final(self).wf(),
            ({
                let before = old(self).tables_view();
                let after = final(self).tables_view();
                let t = table as int;
                &&& after.len() == before.len()
                &&& forall|j: int| 0 <= j < before.len() && j != t ==> after[j] == before[j]
                &&& after[t].meta_view() == match meta {
                    Some(m) => Some(m@),
                    None => None::<Seq<char>>,
                }
                &&& after[t].numeric_view() == before[t].numeric_view()
                &&& after[t].string_view() == before[t].string_view()
                &&& after[t].string_order() == before[t].string_order()
            }),
    {
        let ghost before = self.tables@;
        let ghost n = before.len() as int;
        assert(before[table as int].ok(n));
        self.tables[table].meta = meta;
        assert forall|j: int| 0 <= j < self.tables@.len() implies (#[trigger] self.tables@[j]).ok(n) by {
            if j != table {
                assert(self.tables@[j] == before[j]);
            }
        }
    }
}

impl<'t> EntryWriter<'t> {
    /// Puts `it` under the writer's key.
    pub fn scalar(self, it: Scalar<String>)
        requires
            old(self.root).wf(),
            self.table < old(self.root).tables_view().len(),
        ensures
            final(self.root).wf(),
            tables_put(
                old(self.root).tables_view(),
                final(self.root).tables_view(),
                self.table as int,
                self.key@,
                Item::Scalar(it@),
            ),
    {
        let EntryWriter { root, table, key } = self;
        root.put_item(table, key, Item::Scalar(it));
    }

    pub fn bool(self, it: bool)
        requires
            old(self.root).wf(),
            self.table < old(self.root).tables_view().len(),
        ensures
            final(self.root).wf(),
            tables_put(
                old(self.root).tables_view(),
                final(self.root).tables_view(),
                self.table as int,
                self.key@,
                Item::Scalar(Scalar::Bool(it)),
            ),
    {
        self.scalar(Scalar::Bool(it))
    }

    /// Puts a number, given by the bits of its float.
    pub fn number(self, it: u32)
        requires
            old(self.root).wf(),
            self.table < old(self.root).tables_view().len(),
        ensures
            final(self.root).wf(),
            tables_put(
                old(self.root).tables_view(),
                final(self.root).tables_view(),
                self.table as int,
                self.key@,
                Item::Scalar(Scalar::Number(it)),
            ),
    {
        self.scalar(Scalar::Number(it))
    }

    pub fn idstring(self, it: u64)
        requires
            old(self.root).wf(),
            self.table < old(self.root).tables_view().len(),
        ensures
            final(self.root).wf(),
            tables_put(
                old(self.root).tables_view(),
                final(self.root).tables_view(),
                self.table as int,
                self.key@,
                Item::Scalar(Scalar::IdString(it)),
            ),
    {
        self.scalar(Scalar::IdString(it))
    }

    pub fn vector(self, it: Vec3Bits)
        requires
            old(self.root).wf(),
            self.table < old(self.root).tables_view().len(),
        ensures
            final(self.root).wf(),
            tables_put(
                old(self.root).tables_view(),
                final(self.root).tables_view(),
                self.table as int,
                self.key@,
                Item::Scalar(Scalar::Vector(it)),
            ),
    {
        self.scalar(Scalar::Vector(it))
    }

    pub fn quaternion(self, it: QuatBits)
        requires
            old(self.root).wf(),
            self.table < old(self.root).tables_view().len(),
        ensures
            final(self.root).wf(),
            tables_put(
                old(self.root).tables_view(),
                final(self.root).tables_view(),
                self.table as int,
                self.key@,
                Item::Scalar(Scalar::Quaternion(it)),
            ),
    {
        self.scalar(Scalar::Quaternion(it))
    }

    pub fn string(self, it: &str)
        requires
            old(self.root).wf(),
            self.table < old(self.root).tables_view().len(),
        ensures
            final(self.root).wf(),
            tables_put(
                old(self.root).tables_view(),
                final(self.root).tables_view(),
                self.table as int,
                self.key@,
                Item::Scalar(Scalar::String(it@)),
            ),
    {
        self.scalar(Scalar::String(String::from_str(it)))
    }

    /// Adds a table at the end, puts it under the writer's key, and gives a
    /// writer for it.
    pub fn new_table(self) -> (r: (TableId, InteriorTableWriter<'t>))
        requires
            old(self.root).wf(),
            self.table < old(self.root).tables_view().len(),
        ensures
            ({
                let before = old(self.root).tables_view();
                let after = r.1.root.tables_view();
                &&& r.0 == TableId(before.len() as usize)
                &&& r.1.table == before.len()
                &&& r.1.wf()
                &&& after.len() == before.len() + 1
                &&& is_empty_table(after.last())
                &&& tables_put(
                    before,
                    after.drop_last(),
                    self.table as int,
                    self.key@,
                    Item::Table(TableId(before.len() as usize)),
                )
            }),
            *final(self.root) == *final(r.1.root),
    {
        let EntryWriter { root, table, key } = self;
        let tid = root.tables.len();
        let ghost before = root.tables_view();
        root.push_table();
        let ghost pushed = root.tables_view();
        root.put_item(table, key, Item::Table(TableId(tid)));
        assert(root.tables_view().drop_last() =~= pushed.drop_last().update(
            table as int,
            root.tables_view()[table as int],
        ));
        (TableId(tid), InteriorTableWriter { root, table: tid })
    }

    /// A writer for table `table`, which is not put under the writer's key;
    /// an error if there is no such table.
    pub fn resume_table(self, table: TableId) -> (r: Result<(TableId, InteriorTableWriter<'t>), DanglingTableId>)
        ensures
            table.0 >= old(self.root).tables_view().len() ==> (r matches Err(DanglingTableId(t))
                && t == table && *final(self.root) == *old(self.root)),
            table.0 < old(self.root).tables_view().len() ==> (r matches Ok((t, w)) && t == table
                && w.table == table.0 && *w.root == *old(self.root) && *final(self.root)
                == *final(w.root)),
    {
        let EntryWriter { root, table: _, key: _ } = self;
        if table.0 >= root.tables.len() {
            Err(DanglingTableId(table))
        } else {
            Ok((table, InteriorTableWriter { root, table: table.0 }))
        }
    }
}

/// A table gives back for a key the item last put under it, and putting an
/// item under one key leaves what the others give unchanged.
pub proof fn lemma_put_then_get(
    before: TableData,
    after: TableData,
    k: Key<Seq<char>>,
    it: ItemView,
    other: Key<Seq<char>>,
)
    requires
        table_put(before, after, k, it),
    ensures
        after.get_view(k) == Some(it),
        other != k ==> after.get_view(other) == before.get_view(other),
{
}

/// In a document built with items put in its tables, each table gives back
/// for a key the item last put under it there.
pub proof fn lemma_document_reads_writes(
    before: Seq<TableData>,
    after: Seq<TableData>,
    t: int,
    k: Key<Seq<char>>,
    it: ItemView,
    u: int,
    other: Key<Seq<char>>,
)
    requires
        tables_put(before, after, t, k, it),
        0 <= u < before.len(),
    ensures
        after[t].get_view(k) == Some(it),
        (u != t || other != k) ==> after[u].get_view(other) == before[u].get_view(other),
{
}

} // verus!
