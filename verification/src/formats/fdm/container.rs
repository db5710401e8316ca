//! The section container that models are stored in: sections by id, kept in
//! the order they were added.
use vstd::prelude::*;
use std::collections::HashMap;
use std::collections::hash_map::Entry;
use crate::read_helpers::{le_u32, take_u32, take_bytes, push_u32_le, u32_le_bytes, lemma_le_u32_at};
use super::sections::{body_check, check_body};

verus! {

/// A section of a model, kept as its type tag and its undecoded bytes.
pub struct Section {
    pub tag: u32,
    pub data: Vec<u8>,
}

/// A section as plain values: its tag and its bytes.
pub open spec fn section_view(s: Section) -> (u32, Seq<u8>) {
    (s.tag, s.data@)
}

/// Sections by id, in the order they were added.
pub struct DieselContainer {
    sections: HashMap<u32, Box<Section>>,
    section_order: Vec<u32>,
    next_id: u32,
}

/// The id that `push` starts looking from in a new container.
pub const FIRST_PUSHED_ID: u32 = 1000;

impl DieselContainer {
    /// The sections by id.
    pub closed spec fn map(&self) -> Map<u32, Section> {
        Map::new(|k: u32| self.sections@.contains_key(k), |k: u32| *self.sections@[k])
    }

    /// The ids in the order the sections were added.
    pub closed spec fn order(&self) -> Seq<u32> {
        self.section_order@
    }

    /// Where `push` looks for a free id first.
    pub closed spec fn next(&self) -> u32 {
        self.next_id
    }

    /// The order lists each id of the map exactly once.
    pub open spec fn wf(&self) -> bool {
        &&& self.order().no_duplicates()
        &&& forall|k: u32| #[trigger] self.map().contains_key(k) <==> self.order().contains(k)
    }

    /// An empty container.
    pub fn new() -> (r: Self)
        ensures
            r.wf(),
            r.map() == Map::<u32, Section>::empty(),
            r.order() == Seq::<u32>::empty(),
            r.next() == FIRST_PUSHED_ID,
    {
        let r = DieselContainer {
            sections: HashMap::new(),
            section_order: Vec::new(),
            next_id: FIRST_PUSHED_ID,
        };
        assert(r.map() =~= Map::<u32, Section>::empty());
        r
    }

    /// An empty container with room for `capacity` sections.
    pub fn with_capacity(capacity: usize) -> (r: Self)
        ensures
            r.wf(),
            r.map() == Map::<u32, Section>::empty(),
            r.order() == Seq::<u32>::empty(),
            r.next() == FIRST_PUSHED_ID,
    {
        let r = DieselContainer {
            sections: HashMap::with_capacity(capacity),
            section_order: Vec::with_capacity(capacity),
            next_id: FIRST_PUSHED_ID,
        };
        assert(r.map() =~= Map::<u32, Section>::empty());
        r
    }

    /// The section with id `id`.
    pub fn get(&self, id: u32) -> (r: Option<&Section>)
        ensures
            match r {
                Some(s) => self.map().contains_key(id) && *s == self.map()[id],
                None => !self.map().contains_key(id),
            },
    {
        match self.sections.get(&id) {
            Some(b) => Some(&**b),
            None => None,
        }
    }

    /// The section with id `id`, to change in place.
    pub fn get_mut(&mut self, id: u32) -> (r: Option<&mut Section>)
        ensures
            final(self).order() == old(self).order(),
            final(self).next() == old(self).next(),
            match r {
                Some(s) => old(self).map().contains_key(id) && *s == old(self).map()[id]
                    && final(self).map() == old(self).map().insert(id, *final(s)),
                None => !old(self).map().contains_key(id) && final(self).map() == old(self).map(),
            },
    {
        match self.sections.entry(id) {
            Entry::Occupied(oe) => {
                let b: &mut Box<Section> = oe.into_mut();
                Some(&mut **b)
            },
            Entry::Vacant(_) => None,
        }
    }
}

impl DieselContainer {
    /// Stores `sec` under `id`. A section already there is replaced and
    /// returned, keeping its place in the order; a new id goes last.
    pub fn insert(&mut self, id: u32, sec: Section) -> (r: Option<Box<Section>>)
        requires
            old(self).wf(),
        ensures
            final(self).wf(),
            final(self).map() == old(self).map().insert(id, sec),
            final(self).next() == old(self).next(),
            match r {
                Some(prev) => old(self).map().contains_key(id) && *prev == old(self).map()[id]
                    && final(self).order() == old(self).order(),
                None => !old(self).map().contains_key(id) && final(self).order() == old(
                    self,
                ).order().push(id),
            },
    {
        let s = self.sections.insert(id, Box::new(sec));
        assert(old(self).map().contains_key(id) == old(self).order().contains(id));
        if s.is_some() {
            assert(self.map() =~= old(self).map().insert(id, sec));
            assert forall|k: u32| #[trigger] self.map().contains_key(k) <==> self.order().contains(k) by {
                assert(old(self).map().contains_key(k) == old(self).order().contains(k));
            }
            return s;
        } else {
            self.section_order.push(id);
            assert(self.map() =~= old(self).map().insert(id, sec));
            proof {
                assert(!old(self).order().contains(id));
                assert forall|k: u32| #[trigger] self.map().contains_key(k) <==> self.order().contains(k) by {
                    if k != id {
                        assert(old(self).map().contains_key(k) == old(self).order().contains(k));
                        if old(self).order().contains(k) {
                            let j = choose|j: int| 0 <= j < old(self).order().len() && old(self).order()[j] == k;
                            assert(self.order()[j] == k);
                        }
                        if self.order().contains(k) {
                            let j = choose|j: int| 0 <= j < self.order().len() && self.order()[j] == k;
                            assert(old(self).order()[j] == k);
                        }
                    } else {
                        assert(self.order()[self.order().len() - 1] == id);
                    }
                }
            }
            return None;
        }
    }

    /// Stores `sec` under the first free id from the next one on, and
    /// returns that id.
    pub fn push(&mut self, sec: Section) -> (r: u32)
        requires
            old(self).wf(),
            exists|k: u32| old(self).next() <= k && !#[trigger] old(self).map().contains_key(k),
        ensures
            final(self).wf(),
            !old(self).map().contains_key(r),
            old(self).next() <= r,
            forall|k: u32| old(self).next() <= k < r ==> #[trigger] old(self).map().contains_key(k),
            final(self).map() == old(self).map().insert(r, sec),
            final(self).order() == old(self).order().push(r),
            final(self).next() == r,
    {
        let ghost free = choose|k: u32| old(self).next() <= k && !#[trigger] old(self).map().contains_key(k);
        while self.sections.contains_key(&self.next_id)
            invariant
                old(self).next() <= self.next_id <= free,
                !old(self).map().contains_key(free),
                self.map() == old(self).map(),
                self.order() == old(self).order(),
                forall|k: u32| old(self).next() <= k < self.next_id ==> #[trigger] old(self).map().contains_key(k),
            decreases free - self.next_id,
        {
            self.next_id += 1;
        }
        let id = self.next_id;
        let prev = self.insert(id, sec);
        id
    }

    /// Takes out the section with id `sid`, if there is one.
    pub fn remove(&mut self, sid: u32) -> (r: Option<Box<Section>>)
        requires
            old(self).wf(),
        ensures
            final(self).wf(),
            final(self).next() == old(self).next(),
            final(self).map() == old(self).map().remove(sid),
            match r {
                Some(sec) => old(self).map().contains_key(sid) && *sec == old(self).map()[sid]
                    && final(self).order() == old(self).order().remove(
                    old(self).order().index_of(sid),
                ),
                None => !old(self).map().contains_key(sid) && final(self).order() == old(
                    self,
                ).order(),
            },
    {
        let sec = match self.sections.remove(&sid) {
            Some(s) => s,
            None => {
                assert(self.map() =~= old(self).map().remove(sid));
                return None;
            },
        };
        let n = self.section_order.len();
        let mut pos: usize = 0;
        assert(old(self).map().contains_key(sid) == old(self).order().contains(sid));
        assert(old(self).order().contains(sid));
        while self.section_order[pos] != sid
            invariant
                n == self.order().len(),
                self.order() == old(self).order(),
                pos < n,
                self.order().contains(sid),
                forall|j: int| 0 <= j < pos ==> self.order()[j] != sid,
            decreases n - pos,
        {
            pos += 1;
            proof {
                if pos == n {
                    let j = choose|j: int| 0 <= j < self.order().len() && self.order()[j] == sid;
                    assert(self.order()[j] != sid);
                }
            }
        }
        proof {
            old(self).order().index_of_first(sid);
            assert(old(self).order().index_of(sid) == pos) by {
                let i = old(self).order().index_of(sid);
                assert(old(self).order()[i] == sid);
                assert(old(self).order().no_duplicates());
            }
        }
        self.section_order.remove(pos);
        assert(self.map() =~= old(self).map().remove(sid));
        proof {
            let o = old(self).order();
            assert forall|k: u32| #[trigger] self.map().contains_key(k) <==> self.order().contains(k) by {
                assert(old(self).map().contains_key(k) == old(self).order().contains(k));
                if self.order().contains(k) {
                    let j = choose|j: int| 0 <= j < self.order().len() && self.order()[j] == k;
                    if j < pos {
                        assert(o[j] == k);
                    } else {
                        assert(o[j + 1] == k);
                    }
                }
                if self.map().contains_key(k) {
                    assert(o.contains(k));
                    let j = choose|j: int| 0 <= j < o.len() && o[j] == k;
                    if j < pos {
                        assert(self.order()[j] == k);
                    } else {
                        assert(j != pos);
                        assert(self.order()[j - 1] == k);
                    }
                }
            }
        }
        Some(sec)
    }
}

/// Why reading or writing a binary item failed.
#[derive(Debug)]
pub enum ReadError {
    /// The input ended in the middle of an item.
    UnexpectedEof,
    /// A tag that names no variant of the named type.
    BadDiscriminant(&'static str, u128),
    /// The input is well formed but breaks a rule of the format.
    Schema(&'static str),
    /// A count too large for its field on the wire.
    TooManyItems(usize, &'static str, &'static str),
}

/// The type tags of the known section types.
pub const SECTION_TAGS: [u32; 45] = [
    0x0ffcd100, 0x33552583, 0x62212d88, 0x7623c465, 0x7ab072d3, 0x072b4d37, 0x2c5d6201,
    0x1d0b1808, 0x3c54609c, 0x29276b1d, 0x2c1f096f, 0x5ed2532f, 0xe3a3b1ca, 0x65cc1825,
    0x4c507a13, 0x03b634bd, 0x46bf31a7, 0xffa13b80, 0x2060697e, 0x6da951b2, 0x76bf5b66,
    0x29743550, 0x5b0168d0, 0x544e238f, 0x26a5128c, 0x28db639a, 0x33da0fc4, 0x2e540f3c,
    0x033606e8, 0x007fb371, 0x648a206c, 0x197345a5, 0x22126dc0, 0x679d695b, 0x3d756e0c,
    0xf6c1eef7, 0xdd41d329, 0x95bb08f7, 0x5dc011b8, 0x74f7363f, 0x186a8bbf, 0x7f3552d1,
    0x214b1aaf, 0x12812c1a, 0x7c7844fd,
];

/// Whether `t` is the tag of a known section type.
pub open spec fn is_section_tag(t: u32) -> bool {
    SECTION_TAGS@.contains(t)
}

/// Whether `t` is the tag of a known section type.
pub fn section_tag_known(t: u32) -> (r: bool)
    ensures
        r == is_section_tag(t),
{
    let mut i: usize = 0;
    while i < 45
        invariant
            i <= 45,
            forall|j: int| 0 <= j < i ==> SECTION_TAGS@[j] != t,
        decreases 45 - i,
    {
        if SECTION_TAGS[i] == t {
            return true;
        }
        i += 1;
    }
    false
}

/// A section on the wire: tag, id and bytes.
pub type WireSection = (u32, u32, Seq<u8>);

/// The file header: the section count, the length word, and where the
/// sections start. A first word of `0xFFFFFFFF` means the count follows the
/// length.
pub open spec fn fdm_header(b: Seq<u8>) -> Option<(u32, u32, int)> {
    if b.len() < 8 {
        None
    } else if le_u32(b, 0) != 0xFFFFFFFF {
        Some((le_u32(b, 0), le_u32(b, 4), 8))
    } else if b.len() < 12 {
        None
    } else {
        Some((le_u32(b, 8), le_u32(b, 4), 12))
    }
}

/// The section record at `pos`: a known tag, an id, a byte count and the
/// bytes, which must hold the fields of a section of that type. Gives the
/// section and where it ends.
pub open spec fn record_at(b: Seq<u8>, pos: int) -> Result<(WireSection, int), ReadError> {
    if pos + 4 > b.len() {
        Err(ReadError::UnexpectedEof)
    } else if !is_section_tag(le_u32(b, pos)) {
        Err(ReadError::BadDiscriminant("SectionType", le_u32(b, pos) as u128))
    } else if pos + 12 > b.len() || pos + 12 + le_u32(b, pos + 8) > b.len() {
        Err(ReadError::UnexpectedEof)
    } else {
        let end = pos + 12 + le_u32(b, pos + 8);
        match body_check(le_u32(b, pos), b.subrange(pos + 12, end)) {
            Err(e) => Err(e),
            Ok(_) => Ok(((le_u32(b, pos), le_u32(b, pos + 4), b.subrange(pos + 12, end)), end)),
        }
    }
}

/// Reads `remaining` more sections from `pos`, after those in `acc`; no id
/// may occur twice. Gives the sections and where they end.
#[verifier::opaque]
pub open spec fn parse_sections(b: Seq<u8>, pos: int, remaining: nat, acc: Seq<WireSection>) -> Result<
    (Seq<WireSection>, int),
    ReadError,
>
    decreases remaining,
{
    if remaining == 0 {
        Ok((acc, pos))
    } else {
        match record_at(b, pos) {
            Err(e) => Err(e),
            Ok((s, end)) => if acc.map_values(|w: WireSection| w.1).contains(s.1) {
                Err(ReadError::Schema("Multiple sections with the same ID"))
            } else {
                parse_sections(b, end, (remaining - 1) as nat, acc.push(s))
            },
        }
    }
}

/// One step of `parse_sections`.
pub proof fn lemma_parse_sections_step(b: Seq<u8>, pos: int, remaining: nat, acc: Seq<WireSection>)
    ensures
        parse_sections(b, pos, remaining, acc) == if remaining == 0 {
            Ok((acc, pos))
        } else {
            match record_at(b, pos) {
                Err(e) => Err(e),
                Ok((s, end)) => if acc.map_values(|w: WireSection| w.1).contains(s.1) {
                    Err(ReadError::Schema("Multiple sections with the same ID"))
                } else {
                    parse_sections(b, end, (remaining - 1) as nat, acc.push(s))
                },
            }
        },
{
    reveal(parse_sections);
}

/// Reads one section record off the front of `input`, which is what is
/// left of `b` from `pos` on.
fn read_record(input: &mut &[u8], Ghost(b): Ghost<Seq<u8>>, Ghost(pos): Ghost<int>) -> (r: Result<
    (u32, u32, Vec<u8>),
    ReadError,
>)
    requires
        0 <= pos <= b.len(),
        old(input)@ == b.subrange(pos, b.len() as int),
    ensures
        match r {
            Ok((tag, id, data)) => record_at(b, pos) matches Ok((s, end)) && s == (tag, id, data@)
                && final(input)@ == b.subrange(end, b.len() as int),
            Err(e) => record_at(b, pos) == Err::<(WireSection, int), ReadError>(e),
        },
{
    let tag = match take_u32(input) {
        Some(v) => v,
        None => return Err(ReadError::UnexpectedEof),
    };
    assert(le_u32(b, pos) == tag) by {
        assert(le_u32(b.subrange(pos, b.len() as int), 0) == le_u32(b, pos));
    }
    if !section_tag_known(tag) {
        return Err(ReadError::BadDiscriminant("SectionType", tag as u128));
    }
    let id = match take_u32(input) {
        Some(v) => v,
        None => return Err(ReadError::UnexpectedEof),
    };
    let size = match take_u32(input) {
        Some(v) => v,
        None => return Err(ReadError::UnexpectedEof),
    };
    assert(le_u32(b, pos + 4) == id) by {
        assert(le_u32(b.subrange(pos + 4, b.len() as int), 0) == le_u32(b, pos + 4));
    }
    assert(le_u32(b, pos + 8) == size) by {
        assert(le_u32(b.subrange(pos + 8, b.len() as int), 0) == le_u32(b, pos + 8));
    }
    let data = match take_bytes(input, size as usize) {
        Some(v) => v,
        None => return Err(ReadError::UnexpectedEof),
    };
    assert(data@ =~= b.subrange(pos + 12, pos + 12 + size));
    assert(input@ =~= b.subrange(pos + 12 + size, b.len() as int));
    match check_body(tag, data.as_slice()) {
        Err(e) => return Err(e),
        Ok(_) => {},
    }
    Ok((tag, id, data))
}

/// What reading a model's container from `b` gives: its sections in file
/// order and the number of bytes read.
pub open spec fn spec_parse_fdm(b: Seq<u8>) -> Result<(Seq<WireSection>, int), ReadError> {
    match fdm_header(b) {
        None => Err(ReadError::UnexpectedEof),
        Some((count, _, pos)) => parse_sections(b, pos, count as nat, Seq::empty()),
    }
}

impl DieselContainer {
    /// The sections as wire tuples, in order.
    pub open spec fn wire_sections(&self) -> Seq<WireSection> {
        self.order().map_values(|id: u32| (self.map()[id].tag, id, self.map()[id].data@))
    }

    /// The sections with their ids, in order.
    pub fn iter(&self) -> (r: Vec<(u32, &Section)>)
        requires
            self.wf(),
        ensures
            r@.len() == self.order().len(),
            forall|i: int|
                0 <= i < r@.len() ==> #[trigger] r@[i].0 == self.order()[i] && *r@[i].1
                    == self.map()[self.order()[i]],
    {
        let mut out: Vec<(u32, &Section)> = Vec::new();
        let n = self.section_order.len();
        let mut i: usize = 0;
        while i < n
            invariant
                n == self.order().len(),
                self.wf(),
                i <= n,
                out@.len() == i,
                forall|j: int|
                    0 <= j < i ==> #[trigger] out@[j].0 == self.order()[j] && *out@[j].1
                        == self.map()[self.order()[j]],
            decreases n - i,
        {
            let id = self.section_order[i];
            assert(self.order().contains(id));
            assert(self.map().contains_key(id));
            let s = self.get(id).unwrap();
            out.push((id, s));
            i += 1;
        }
        out
    }

    /// The section with id `id` if it is of the type with tag `tag`.
    pub fn get_as(&self, id: u32, tag: u32) -> (r: Option<&Section>)
        ensures
            match r {
                Some(s) => self.map().contains_key(id) && *s == self.map()[id] && s.tag == tag,
                None => !self.map().contains_key(id) || self.map()[id].tag != tag,
            },
    {
        match self.get(id) {
            Some(s) => if s.tag == tag {
                Some(s)
            } else {
                None
            },
            None => None,
        }
    }

    /// The section with id `id`, which must be there.
    pub fn index(&self, id: u32) -> (r: &Section)
        requires
            self.map().contains_key(id),
        ensures
            *r == self.map()[id],
    {
        self.get(id).unwrap()
    }
}

impl Default for DieselContainer {
    fn default() -> (r: Self)
        ensures
            r.wf(),
            r.map() == Map::<u32, Section>::empty(),
            r.order() == Seq::<u32>::empty(),
            r.next() == FIRST_PUSHED_ID,
    {
        DieselContainer::new()
    }
}

impl DieselContainer {
    proof fn lemma_wire_ids(&self)
        requires
            self.wf(),
        ensures
            self.wire_sections().map_values(|s: WireSection| s.1) == self.order(),
            forall|id: u32|
                self.wire_sections().map_values(|s: WireSection| s.1).contains(id)
                    == #[trigger] self.map().contains_key(id),
    {
        assert(self.wire_sections().map_values(|s: WireSection| s.1) =~= self.order());
    }
}

/// Reads a model's section container, as `read_from_stream` does: the
/// header, then each section's tag, id and bytes. The tags must be known
/// and the ids distinct.
pub fn parse_stream(input: &mut &[u8]) -> (r: Result<DieselContainer, ReadError>)
    ensures
        match r {
            Ok(c) => spec_parse_fdm(old(input)@) matches Ok((secs, end)) && c.wf()
                && c.wire_sections() == secs && final(input)@ == old(input)@.subrange(
                end,
                old(input)@.len() as int,
            ),
            Err(e) => spec_parse_fdm(old(input)@) == Err::<(Seq<WireSection>, int), ReadError>(e),
        },
{
    let ghost b = input@;
    let (section_count, _) = match read_fdm_header(input) {
        Ok(h) => h,
        Err(e) => return Err(e),
    };
    let ghost start = b.len() - input@.len();
    let mut out = DieselContainer::with_capacity(section_count as usize);
    assert(out.wire_sections() =~= Seq::<WireSection>::empty());
    let mut k: u32 = 0;
    while k < section_count
        invariant
            k <= section_count,
            b == old(input)@,
            fdm_header(b) matches Some((c, _, p)) && c == section_count && p == start,
            out.wf(),
            input@.len() <= b.len(),
            input@ == b.subrange(b.len() - input@.len(), b.len() as int),
            parse_sections(b, start, section_count as nat, Seq::empty()) == parse_sections(
                b,
                b.len() - input@.len(),
                (section_count - k) as nat,
                out.wire_sections(),
            ),
        decreases section_count - k,
    {
        let ghost pos = b.len() - input@.len();
        let ghost acc = out.wire_sections();
        proof {
            out.lemma_wire_ids();
            lemma_parse_sections_step(b, pos, (section_count - k) as nat, acc);
        }
        let (tag, id, data) = match read_record(input, Ghost(b), Ghost(pos)) {
            Ok(rec) => rec,
            Err(e) => {
                assert(parse_sections(b, pos, (section_count - k) as nat, acc) == Err::<
                    (Seq<WireSection>, int),
                    ReadError,
                >(e));
                assert(spec_parse_fdm(b) == Err::<(Seq<WireSection>, int), ReadError>(e));
                return Err(e);
            },
        };
        let ghost ws: WireSection = (tag, id, data@);
        let sec = Section { tag, data };
        let prev = out.insert(id, sec);
        if prev.is_some() {
            return Err(ReadError::Schema("Multiple sections with the same ID"));
        }
        proof {
            assert(out.wire_sections() =~= acc.push(ws)) by {
                assert forall|j: int| 0 <= j < acc.len() implies #[trigger] out.wire_sections()[j] == acc[j] by {
                    assert(out.order()[j] != id);
                }
            }
        }
        k += 1;
    }
    assert(input@ =~= b.subrange(b.len() - input@.len(), b.len() as int));
    proof {
        lemma_parse_sections_step(b, b.len() - input@.len(), 0, out.wire_sections());
    }
    Ok(out)
}

/// A section as written: tag, id, byte count, bytes.
pub open spec fn wire_bytes(s: WireSection) -> Seq<u8> {
    u32_le_bytes(s.0) + u32_le_bytes(s.1) + u32_le_bytes(s.2.len() as u32) + s.2
}

/// The sections as written, one after the other.
pub open spec fn sections_bytes(secs: Seq<WireSection>) -> Seq<u8>
    decreases secs.len(),
{
    if secs.len() == 0 {
        Seq::empty()
    } else {
        sections_bytes(secs.drop_last()) + wire_bytes(secs.last())
    }
}

/// The total byte count of the sections' data.
pub open spec fn data_total(secs: Seq<WireSection>) -> int
    decreases secs.len(),
{
    if secs.len() == 0 {
        0
    } else {
        data_total(secs.drop_last()) + secs.last().2.len()
    }
}

/// What `write_to_stream` writes: the section count, the data total plus
/// eight, then the sections.
pub open spec fn spec_serialize(secs: Seq<WireSection>) -> Seq<u8> {
    u32_le_bytes(secs.len() as u32) + u32_le_bytes((data_total(secs) + 8) as u32) + sections_bytes(
        secs,
    )
}

proof fn lemma_data_total_prefix(secs: Seq<WireSection>, k: int)
    requires
        0 <= k <= secs.len(),
    ensures
        0 <= data_total(secs.take(k)) <= data_total(secs),
        forall|j: int| 0 <= j < k ==> #[trigger] secs[j].2.len() <= data_total(secs.take(k)),
    decreases secs.len(),
{
    if secs.len() > 0 {
        if k == secs.len() {
            assert(secs.take(k) =~= secs);
            lemma_data_total_prefix(secs.drop_last(), k - 1);
            assert(secs.drop_last().take(k - 1) =~= secs.drop_last());
            assert forall|j: int| 0 <= j < k implies #[trigger] secs[j].2.len() <= data_total(secs.take(k)) by {
                if j < k - 1 {
                    assert(secs.drop_last()[j] == secs[j]);
                }
            }
        } else {
            lemma_data_total_prefix(secs.drop_last(), k);
            assert(secs.drop_last().take(k) =~= secs.take(k));
            assert forall|j: int| 0 <= j < k implies #[trigger] secs[j].2.len() <= data_total(secs.take(k)) by {
                assert(secs.drop_last()[j] == secs[j]);
            }
        }
    } else {
        assert(secs.take(k) =~= secs);
    }
}

impl DieselContainer {
    /// Writes the container: the header, then each section in order.
    pub fn write_to_stream(stream: &mut Vec<u8>, item: &Self) -> (r: Result<(), ReadError>)
        requires
            item.wf(),
            item.order().len() <= u32::MAX,
            data_total(item.wire_sections()) + 8 <= u32::MAX,
        ensures
            r is Ok,
            final(stream)@ == old(stream)@ + spec_serialize(item.wire_sections()),
    {
        let ghost secs = item.wire_sections();
        let n = item.section_order.len();
        let mut total: usize = 0;
        let mut i: usize = 0;
        proof {
            lemma_data_total_prefix(secs, n as int);
            assert(secs.take(n as int) =~= secs);
        }
        while i < n
            invariant
                n == secs.len(),
                n == item.order().len(),
                i <= n,
                item.wf(),
                secs == item.wire_sections(),
                total == data_total(secs.take(i as int)),
                data_total(secs) + 8 <= u32::MAX,
            decreases n - i,
        {
            let id = item.section_order[i];
            assert(item.order().contains(id));
            assert(item.map().contains_key(id));
            let sec = item.get(id).unwrap();
            proof {
                assert(secs.take(i + 1).drop_last() =~= secs.take(i as int));
                lemma_data_total_prefix(secs, i + 1);
            }
            total = total + sec.data.len();
            i += 1;
        }
        push_u32_le(stream, n as u32);
        push_u32_le(stream, (total + 8) as u32);
        let ghost head = stream@;
        let mut i: usize = 0;
        assert(secs.take(0) =~= Seq::<WireSection>::empty());
        while i < n
            invariant
                n == secs.len(),
                n == item.order().len(),
                i <= n,
                item.wf(),
                secs == item.wire_sections(),
                data_total(secs) + 8 <= u32::MAX,
                stream@ == head + sections_bytes(secs.take(i as int)),
            decreases n - i,
        {
            let id = item.section_order[i];
            assert(item.order().contains(id));
            assert(item.map().contains_key(id));
            let sec = item.get(id).unwrap();
            proof {
                lemma_data_total_prefix(secs, n as int);
                assert(secs.take(n as int) =~= secs);
            }
            push_u32_le(stream, sec.tag);
            push_u32_le(stream, id);
            push_u32_le(stream, sec.data.len() as u32);
            stream.extend_from_slice(sec.data.as_slice());
            proof {
                assert(secs.take(i + 1).drop_last() =~= secs.take(i as int));
                assert(secs[i as int] == (sec.tag, id, sec.data@));
                assert(stream@ =~= head + sections_bytes(secs.take(i + 1)));
            }
            i += 1;
        }
        assert(secs.take(n as int) =~= secs);
        assert(stream@ =~= old(stream)@ + spec_serialize(secs));
        Ok(())
    }
}

proof fn lemma_sections_bytes_prefix(secs: Seq<WireSection>, k: int)
    requires
        0 <= k <= secs.len(),
    ensures
        sections_bytes(secs.take(k)).len() <= sections_bytes(secs).len(),
        sections_bytes(secs).subrange(0, sections_bytes(secs.take(k)).len() as int)
            == sections_bytes(secs.take(k)),
    decreases secs.len(),
{
    if k == secs.len() {
        assert(secs.take(k) =~= secs);
        assert(sections_bytes(secs).subrange(0, sections_bytes(secs).len() as int) =~= sections_bytes(
            secs,
        ));
    } else {
        lemma_sections_bytes_prefix(secs.drop_last(), k);
        assert(secs.drop_last().take(k) =~= secs.take(k));
        let p = sections_bytes(secs.take(k));
        let d = sections_bytes(secs.drop_last());
        assert(sections_bytes(secs) == d + wire_bytes(secs.last()));
        assert((d + wire_bytes(secs.last())).subrange(0, p.len() as int) =~= d.subrange(
            0,
            p.len() as int,
        ));
    }
}

proof fn lemma_record_in_serialized(secs: Seq<WireSection>, k: int)
    requires
        0 <= k < secs.len(),
        data_total(secs) + 8 <= u32::MAX,
        is_section_tag(secs[k].0),
        body_check(secs[k].0, secs[k].2) is Ok,
    ensures
        ({
            let b = spec_serialize(secs);
            let pos: int = 8 + sections_bytes(secs.take(k)).len() as int;
            record_at(b, pos) == Ok::<(WireSection, int), ReadError>(
                (secs[k], 8 + sections_bytes(secs.take(k + 1)).len() as int),
            )
        }),
{
    let b = spec_serialize(secs);
    let h = u32_le_bytes(secs.len() as u32) + u32_le_bytes((data_total(secs) + 8) as u32);
    assert(h.len() == 8);
    let p = sections_bytes(secs.take(k));
    let w = wire_bytes(secs[k]);
    assert(secs.take(k + 1).drop_last() =~= secs.take(k));
    assert(sections_bytes(secs.take(k + 1)) == p + w);
    lemma_sections_bytes_prefix(secs, k + 1);
    let pw = p + w;
    assert(b.subrange(0, 8 + pw.len() as int) =~= h + pw) by {
        assert(sections_bytes(secs).subrange(0, pw.len() as int) == pw);
    }
    let pos: int = 8 + p.len() as int;
    lemma_data_total_prefix(secs, secs.len() as int);
    assert(secs.take(secs.len() as int) =~= secs);
    let len: int = secs[k].2.len() as int;
    assert(len <= u32::MAX);
    assert(w.len() == 12 + len);
    assert(b.subrange(pos, pos + 4) =~= u32_le_bytes(secs[k].0)) by {
        assert(b.subrange(pos, pos + 4) =~= (h + pw).subrange(pos, pos + 4));
    }
    assert(b.subrange(pos + 4, pos + 8) =~= u32_le_bytes(secs[k].1)) by {
        assert(b.subrange(pos + 4, pos + 8) =~= (h + pw).subrange(pos + 4, pos + 8));
    }
    assert(b.subrange(pos + 8, pos + 12) =~= u32_le_bytes(len as u32)) by {
        assert(b.subrange(pos + 8, pos + 12) =~= (h + pw).subrange(pos + 8, pos + 12));
    }
    lemma_le_u32_at(b, pos, secs[k].0);
    lemma_le_u32_at(b, pos + 4, secs[k].1);
    lemma_le_u32_at(b, pos + 8, len as u32);
    assert(b.subrange(pos + 12, pos + 12 + len) =~= secs[k].2) by {
        assert(b.subrange(pos + 12, pos + 12 + len) =~= (h + pw).subrange(pos + 12, pos + 12 + len));
    }
}

proof fn lemma_parse_serialized_from(secs: Seq<WireSection>, k: int)
    requires
        0 <= k <= secs.len(),
        data_total(secs) + 8 <= u32::MAX,
        forall|i: int| 0 <= i < secs.len() ==> is_section_tag(#[trigger] secs[i].0),
        forall|i: int| 0 <= i < secs.len() ==> (#[trigger] body_check(secs[i].0, secs[i].2)) is Ok,
        secs.map_values(|w: WireSection| w.1).no_duplicates(),
    ensures
        parse_sections(
            spec_serialize(secs),
            8 + sections_bytes(secs.take(k)).len() as int,
            (secs.len() - k) as nat,
            secs.take(k),
        ) == Ok::<(Seq<WireSection>, int), ReadError>((secs, spec_serialize(secs).len() as int)),
    decreases secs.len() - k,
{
    let b = spec_serialize(secs);
    let pos: int = 8 + sections_bytes(secs.take(k)).len() as int;
    lemma_parse_sections_step(b, pos, (secs.len() - k) as nat, secs.take(k));
    if k == secs.len() {
        assert(secs.take(k) =~= secs);
    } else {
        lemma_record_in_serialized(secs, k);
        let ids = secs.map_values(|w: WireSection| w.1);
        assert(secs.take(k).map_values(|w: WireSection| w.1) =~= ids.take(k));
        assert(!ids.take(k).contains(secs[k].1)) by {
            if ids.take(k).contains(secs[k].1) {
                let j = choose|j: int| 0 <= j < k && ids.take(k)[j] == secs[k].1;
                assert(ids[j] == ids[k]);
            }
        }
        assert(secs.take(k).push(secs[k]) =~= secs.take(k + 1));
        lemma_parse_serialized_from(secs, k + 1);
    }
}

/// Reading back what `write_to_stream` wrote gives the same sections, in the
/// same order, and reads all of it, when each section's bytes hold the
/// fields of its type.
pub proof fn lemma_parse_inverts_serialize(secs: Seq<WireSection>)
    requires
        secs.len() < 0xFFFFFFFF,
        data_total(secs) + 8 <= u32::MAX,
        forall|i: int| 0 <= i < secs.len() ==> is_section_tag(#[trigger] secs[i].0),
        forall|i: int| 0 <= i < secs.len() ==> (#[trigger] body_check(secs[i].0, secs[i].2)) is Ok,
        secs.map_values(|w: WireSection| w.1).no_duplicates(),
    ensures
        spec_parse_fdm(spec_serialize(secs)) == Ok::<(Seq<WireSection>, int), ReadError>(
            (secs, spec_serialize(secs).len() as int),
        ),
{
    let b = spec_serialize(secs);
    let h = u32_le_bytes(secs.len() as u32) + u32_le_bytes((data_total(secs) + 8) as u32);
    assert(b.subrange(0, 4) =~= u32_le_bytes(secs.len() as u32));
    lemma_le_u32_at(b, 0, secs.len() as u32);
    assert(secs.take(0) =~= Seq::<WireSection>::empty());
    lemma_parse_serialized_from(secs, 0);
}

/// A container's own sections are written with distinct ids.
pub proof fn lemma_container_ids_distinct(c: &DieselContainer)
    requires
        c.wf(),
    ensures
        c.wire_sections().map_values(|w: WireSection| w.1).no_duplicates(),
{
    assert(c.wire_sections().map_values(|w: WireSection| w.1) =~= c.order());
}

/// Reads the file header: the section count and the length word.
pub fn read_fdm_header(stream: &mut &[u8]) -> (r: Result<(u32, u32), ReadError>)
    ensures
        match r {
            Ok((count, length)) => fdm_header(old(stream)@) == Some((count, length, old(stream)@.len() - final(stream)@.len()))
                && final(stream)@ == old(stream)@.subrange(
                old(stream)@.len() - final(stream)@.len(),
                old(stream)@.len() as int,
            ),
            Err(e) => fdm_header(old(stream)@) is None && e == ReadError::UnexpectedEof,
        },
{
    let ghost b = stream@;
    let sig = match take_u32(stream) {
        Some(v) => v,
        None => return Err(ReadError::UnexpectedEof),
    };
    let length = match take_u32(stream) {
        Some(v) => v,
        None => return Err(ReadError::UnexpectedEof),
    };
    assert(le_u32(b, 4) == length) by {
        assert(le_u32(b.subrange(4, b.len() as int), 0) == le_u32(b, 4));
    }
    let section_count = if sig != 0xFFFFFFFF {
        sig
    } else {
        match take_u32(stream) {
            Some(v) => {
                assert(le_u32(b.subrange(8, b.len() as int), 0) == le_u32(b, 8));
                v
            },
            None => return Err(ReadError::UnexpectedEof),
        }
    };
    assert(stream@ =~= b.subrange(b.len() - stream@.len(), b.len() as int));
    Ok((section_count, length))
}

} // verus!
