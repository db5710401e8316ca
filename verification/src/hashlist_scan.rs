//! The choices of the scan of the packages for strings: which files it
//! reads, which scanner reads each, and the order in which the strings it
//! found are written out.
use vstd::prelude::*;

use crate::bundles::database::HashStrKey;
use crate::diesel_hash::{hash_str, spec_hash_str};
use crate::filesystem::bytes_equal;
use crate::formats::string_table::{bytes_before, bytes_less, lemma_bytes_before_order, lemma_bytes_before_trans};
use crate::text::same_text;

verus! {

/// Whether the scan reads the file with this extension hash, where `path_known`
/// tells whether the hashlist knows the text of its path.
pub open spec fn spec_wants_scan(ext: u64, path_known: bool) -> bool {
    ||| ext == spec_hash_str("credits"@)
    ||| ext == spec_hash_str("dialog_index"@)
    ||| ext == spec_hash_str("sequence_manager"@)
    ||| ext == spec_hash_str("continent"@)
    ||| (ext == spec_hash_str("continents"@) && path_known)
    ||| (ext == spec_hash_str("world"@) && path_known)
    ||| ext == spec_hash_str("mission"@)
    ||| ext == spec_hash_str("object"@)
    ||| ext == spec_hash_str("animation_state_machine"@)
    ||| ext == spec_hash_str("animation_subset"@)
    ||| ext == spec_hash_str("effect"@)
    ||| ext == spec_hash_str("animation_def"@)
    ||| ext == spec_hash_str("scene"@)
    ||| ext == spec_hash_str("gui"@)
    ||| ext == spec_hash_str("merged_font"@)
    ||| ext == spec_hash_str("material_config"@)
    ||| ext == spec_hash_str("unit"@)
    ||| ext == spec_hash_str("environment"@)
}

/// Whether the scan reads the file with this key.
pub fn wants_scan(key: &HashStrKey) -> (r: bool)
    ensures
        r == spec_wants_scan(key.extension.hash, key.path.text is Some),
{
    let e = key.extension.hash;
    let known = key.path.text.is_some();
    e == hash_str("credits") || e == hash_str("dialog_index") || e == hash_str("sequence_manager")
        || e == hash_str("continent") || (e == hash_str("continents") && known) || (e
        == hash_str("world") && known) || e == hash_str("mission") || e == hash_str("object")
        || e == hash_str("animation_state_machine") || e == hash_str("animation_subset") || e
        == hash_str("effect") || e == hash_str("animation_def") || e == hash_str("scene") || e
        == hash_str("gui") || e == hash_str("merged_font") || e == hash_str("material_config")
        || e == hash_str("unit") || e == hash_str("environment")
}

/// The scanners, one for each kind of file the scan reads; scenes and GUIs
/// share one.
#[derive(Debug, Clone, Copy, PartialEq, Eq, Structural)]
pub enum ScanKind {
    Credits,
    DialogIndex,
    SequenceManager,
    Continent,
    Continents,
    World,
    Mission,
    Environment,
    Object,
    AnimationStateMachine,
    AnimationSubset,
    Effect,
    AnimationDef,
    Scene,
    MergedFont,
    MaterialConfig,
    Unit,
}

/// The scanner for a file by the text of its extension; none for a file the
/// scan does not read.
pub open spec fn spec_scanner_for(ext: Option<Seq<char>>) -> Option<ScanKind> {
    match ext {
        None => None,
        Some(e) => if e == "credits"@ {
            Some(ScanKind::Credits)
        } else if e == "dialog_index"@ {
            Some(ScanKind::DialogIndex)
        } else if e == "sequence_manager"@ {
            Some(ScanKind::SequenceManager)
        } else if e == "continent"@ {
            Some(ScanKind::Continent)
        } else if e == "continents"@ {
            Some(ScanKind::Continents)
        } else if e == "world"@ {
            Some(ScanKind::World)
        } else if e == "mission"@ {
            Some(ScanKind::Mission)
        } else if e == "environment"@ {
            Some(ScanKind::Environment)
        } else if e == "object"@ {
            Some(ScanKind::Object)
        } else if e == "animation_state_machine"@ {
            Some(ScanKind::AnimationStateMachine)
        } else if e == "animation_subset"@ {
            Some(ScanKind::AnimationSubset)
        } else if e == "effect"@ {
            Some(ScanKind::Effect)
        } else if e == "animation_def"@ {
            Some(ScanKind::AnimationDef)
        } else if e == "scene"@ || e == "gui"@ {
            Some(ScanKind::Scene)
        } else if e == "merged_font"@ {
            Some(ScanKind::MergedFont)
        } else if e == "material_config"@ {
            Some(ScanKind::MaterialConfig)
        } else if e == "unit"@ {
            Some(ScanKind::Unit)
        } else {
            None
        },
    }
}

/// The scanner for a file by the text of its extension; `None` for a file
/// the scan does not read.
pub fn scanner_for(ext: Option<&str>) -> (r: Option<ScanKind>)
    ensures
        r == spec_scanner_for(
            match ext {
                Some(e) => Some(e@),
                None => None,
            },
        ),
{
    let e = match ext {
        None => return None,
        Some(e) => e,
    };
    if same_text(e, "credits") {
        Some(ScanKind::Credits)
    } else if same_text(e, "dialog_index") {
        Some(ScanKind::DialogIndex)
    } else if same_text(e, "sequence_manager") {
        Some(ScanKind::SequenceManager)
    } else if same_text(e, "continent") {
        Some(ScanKind::Continent)
    } else if same_text(e, "continents") {
        Some(ScanKind::Continents)
    } else if same_text(e, "world") {
        Some(ScanKind::World)
    } else if same_text(e, "mission") {
        Some(ScanKind::Mission)
    } else if same_text(e, "environment") {
        Some(ScanKind::Environment)
    } else if same_text(e, "object") {
        Some(ScanKind::Object)
    } else if same_text(e, "animation_state_machine") {
        Some(ScanKind::AnimationStateMachine)
    } else if same_text(e, "animation_subset") {
        Some(ScanKind::AnimationSubset)
    } else if same_text(e, "effect") {
        Some(ScanKind::Effect)
    } else if same_text(e, "animation_def") {
        Some(ScanKind::AnimationDef)
    } else if same_text(e, "scene") || same_text(e, "gui") {
        Some(ScanKind::Scene)
    } else if same_text(e, "merged_font") {
        Some(ScanKind::MergedFont)
    } else if same_text(e, "material_config") {
        Some(ScanKind::MaterialConfig)
    } else if same_text(e, "unit") {
        Some(ScanKind::Unit)
    } else {
        None
    }
}

/// The bytes of a string.
pub open spec fn text_bytes(s: String) -> Seq<u8> {
    vstd::utf8::encode_utf8(s@)
}

/// The texts of some strings.
pub open spec fn texts(v: Seq<String>) -> Seq<Seq<char>> {
    v.map_values(|s: String| s@)
}

/// `r` holds each text of `found` once, in byte order.
pub open spec fn sorted_set_of(found: Seq<String>, r: Seq<String>) -> bool {
    &&& forall|a: int, b: int|
        0 <= a < b < r.len() ==> bytes_before(text_bytes(#[trigger] r[a]), text_bytes(#[trigger] r[b]))
    &&& forall|x: Seq<char>| #[trigger] texts(r).contains(x) <==> texts(found).contains(x)
}

/// The strings the scan found, each once, in the order they are written
/// out: byte order.
pub fn sorted_unique(found: Vec<String>) -> (r: Vec<String>)
    ensures
        sorted_set_of(found@, r@),
{
    let mut out: Vec<String> = Vec::new();
    let mut i: usize = 0;
    proof {
        assert(texts(found@.take(0)) =~= Seq::<Seq<char>>::empty());
        assert(texts(out@) =~= Seq::<Seq<char>>::empty());
    }
    while i < found.len()
        invariant
            i <= found@.len(),
            sorted_set_of(found@.take(i as int), out@),
        decreases found.len() - i,
    {
        let s = found[i].clone();
        let ghost before = out@;
        let b = s.as_str().as_bytes();
        let mut p: usize = 0;
        while p < out.len() && bytes_less(out[p].as_str().as_bytes(), b)
            invariant
                out@ == before,
                p <= out@.len(),
                b@ == text_bytes(s),
                forall|q: int| 0 <= q < p ==> bytes_before(text_bytes(#[trigger] out@[q]), text_bytes(s)),
            decreases out.len() - p,
        {
            p = p + 1;
        }
        let present = p < out.len() && bytes_equal(out[p].as_str().as_bytes(), b);
        if !present {
            out.insert(p, s);
        }
        proof {
            lemma_insert_sorted(found@, i as int, before, out@, p as int, present);
        }
        i = i + 1;
    }
    assert(found@.take(i as int) =~= found@);
    out
}

/// Adding `found[i]` at `p`, where the scan for it stopped, unless it is
/// there already, keeps the list sorted and makes it hold the first `i + 1`
/// strings.
proof fn lemma_insert_sorted(found: Seq<String>, i: int, before: Seq<String>, after: Seq<String>, p: int, present: bool)
    requires
        0 <= i < found.len(),
        sorted_set_of(found.take(i), before),
        0 <= p <= before.len(),
        forall|q: int| 0 <= q < p ==> bytes_before(text_bytes(#[trigger] before[q]), text_bytes(found[i])),
        p < before.len() ==> !bytes_before(text_bytes(before[p]), text_bytes(found[i])),
        present == (p < before.len() && text_bytes(before[p]) == text_bytes(found[i])),
        present ==> after == before,
        !present ==> after == before.insert(p, found[i]),
    ensures
        sorted_set_of(found.take(i + 1), after),
{
    broadcast use vstd::seq_lib::to_multiset_build, vstd::seq_lib::to_multiset_insert, vstd::multiset::group_multiset_axioms;

    let s = found[i];
    let t = found.take(i);
    let t1 = found.take(i + 1);
    assert(t1 =~= t.push(s));
    assert(texts(t1) =~= texts(t).push(s@));
    texts(t).to_multiset_ensures();
    texts(t1).to_multiset_ensures();
    texts(before).to_multiset_ensures();
    texts(after).to_multiset_ensures();
    assert(texts(t1).to_multiset() =~= texts(t).to_multiset().insert(s@));
    if present {
        vstd::utf8::encode_utf8_decode_utf8(s@);
        vstd::utf8::encode_utf8_decode_utf8(before[p]@);
        assert(texts(before)[p] == s@);
        assert(texts(before).contains(s@));
        assert forall|x: Seq<char>| #[trigger] texts(after).contains(x) <==> texts(t1).contains(x) by {
            assert(texts(t1).to_multiset().count(x) == texts(t).to_multiset().count(x) + if x == s@ { 1int } else { 0int });
        }
    } else {
        assert(texts(after) =~= texts(before).insert(p, s@));
        assert(texts(after).to_multiset() =~= texts(before).to_multiset().insert(s@));
        assert forall|x: Seq<char>| #[trigger] texts(after).contains(x) <==> texts(t1).contains(x) by {
            assert(texts(t1).to_multiset().count(x) == texts(t).to_multiset().count(x) + if x == s@ { 1int } else { 0int });
            assert(texts(after).to_multiset().count(x) == texts(before).to_multiset().count(x) + if x == s@ { 1int } else { 0int });
        }
        if p < before.len() {
            lemma_bytes_before_order(text_bytes(before[p]), text_bytes(s));
        }
        lemma_add_new_order(before, s, p);
    }
}

proof fn lemma_add_new_order(before: Seq<String>, s: String, p: int)
    requires
        forall|a: int, b: int|
            0 <= a < b < before.len() ==> bytes_before(text_bytes(#[trigger] before[a]), text_bytes(#[trigger] before[b])),
        0 <= p <= before.len(),
        forall|q: int| 0 <= q < p ==> bytes_before(text_bytes(#[trigger] before[q]), text_bytes(s)),
        p < before.len() ==> bytes_before(text_bytes(s), text_bytes(before[p])),
    ensures
        forall|a: int, b: int|
            0 <= a < b < before.len() + 1 ==> bytes_before(
                text_bytes(#[trigger] before.insert(p, s)[a]),
                text_bytes(#[trigger] before.insert(p, s)[b]),
            ),
{
    let after = before.insert(p, s);
    assert forall|a: int, b: int| 0 <= a < b < after.len() implies bytes_before(text_bytes(#[trigger] after[a]), text_bytes(#[trigger] after[b])) by {
        if b < p {
            assert(after[a] == before[a] && after[b] == before[b]);
        } else if b == p {
            assert(after[a] == before[a]);
        } else if a < p {
            assert(after[a] == before[a] && after[b] == before[b - 1]);
            if b - 1 > p {
                lemma_bytes_before_trans(text_bytes(s), text_bytes(before[p]), text_bytes(before[b - 1]));
            }
            lemma_bytes_before_trans(text_bytes(before[a]), text_bytes(s), text_bytes(before[b - 1]));
        } else if a == p {
            assert(after[b] == before[b - 1]);
            if b - 1 > p {
                lemma_bytes_before_trans(text_bytes(s), text_bytes(before[p]), text_bytes(before[b - 1]));
            }
        } else {
            assert(after[a] == before[a - 1] && after[b] == before[b - 1]);
        }
    }
}

} // verus!
