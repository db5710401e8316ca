//! Writing meshes of the in-memory model as OIL geometry: the materials they
//! use, numbered as they are met, and for each triangle one face whose loops
//! index every channel. Floating-point values are carried as their bits; the
//! caller widens them to the precision OIL stores.
use vstd::prelude::*;
use crate::formats::fdm::geometry::{Vec2, Vec3, Vec4};
use crate::formats::oil::{GeometryFace, GeometryFaceloop, Material};
use crate::model_ir::{Mesh, LoopColours, LoopUvs, TangentLayer, Tangent, Triangle};
use crate::text::push_char;

verus! {

/// The materials of a scene, collected into OIL as meshes use them.
pub struct MaterialCollector {
    /// The names of the scene's materials, by key.
    pub names: Vec<String>,
    pub next_id: u32,
    pub collected: Vec<Material>,
    /// The id given to each material used alone by a mesh, by key.
    pub solo_mats: Vec<Option<u32>>,
}

/// No material.
pub open spec fn no_material() -> u32 {
    0xFFFF_FFFFu32
}

/// A collected material as mathematics sees it.
pub open spec fn material_view(m: Material) -> (u32, Seq<char>, u32) {
    (m.id, m.name@, m.parent_id)
}

/// The keys of the first `n` references, each once, in the order first met.
pub open spec fn first_keys(refs: Seq<Option<usize>>, n: int) -> Seq<usize>
    decreases n,
{
    if n <= 0 {
        Seq::empty()
    } else {
        let prev = first_keys(refs, n - 1);
        match refs[n - 1] {
            Some(k) => if prev.contains(k) {
                prev
            } else {
                prev.push(k)
            },
            None => prev,
        }
    }
}

/// Where `k` stands in `s`.
pub open spec fn position_of(s: Seq<usize>, k: usize) -> int {
    choose|j: int| 0 <= j < s.len() && s[j] == k
}

/// The name `MultiMaterial`.
pub open spec fn multi_material_name() -> Seq<char> {
    seq!['M', 'u', 'l', 't', 'i', 'M', 'a', 't', 'e', 'r', 'i', 'a', 'l']
}

impl MaterialCollector {
    /// Every key is a material of the scene, and every solo id is one.
    pub open spec fn wf(&self) -> bool {
        self.solo_mats@.len() == self.names@.len()
    }

    /// Every reference names a material of the scene, and the ids it may use
    /// fit in 32 bits.
    pub open spec fn refs_fit(&self, refs: Seq<Option<usize>>) -> bool {
        &&& forall|i: int| 0 <= i < refs.len() ==> (#[trigger] refs[i] matches Some(k) ==> k < self.names@.len())
        &&& self.next_id + refs.len() + 1 < no_material()
    }

    /// What `collect_and_map` does: from collector `old`, for the references
    /// `refs`, it leaves `new` and answers `r`.
    pub open spec fn collects(old: Self, refs: Seq<Option<usize>>, new: Self, r: (u32, Seq<u32>)) -> bool {
        &&& (refs.len() == 0 || (refs.len() == 1 && refs[0] is None) ==> {
                &&& r.0 == no_material()
                &&& r.1 == seq![no_material()]
                &&& new == old
            })
        &&& ((refs.len() == 1 && refs[0] is Some) ==> {
                let k = refs[0]->0;
                &&& r.1 == seq![r.0]
                &&& old.solo_mats@[k as int] matches Some(id) ==> r.0 == id && new == old
                &&& old.solo_mats@[k as int] is None ==> {
                    &&& r.0 == old.next_id
                    &&& new.next_id == old.next_id + 1
                    &&& new.collected@.map_values(|m: Material| material_view(m)) == old.collected@.map_values(
                        |m: Material| material_view(m),
                    ).push((r.0, old.names@[k as int]@, no_material()))
                    &&& new.solo_mats@ == old.solo_mats@.update(k as int, Some(r.0))
                }
            })
        &&& (refs.len() >= 2 ==> {
                let keys = first_keys(refs, refs.len() as int);
                let parent = old.next_id;
                &&& r.0 == parent
                &&& new.next_id == parent + 1 + keys.len()
                &&& new.solo_mats@ == old.solo_mats@
                &&& new.collected@.map_values(|m: Material| material_view(m)) == old.collected@.map_values(
                    |m: Material| material_view(m),
                ).push((parent, multi_material_name(), no_material())) + Seq::new(
                    keys.len(),
                    |j: int| ((parent + 1 + j) as u32, old.names@[keys[j] as int]@, parent),
                )
                &&& r.1.len() == refs.len()
                &&& forall|i: int|
                    0 <= i < refs.len() ==> #[trigger] r.1[i] == match refs[i] {
                        None => no_material(),
                        Some(k) => (parent + 1 + position_of(keys, k)) as u32,
                    }
            })
    }

    /// Gives a mesh's material references ids: the id of the mesh-wide
    /// material, and the id of each reference. No reference, or one empty
    /// reference, uses no material. One reference uses the material of its
    /// key, collected once for all meshes that use it alone. More references
    /// collect a new `MultiMaterial` and, under it, one material per key the
    /// references name, in the order first met; an empty reference uses no
    /// material.
    pub fn collect_and_map(&mut self, mat_refs: &Vec<Option<usize>>) -> (r: (u32, Vec<u32>))
        requires
            old(self).wf(),
            old(self).refs_fit(mat_refs@),
        ensures
            final(self).wf(),
            final(self).names@ == old(self).names@,
            Self::collects(*old(self), mat_refs@, *final(self), (r.0, r.1@)),
    {
        let n = mat_refs.len();
        if n == 0 {
            let mut v: Vec<u32> = Vec::new();
            v.push(0xFFFF_FFFFu32);
            return (0xFFFF_FFFFu32, v);
        }
        if n == 1 {
            match mat_refs[0] {
                None => {
                    let mut v: Vec<u32> = Vec::new();
                    v.push(0xFFFF_FFFFu32);
                    return (0xFFFF_FFFFu32, v);
                },
                Some(k) => {
                    if let Some(id) = self.solo_mats[k] {
                        let mut v: Vec<u32> = Vec::new();
                        v.push(id);
                        return (id, v);
                    }
                    let id = self.next_id;
                    let name = self.names[k].clone();
                    self.next_id = self.next_id + 1;
                    self.collected.push(Material { id, name, parent_id: 0xFFFF_FFFFu32 });
                    self.solo_mats.set(k, Some(id));
                    let mut v: Vec<u32> = Vec::new();
                    v.push(id);
                    proof {
                        assert(self.collected@.map_values(|m: Material| material_view(m)) =~= old(self).collected@.map_values(
                            |m: Material| material_view(m),
                        ).push((id, old(self).names@[k as int]@, no_material())));
                    }
                    return (id, v);
                },
            }
        }
        let parent = self.next_id;
        let mut multi = String::new();
        push_char(&mut multi, 'M');
        push_char(&mut multi, 'u');
        push_char(&mut multi, 'l');
        push_char(&mut multi, 't');
        push_char(&mut multi, 'i');
        push_char(&mut multi, 'M');
        push_char(&mut multi, 'a');
        push_char(&mut multi, 't');
        push_char(&mut multi, 'e');
        push_char(&mut multi, 'r');
        push_char(&mut multi, 'i');
        push_char(&mut multi, 'a');
        push_char(&mut multi, 'l');
        assert(multi@ =~= multi_material_name());
        self.next_id = parent + 1;
        self.collected.push(Material { id: parent, name: multi, parent_id: 0xFFFF_FFFFu32 });
        let ghost base = self.collected@.map_values(|m: Material| material_view(m));
        proof {
            assert(base =~= old(self).collected@.map_values(|m: Material| material_view(m)).push(
                (parent, multi_material_name(), no_material()),
            ));
        }
        let mut keys: Vec<usize> = Vec::new();
        let mut mapping: Vec<u32> = Vec::new();
        let mut i: usize = 0;
        while i < n
            invariant
                n == mat_refs@.len(),
                n >= 2,
                i <= n,
                self.wf(),
                self.names@ == old(self).names@,
                self.solo_mats@ == old(self).solo_mats@,
                old(self).refs_fit(mat_refs@),
                parent == old(self).next_id,
                keys@ == first_keys(mat_refs@, i as int),
                keys@.no_duplicates(),
                forall|j: int| 0 <= j < keys@.len() ==> #[trigger] keys@[j] < self.names@.len(),
                keys@.len() <= i,
                self.next_id == parent + 1 + keys@.len(),
                self.collected@.map_values(|m: Material| material_view(m)) == base + Seq::new(
                    keys@.len(),
                    |j: int| ((parent + 1 + j) as u32, old(self).names@[keys@[j] as int]@, parent),
                ),
                mapping@.len() == i,
                forall|q: int|
                    0 <= q < i ==> #[trigger] mapping@[q] == match mat_refs@[q] {
                        None => no_material(),
                        Some(k) => (parent + 1 + position_of(keys@, k)) as u32,
                    },
            decreases n - i,
        {
            let ghost old_keys = keys@;
            let ghost old_collected = self.collected@.map_values(|m: Material| material_view(m));
            match mat_refs[i] {
                None => {
                    mapping.push(0xFFFF_FFFFu32);
                },
                Some(k) => {
                    let nk = keys.len();
                    let mut found: usize = nk;
                    let mut j: usize = 0;
                    while j < nk
                        invariant_except_break
                            found == nk,
                            forall|jj: int| 0 <= jj < j ==> keys@[jj] != k,
                        invariant
                            nk == keys@.len(),
                            j <= nk,
                        ensures
                            found < nk ==> keys@[found as int] == k,
                            found == nk ==> !keys@.contains(k),
                            found <= nk,
                        decreases nk - j,
                    {
                        if keys[j] == k {
                            found = j;
                            break;
                        }
                        j += 1;
                    }
                    if found < nk {
                        proof {
                            assert(position_of(keys@, k) == found as int) by {
                                let p = position_of(keys@, k);
                                assert(0 <= p < keys@.len() && keys@[p] == k);
                                if p != found as int {
                                    assert(keys@.no_duplicates());
                                }
                            }
                        }
                        mapping.push(parent + 1 + found as u32);
                    } else {
                        let id = parent + 1 + nk as u32;
                        let name = self.names[k].clone();
                        self.collected.push(Material { id, name, parent_id: parent });
                        self.next_id = id + 1;
                        keys.push(k);
                        mapping.push(id);
                        proof {
                            assert(self.collected@.map_values(|m: Material| material_view(m)) =~= old_collected.push(
                                (id, old(self).names@[k as int]@, parent),
                            ));
                            assert(keys@[nk as int] == k);
                            assert(position_of(keys@, k) == nk as int) by {
                                let p = position_of(keys@, k);
                                assert(keys@.contains(k));
                                assert(0 <= p < keys@.len() && keys@[p] == k);
                                if p < nk {
                                    assert(old_keys[p] == k);
                                }
                            }
                        }
                    }
                },
            }
            proof {
                assert(keys@ == first_keys(mat_refs@, i + 1));
                assert forall|q: int|
                    0 <= q < i + 1 implies #[trigger] mapping@[q] == match mat_refs@[q] {
                        None => no_material(),
                        Some(k) => (parent + 1 + position_of(keys@, k)) as u32,
                    } by {
                    if q < i {
                        if let Some(k) = mat_refs@[q] {
                            assert(old_keys.contains(k)) by {
                                lemma_first_keys_contains(mat_refs@, i as int, q);
                            }
                            let p = position_of(old_keys, k);
                            assert(keys@[p] == k);
                            lemma_position_unique(keys@, k, p);
                        }
                    }
                }
                assert forall|j: int| 0 <= j < old_keys.len() implies keys@[j] == old_keys[j] by {}
                assert(self.collected@.map_values(|m: Material| material_view(m)) =~= base + Seq::new(
                    keys@.len(),
                    |j: int| ((parent + 1 + j) as u32, old(self).names@[keys@[j] as int]@, parent),
                ));
            }
            i += 1;
        }
        (parent, mapping)
    }
}

/// A key the first `n` references name is among their first keys, and the
/// first keys of fewer references come first among them.
proof fn lemma_first_keys_contains(refs: Seq<Option<usize>>, n: int, q: int)
    requires
        0 <= q < n <= refs.len(),
    ensures
        refs[q] matches Some(k) ==> first_keys(refs, n).contains(k),
        forall|j: int| 0 <= j < first_keys(refs, q).len() ==> first_keys(refs, n)[j] == #[trigger] first_keys(refs, q)[j],
        first_keys(refs, q).len() <= first_keys(refs, n).len(),
    decreases n - q,
{
    let cur = first_keys(refs, n);
    let prev = first_keys(refs, n - 1);
    assert(cur == prev || cur == prev.push(refs[n - 1]->0));
    if n == q + 1 {
        if let Some(k) = refs[q] {
            if !prev.contains(k) {
                assert(cur[prev.len() as int] == k);
            }
        }
    } else {
        lemma_first_keys_contains(refs, n - 1, q);
        if let Some(k) = refs[q] {
            let j = choose|j: int| 0 <= j < prev.len() && prev[j] == k;
            assert(cur[j] == k);
        }
    }
}

/// In a sequence without duplicates, the position of an element found at
/// `p` is `p`.
proof fn lemma_position_unique(s: Seq<usize>, k: usize, p: int)
    requires
        s.no_duplicates(),
        0 <= p < s.len(),
        s[p] == k,
    ensures
        position_of(s, k) == p,
{
    let c = position_of(s, k);
    assert(0 <= c < s.len() && s[c] == k);
}

/// A channel of OIL geometry: its kind, its index among channels of that
/// kind, and one value per vertex or loop (as bits, to be widened).
pub enum OilChannel {
    Position(u32, Vec<Vec3<u32>>),
    TexCoord(u32, Vec<Vec2<u32>>),
    Normal(u32, Vec<Vec3<u32>>),
    Binormal(u32, Vec<Vec3<u32>>),
    Tangent(u32, Vec<Vec3<u32>>),
    Colour(u32, Vec<Vec3<u32>>),
    Alpha(u32, Vec<u32>),
}

/// A channel as mathematics sees it.
pub enum ChannelView {
    Position(u32, Seq<Vec3<u32>>),
    TexCoord(u32, Seq<Vec2<u32>>),
    Normal(u32, Seq<Vec3<u32>>),
    Binormal(u32, Seq<Vec3<u32>>),
    Tangent(u32, Seq<Vec3<u32>>),
    Colour(u32, Seq<Vec3<u32>>),
    Alpha(u32, Seq<u32>),
}

/// The view of a channel.
pub open spec fn channel_view(c: OilChannel) -> ChannelView {
    match c {
        OilChannel::Position(i, d) => ChannelView::Position(i, d@),
        OilChannel::TexCoord(i, d) => ChannelView::TexCoord(i, d@),
        OilChannel::Normal(i, d) => ChannelView::Normal(i, d@),
        OilChannel::Binormal(i, d) => ChannelView::Binormal(i, d@),
        OilChannel::Tangent(i, d) => ChannelView::Tangent(i, d@),
        OilChannel::Colour(i, d) => ChannelView::Colour(i, d@),
        OilChannel::Alpha(i, d) => ChannelView::Alpha(i, d@),
    }
}

/// The views of channels.
pub open spec fn channel_views(s: Seq<OilChannel>) -> Seq<ChannelView> {
    Seq::new(s.len(), |i: int| channel_view(s[i]))
}

/// OIL geometry for one node; the bounds of a mesh kept only as bounds are
/// left to the caller, which computes them from the vertices.
pub struct OilGeometry {
    pub node_id: u32,
    pub material_id: u32,
    pub casts_shadows: bool,
    pub receives_shadows: bool,
    pub bounds_only: bool,
    pub channels: Vec<OilChannel>,
    pub faces: Vec<GeometryFace>,
}

/// The red, green and blue of each colour.
pub open spec fn rgb_of(d: Seq<Vec4<u32>>) -> Seq<Vec3<u32>> {
    Seq::new(d.len(), |i: int| Vec3 { x: d[i].x, y: d[i].y, z: d[i].z })
}

/// The alpha of each colour.
pub open spec fn alpha_of(d: Seq<Vec4<u32>>) -> Seq<u32> {
    Seq::new(d.len(), |i: int| d[i].w)
}

/// A colour channel and an alpha channel, numbered from 1, for each of the
/// first `n` colour layers.
pub open spec fn colour_channels(cols: Seq<LoopColours>, n: int) -> Seq<ChannelView>
    decreases n,
{
    if n <= 0 {
        Seq::empty()
    } else {
        colour_channels(cols, n - 1) + seq![
            ChannelView::Colour(n as u32, rgb_of(cols[n - 1].data@)),
            ChannelView::Alpha(n as u32, alpha_of(cols[n - 1].data@)),
        ]
    }
}

/// The channels of a tangent layer: none, the normals, or the normals,
/// tangents and binormals.
pub open spec fn tangent_channels(t: TangentLayer) -> Seq<ChannelView> {
    match t {
        TangentLayer::Absent => Seq::empty(),
        TangentLayer::Normals(n) => seq![ChannelView::Normal(0, n@)],
        TangentLayer::Tangents(ts) => seq![
            ChannelView::Normal(0, Seq::new(ts@.len(), |i: int| ts@[i].normal)),
            ChannelView::Tangent(0, Seq::new(ts@.len(), |i: int| ts@[i].tangent)),
            ChannelView::Binormal(0, Seq::new(ts@.len(), |i: int| ts@[i].bitangent)),
        ],
    }
}

/// The channels of a mesh: the positions, each texture coordinate layer
/// (numbered from 1), each colour layer as colour and alpha, then the
/// tangent layer's.
pub open spec fn mesh_channels(me: Mesh) -> Seq<ChannelView> {
    seq![ChannelView::Position(0, me.vertices@)] + Seq::new(
        me.faceloop_uvs@.len(),
        |i: int| ChannelView::TexCoord((i + 1) as u32, me.faceloop_uvs@[i].data@),
    ) + colour_channels(me.faceloop_colors@, me.faceloop_colors@.len() as int) + tangent_channels(
        me.faceloop_tangents,
    )
}

/// How many channels a face indexes besides the positions: one per texture
/// coordinate layer, two per colour layer, and one per tangent channel.
pub open spec fn loop_channels(me: Mesh) -> nat {
    me.faceloop_uvs@.len() + 2 * me.faceloop_colors@.len() + tangent_channels(me.faceloop_tangents).len()
}

/// A face loop as mathematics sees it: channel and three indices.
pub open spec fn faceloop_view(l: GeometryFaceloop) -> (u32, u32, u32, u32) {
    (l.channel, l.a, l.b, l.c)
}

/// The loops of the face of triangle `t`: the positions of the vertices its
/// loops stand on, then, for each other channel, its loops.
pub open spec fn face_loops(me: Mesh, t: Triangle) -> Seq<(u32, u32, u32, u32)> {
    seq![
        (
            0u32,
            me.faceloops@[t.loops[0] as int].vertex as u32,
            me.faceloops@[t.loops[1] as int].vertex as u32,
            me.faceloops@[t.loops[2] as int].vertex as u32,
        ),
    ] + Seq::new(loop_channels(me), |c: int| ((c + 1) as u32, t.loops[0] as u32, t.loops[1] as u32, t.loops[2] as u32))
}

/// The number of material ids `collect_and_map` gives for `n` references.
pub open spec fn mapping_len(n: int) -> int {
    if n >= 2 {
        n
    } else {
        1
    }
}

impl Mesh {
    /// Every triangle's loops and polygon exist, every polygon's material
    /// slot has an id, and the channels can be numbered in 32 bits.
    pub open spec fn wf(&self) -> bool {
        &&& forall|t: int|
            0 <= t < self.triangles@.len() ==> {
                let tri = #[trigger] self.triangles@[t];
                &&& tri.loops[0] < self.faceloops@.len()
                &&& tri.loops[1] < self.faceloops@.len()
                &&& tri.loops[2] < self.faceloops@.len()
                &&& tri.polygon < self.polygons@.len()
                &&& self.polygons@[tri.polygon as int].material < mapping_len(self.material_ids@.len() as int)
            }
        &&& loop_channels(*self) + 1 < u32::MAX
    }
}

fn copy_values<T: Copy>(v: &Vec<T>) -> (r: Vec<T>)
    ensures
        r@ == v@,
{
    let mut out: Vec<T> = Vec::new();
    let n = v.len();
    let mut i: usize = 0;
    while i < n
        invariant
            n == v@.len(),
            i <= n,
            out@ =~= v@.subrange(0, i as int),
        decreases n - i,
    {
        out.push(v[i]);
        i += 1;
    }
    assert(out@ =~= v@);
    out
}

/// The channels of the mesh.
fn make_channels(me: &Mesh) -> (r: Vec<OilChannel>)
    requires
        loop_channels(*me) + 1 < u32::MAX,
    ensures
        channel_views(r@) == mesh_channels(*me),
{
    let mut channels: Vec<OilChannel> = Vec::new();
    channels.push(OilChannel::Position(0, copy_values(&me.vertices)));
    let nuv = me.faceloop_uvs.len();
    let mut i: usize = 0;
    while i < nuv
        invariant
            nuv == me.faceloop_uvs@.len(),
            loop_channels(*me) + 1 < u32::MAX,
            i <= nuv,
            channel_views(channels@) =~= seq![ChannelView::Position(0, me.vertices@)] + Seq::new(
                i as nat,
                |q: int| ChannelView::TexCoord((q + 1) as u32, me.faceloop_uvs@[q].data@),
            ),
        decreases nuv - i,
    {
        let ghost old_ch = channels@;
        proof {
            assert(i < loop_channels(*me));
        }
        channels.push(OilChannel::TexCoord(i as u32 + 1, copy_values(&me.faceloop_uvs[i].data)));
        proof {
            assert(channel_views(channels@) =~= channel_views(old_ch).push(
                ChannelView::TexCoord((i + 1) as u32, me.faceloop_uvs@[i as int].data@),
            ));
        }
        i += 1;
    }
    let ghost before_cols = channel_views(channels@);
    let ncol = me.faceloop_colors.len();
    let mut i: usize = 0;
    while i < ncol
        invariant
            ncol == me.faceloop_colors@.len(),
            nuv == me.faceloop_uvs@.len(),
            loop_channels(*me) + 1 < u32::MAX,
            i <= ncol,
            channel_views(channels@) =~= before_cols + colour_channels(me.faceloop_colors@, i as int),
        decreases ncol - i,
    {
        let d = &me.faceloop_colors[i].data;
        let mut rgb: Vec<Vec3<u32>> = Vec::new();
        let mut alpha: Vec<u32> = Vec::new();
        let nd = d.len();
        let mut k: usize = 0;
        while k < nd
            invariant
                nd == d@.len(),
                k <= nd,
                rgb@ =~= rgb_of(d@).subrange(0, k as int),
                alpha@ =~= alpha_of(d@).subrange(0, k as int),
            decreases nd - k,
        {
            rgb.push(Vec3 { x: d[k].x, y: d[k].y, z: d[k].z });
            alpha.push(d[k].w);
            k += 1;
        }
        assert(rgb@ =~= rgb_of(d@));
        assert(alpha@ =~= alpha_of(d@));
        let ghost old_ch = channels@;
        proof {
            assert(nuv + 2 * i < loop_channels(*me));
        }
        channels.push(OilChannel::Colour(i as u32 + 1, rgb));
        channels.push(OilChannel::Alpha(i as u32 + 1, alpha));
        proof {
            assert(channel_views(channels@) =~= channel_views(old_ch) + seq![
                ChannelView::Colour((i + 1) as u32, rgb_of(me.faceloop_colors@[i as int].data@)),
                ChannelView::Alpha((i + 1) as u32, alpha_of(me.faceloop_colors@[i as int].data@)),
            ]);
        }
        i += 1;
    }
    match &me.faceloop_tangents {
        TangentLayer::Absent => {},
        TangentLayer::Normals(n) => {
            channels.push(OilChannel::Normal(0, copy_values(n)));
        },
        TangentLayer::Tangents(ts) => {
            let mut ns: Vec<Vec3<u32>> = Vec::new();
            let mut tg: Vec<Vec3<u32>> = Vec::new();
            let mut bs: Vec<Vec3<u32>> = Vec::new();
            let nt = ts.len();
            let mut k: usize = 0;
            while k < nt
                invariant
                    nt == ts@.len(),
                    k <= nt,
                    ns@ =~= Seq::new(k as nat, |q: int| ts@[q].normal),
                    tg@ =~= Seq::new(k as nat, |q: int| ts@[q].tangent),
                    bs@ =~= Seq::new(k as nat, |q: int| ts@[q].bitangent),
                decreases nt - k,
            {
                ns.push(ts[k].normal);
                tg.push(ts[k].tangent);
                bs.push(ts[k].bitangent);
                k += 1;
            }
            channels.push(OilChannel::Normal(0, ns));
            channels.push(OilChannel::Tangent(0, tg));
            channels.push(OilChannel::Binormal(0, bs));
        },
    }
    assert(channel_views(channels@) =~= mesh_channels(*me));
    channels
}

/// The views of face loops.
pub open spec fn loop_views(s: Seq<GeometryFaceloop>) -> Seq<(u32, u32, u32, u32)> {
    Seq::new(s.len(), |i: int| faceloop_view(s[i]))
}

/// The faces of the mesh's triangles, in order: each with the id that
/// `mapping` gives its polygon's material slot, no smoothing group, and the
/// loops `face_loops` says.
pub open spec fn faces_of(me: Mesh, mapping: Seq<u32>, faces: Seq<GeometryFace>) -> bool {
    &&& faces.len() == me.triangles@.len()
    &&& forall|t: int|
        0 <= t < faces.len() ==> {
            let tri = me.triangles@[t];
            &&& (#[trigger] faces[t]).material_id == mapping[me.polygons@[tri.polygon as int].material as int]
            &&& faces[t].unknown1 == 0
            &&& loop_views(faces[t].loops@) == face_loops(me, tri)
        }
}

fn extra_channel_count(me: &Mesh) -> (r: usize)
    requires
        loop_channels(*me) + 1 < u32::MAX,
    ensures
        r == loop_channels(*me),
{
    let t: usize = match &me.faceloop_tangents {
        TangentLayer::Absent => 0,
        TangentLayer::Normals(_) => 1,
        TangentLayer::Tangents(_) => 3,
    };
    me.faceloop_uvs.len() + 2 * me.faceloop_colors.len() + t
}

/// The OIL geometry of a mesh for node `node_id`. A mesh kept only as
/// bounds has no channels, no faces and no material (its bounds are the
/// caller's to compute); any other mesh has the channels `mesh_channels`
/// says, the material `mc` collects for its slots, and one face per
/// triangle.
pub fn mesh_to_oil_geometry(node_id: u32, me: &Mesh, mc: &mut MaterialCollector) -> (g: OilGeometry)
    requires
        me.wf(),
        !me.diesel.bounds_only ==> old(mc).wf() && old(mc).refs_fit(me.material_ids@),
    ensures
        g.node_id == node_id,
        g.casts_shadows == me.diesel.cast_shadows,
        g.receives_shadows == me.diesel.receive_shadows,
        g.bounds_only == me.diesel.bounds_only,
        me.diesel.bounds_only ==> g.channels@.len() == 0 && g.faces@.len() == 0 && g.material_id == no_material()
            && *final(mc) == *old(mc),
        !me.diesel.bounds_only ==> channel_views(g.channels@) == mesh_channels(*me) && exists|mapping: Seq<u32>|
            #[trigger] MaterialCollector::collects(*old(mc), me.material_ids@, *final(mc), (g.material_id, mapping))
                && faces_of(*me, mapping, g.faces@),
{
    if me.diesel.bounds_only {
        return OilGeometry {
            node_id,
            material_id: 0xFFFF_FFFFu32,
            casts_shadows: me.diesel.cast_shadows,
            receives_shadows: me.diesel.receive_shadows,
            bounds_only: true,
            channels: Vec::new(),
            faces: Vec::new(),
        };
    }
    let channels = make_channels(me);
    let (root, mapping) = mc.collect_and_map(&me.material_ids);
    let ghost nref = me.material_ids@.len();
    proof {
        if nref >= 2 {
            assert(mapping@.len() == nref);
        } else {
            assert(mapping@.len() == 1);
        }
    }
    let k = extra_channel_count(me);
    let nt = me.triangles.len();
    let mut faces: Vec<GeometryFace> = Vec::new();
    let mut t: usize = 0;
    while t < nt
        invariant
            nt == me.triangles@.len(),
            me.wf(),
            k == loop_channels(*me),
            mapping@.len() == mapping_len(me.material_ids@.len() as int),
            t <= nt,
            faces@.len() == t,
            forall|q: int|
                0 <= q < t ==> {
                    let tri = me.triangles@[q];
                    &&& (#[trigger] faces@[q]).material_id == mapping@[me.polygons@[tri.polygon as int].material as int]
                    &&& faces@[q].unknown1 == 0
                    &&& loop_views(faces@[q].loops@) == face_loops(*me, tri)
                },
        decreases nt - t,
    {
        let tri = me.triangles[t];
        assert(me.triangles@[t as int] == tri);
        let l0 = tri.loops[0];
        let l1 = tri.loops[1];
        let l2 = tri.loops[2];
        let mut loops: Vec<GeometryFaceloop> = Vec::new();
        loops.push(GeometryFaceloop {
            channel: 0,
            a: me.faceloops[l0].vertex as u32,
            b: me.faceloops[l1].vertex as u32,
            c: me.faceloops[l2].vertex as u32,
        });
        let mut c: usize = 0;
        while c < k
            invariant
                k == loop_channels(*me),
                k + 1 < u32::MAX,
                c <= k,
                loops@.len() == c + 1,
                loop_views(loops@) =~= face_loops(*me, tri).subrange(0, c + 1),
                l0 == tri.loops[0],
                l1 == tri.loops[1],
                l2 == tri.loops[2],
                tri.loops[0] < me.faceloops@.len(),
                tri.loops[1] < me.faceloops@.len(),
                tri.loops[2] < me.faceloops@.len(),
            decreases k - c,
        {
            let ghost old_loops = loops@;
            loops.push(GeometryFaceloop { channel: c as u32 + 1, a: l0 as u32, b: l1 as u32, c: l2 as u32 });
            proof {
                assert(loop_views(loops@) =~= loop_views(old_loops).push(face_loops(*me, tri)[c + 1]));
            }
            c += 1;
        }
        let material_id = mapping[me.polygons[tri.polygon].material];
        let ghost old_faces = faces@;
        faces.push(GeometryFace { material_id, unknown1: 0, loops });
        proof {
            assert(face_loops(*me, tri).subrange(0, k + 1) =~= face_loops(*me, tri));
            assert forall|q: int| 0 <= q < t + 1 implies {
                let tri = me.triangles@[q];
                &&& (#[trigger] faces@[q]).material_id == mapping@[me.polygons@[tri.polygon as int].material as int]
                &&& faces@[q].unknown1 == 0
                &&& loop_views(faces@[q].loops@) == face_loops(*me, tri)
            } by {
                if q < t {
                    assert(faces@[q] == old_faces[q]);
                }
            }
        }
        t += 1;
    }
    let g = OilGeometry {
        node_id,
        material_id: root,
        casts_shadows: me.diesel.cast_shadows,
        receives_shadows: me.diesel.receive_shadows,
        bounds_only: false,
        channels,
        faces,
    };
    assert(faces_of(*me, mapping@, g.faces@));
    assert(MaterialCollector::collects(*old(mc), me.material_ids@, *mc, (g.material_id, mapping@)));
    g
}

} // verus!
