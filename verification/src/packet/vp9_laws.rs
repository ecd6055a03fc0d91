//! How VP9 payload descriptors are laid out in bytes, and that they are read as they are laid out.

use vstd::prelude::*;

use crate::packet::codec::{CodecExtra, Depacketizer, PacketError, Vp9CodecExtra};
use crate::packet::segments::Entry;
use crate::packet::vp9::{
    bit, byte_at, header, layer_at, optional, payload, payloads, picture_id_at, pictures_at,
    refs_at, sizes_at, structure_at, HeaderModel, LayerIndices, PictureModel, StructureModel,
    Vp9Depacketizer,
};

verus! {

/// A picture of a picture group, with the bits of its first byte that have no meaning.
pub struct PictureParts {
    pub tid: u8,
    pub u: bool,
    pub pdiff: Seq<u8>,
    pub spare: u8,
}

/// A scalability structure, with the bits of its first byte that have no meaning.
pub struct StructureParts {
    pub ns: u8,
    /// Width and height of each spatial layer, if they are there.
    pub sizes: Option<Seq<(u16, u16)>>,
    /// The picture group, if it is there.
    pub pictures: Option<Seq<PictureParts>>,
    pub spare: u8,
}

/// What makes up a payload descriptor.
pub struct Parts {
    pub p: bool,
    pub f: bool,
    pub b: bool,
    pub e: bool,
    pub z: bool,
    /// The picture id, if it is there, and whether it is laid out in two bytes.
    pub picture_id: Option<(u16, bool)>,
    pub layer: Option<LayerIndices>,
    /// Laid out if there are layer indices, and only in non-flexible mode.
    pub tl0picidx: u8,
    pub refs: Seq<u8>,
    pub structure: Option<StructureParts>,
}

/// One for a flag that is set.
pub open spec fn one(flag: bool) -> int {
    if flag {
        1
    } else {
        0
    }
}

/// The first byte: eight flags.
pub open spec fn flags_byte(x: Parts) -> u8 {
    (128 * one(x.picture_id is Some) + 64 * one(x.p) + 32 * one(x.layer is Some) + 16 * one(x.f) + 8
        * one(x.b) + 4 * one(x.e) + 2 * one(x.structure is Some) + one(x.z)) as u8
}

/// A picture id: of 7 bits in one byte, or of 15 bits, highest first, after a bit that says so.
pub open spec fn picture_id_bytes(v: u16, long: bool) -> Seq<u8> {
    if long {
        seq![(0x80 + v / 0x100) as u8, (v % 0x100) as u8]
    } else {
        seq![v as u8]
    }
}

/// Layer indices: three bits, one, three, and one.
pub open spec fn layer_byte(l: LayerIndices) -> u8 {
    (32 * l.tid + 16 * one(l.u) + 2 * l.sid + one(l.d)) as u8
}

/// Reference indices: seven bits each, and one that says whether another one follows.
pub open spec fn refs_bytes(refs: Seq<u8>) -> Seq<u8> {
    Seq::new(refs.len(), |k: int| (2 * refs[k] + one(k + 1 < refs.len())) as u8)
}

/// A byte of a resolution: the width in two bytes, then the height in two.
pub open spec fn size_byte(size: (u16, u16), j: int) -> u8 {
    if j == 0 {
        (size.0 / 0x100) as u8
    } else if j == 1 {
        (size.0 % 0x100) as u8
    } else if j == 2 {
        (size.1 / 0x100) as u8
    } else {
        (size.1 % 0x100) as u8
    }
}

/// Resolutions, one after the other.
pub open spec fn sizes_bytes(sizes: Seq<(u16, u16)>) -> Seq<u8> {
    Seq::new(4 * sizes.len(), |i: int| size_byte(sizes[i / 4], i % 4))
}

/// A picture of a picture group.
pub open spec fn picture_bytes(x: PictureParts) -> Seq<u8> {
    seq![(32 * x.tid + 16 * one(x.u) + 4 * x.pdiff.len() + x.spare) as u8] + x.pdiff
}

/// Pictures, one after the other.
pub open spec fn pictures_bytes(l: Seq<PictureParts>) -> Seq<u8>
    decreases l.len(),
{
    if l.len() == 0 {
        Seq::empty()
    } else {
        picture_bytes(l[0]) + pictures_bytes(l.skip(1))
    }
}

/// The first byte of a scalability structure.
pub open spec fn structure_byte(x: StructureParts) -> u8 {
    (32 * x.ns + 16 * one(x.sizes is Some) + 8 * one(x.pictures is Some) + x.spare) as u8
}

/// A scalability structure.
pub open spec fn structure_bytes(x: StructureParts) -> Seq<u8> {
    seq![structure_byte(x)] + sizes_part(x) + pictures_part(x)
}

/// The resolutions of a scalability structure.
pub open spec fn sizes_part(x: StructureParts) -> Seq<u8> {
    match x.sizes {
        Some(sizes) => sizes_bytes(sizes),
        None => Seq::empty(),
    }
}

/// The picture group of a scalability structure, after the number of its pictures.
pub open spec fn pictures_part(x: StructureParts) -> Seq<u8> {
    match x.pictures {
        Some(l) => seq![l.len() as u8] + pictures_bytes(l),
        None => Seq::empty(),
    }
}

/// The picture id of a descriptor.
pub open spec fn picture_id_part(x: Parts) -> Seq<u8> {
    match x.picture_id {
        Some((v, long)) => picture_id_bytes(v, long),
        None => Seq::empty(),
    }
}

/// The layer indices of a descriptor.
pub open spec fn layer_part(x: Parts) -> Seq<u8> {
    match x.layer {
        Some(l) => seq![layer_byte(l)],
        None => Seq::empty(),
    }
}

/// The picture of the base layer that a descriptor names.
pub open spec fn tl0picidx_part(x: Parts) -> Seq<u8> {
    if x.layer is Some && !x.f {
        seq![x.tl0picidx]
    } else {
        Seq::empty()
    }
}

/// The scalability structure of a descriptor.
pub open spec fn structure_part(x: Parts) -> Seq<u8> {
    match x.structure {
        Some(s) => structure_bytes(s),
        None => Seq::empty(),
    }
}

/// A payload descriptor.
pub open spec fn layout(x: Parts) -> Seq<u8> {
    seq![flags_byte(x)] + picture_id_part(x) + layer_part(x) + tl0picidx_part(x) + refs_bytes(x.refs)
        + structure_part(x)
}

/// Whether the picture can be laid out.
pub open spec fn is_valid_picture(x: PictureParts) -> bool {
    x.tid < 8 && x.pdiff.len() <= 3 && x.spare < 4
}

/// Whether the scalability structure can be laid out, whatever number of layers it names.
pub open spec fn is_valid_structure(x: StructureParts) -> bool {
    &&& x.ns < 8
    &&& x.spare < 8
    &&& x.sizes matches Some(sizes) ==> sizes.len() == x.ns + 1
    &&& x.pictures matches Some(l) ==> l.len() <= 255 && forall|k: int|
        0 <= k < l.len() ==> is_valid_picture(#[trigger] l[k])
}

/// Whether the descriptor can be laid out, whatever layers it names: reference indices are there for
/// a predicted frame in flexible mode only.
pub open spec fn is_valid(x: Parts) -> bool {
    &&& x.picture_id matches Some((v, long)) ==> v < (if long {
        0x8000int
    } else {
        0x80int
    })
    &&& x.layer matches Some(l) ==> l.tid < 8 && l.sid < 8
    &&& x.refs.len() > 0 <==> x.f && x.p
    &&& forall|k: int| 0 <= k < x.refs.len() ==> (#[trigger] x.refs[k]) < 128
    &&& x.structure matches Some(s) ==> is_valid_structure(s)
}

/// Whether the descriptor names no more layers than are supported.
pub open spec fn is_supported(x: Parts) -> bool {
    &&& x.layer matches Some(l) ==> l.sid < 3
    &&& x.structure matches Some(s) ==> is_supported_structure(s)
}

/// Whether the scalability structure has no more resolutions than layers are supported.
pub open spec fn is_supported_structure(s: StructureParts) -> bool {
    s.sizes is Some ==> s.ns < 3
}

/// The picture of a picture group, as it is read.
pub open spec fn picture_of(x: PictureParts) -> PictureModel {
    PictureModel { tid: x.tid, u: x.u, pdiff: x.pdiff }
}

/// The scalability structure, as it is read.
pub open spec fn structure_of(x: StructureParts) -> StructureModel {
    StructureModel {
        ns: x.ns,
        y: x.sizes is Some,
        g: x.pictures is Some,
        sizes: match x.sizes {
            Some(sizes) => sizes,
            None => Seq::empty(),
        },
        ng: match x.pictures {
            Some(l) => l.len() as u8,
            None => 0,
        },
        pictures: match x.pictures {
            Some(l) => l.map_values(|x: PictureParts| picture_of(x)),
            None => Seq::empty(),
        },
    }
}

/// The descriptor, as it is read.
pub open spec fn descriptor_of(x: Parts) -> HeaderModel {
    HeaderModel {
        flags: flags_byte(x),
        picture_id: match x.picture_id {
            Some((v, _)) => Some(v),
            None => None,
        },
        layer: x.layer,
        tl0picidx: if x.layer is Some && !x.f {
            Some(x.tl0picidx)
        } else {
            None
        },
        pdiff: x.refs,
        structure: match x.structure {
            Some(s) => Some(structure_of(s)),
            None => None,
        },
        len: layout(x).len() as int,
    }
}

/// Whether `p` has the bytes `x` at `i`.
pub open spec fn has_at(p: Seq<u8>, i: int, x: Seq<u8>) -> bool {
    0 <= i && i + x.len() <= p.len() && forall|k: int|
        i <= k < i + x.len() ==> #[trigger] p[k] == x[k - i]
}

/// Whether `p` ends within the bytes `x` at `i`.
pub open spec fn ends_in(p: Seq<u8>, i: int, x: Seq<u8>) -> bool {
    0 <= i <= p.len() < i + x.len() && forall|k: int|
        i <= k < p.len() ==> #[trigger] p[k] == x[k - i]
}

/// The bits of a byte, as digits.
proof fn lemma_bits(b: u8)
    by (bit_vector)
    ensures
        bit(b, 7) == (b / 128 % 2 == 1),
        bit(b, 6) == (b / 64 % 2 == 1),
        bit(b, 5) == (b / 32 % 2 == 1),
        bit(b, 4) == (b / 16 % 2 == 1),
        bit(b, 3) == (b / 8 % 2 == 1),
        bit(b, 2) == (b / 4 % 2 == 1),
        bit(b, 1) == (b / 2 % 2 == 1),
        bit(b, 0) == (b % 2 == 1),
        b >> 5u8 == b / 32,
        (b >> 1u8) & 7 == b / 2 % 8,
        (b >> 2u8) & 3 == b / 4 % 4,
        b >> 1u8 == b / 2,
        b & 0x7f == b % 128,
{
}

/// Two bytes, as a number.
proof fn lemma_two_bytes(x: u8, y: u8)
    by (bit_vector)
    ensures
        ((x as u16) << 8u16) | (y as u16) == x * 256 + y,
        (((x & 0x7f) as u16) << 8u16) | (y as u16) == (x % 128) * 256 + y,
{
}

/// Bytes that follow each other stand where the ones before them end.
proof fn lemma_has_split(p: Seq<u8>, i: int, x: Seq<u8>, y: Seq<u8>)
    requires
        has_at(p, i, x + y),
    ensures
        has_at(p, i, x),
        has_at(p, i + x.len(), y),
{
    assert forall|k: int| i <= k < i + x.len() implies #[trigger] p[k] == x[k - i] by {
        assert((x + y)[k - i] == x[k - i]);
    }
    assert forall|k: int| i + x.len() <= k < i + x.len() + y.len() implies #[trigger] p[k] == y[k
        - (i + x.len())] by {
        assert((x + y)[k - i] == y[k - i - x.len()]);
    }
}

/// What ends within bytes that follow each other ends within the first or within the second ones.
proof fn lemma_ends_split(p: Seq<u8>, i: int, x: Seq<u8>, y: Seq<u8>)
    requires
        ends_in(p, i, x + y),
    ensures
        ends_in(p, i, x) || (has_at(p, i, x) && ends_in(p, i + x.len(), y)),
{
    if p.len() < i + x.len() {
        assert forall|k: int| i <= k < p.len() implies #[trigger] p[k] == x[k - i] by {
            assert((x + y)[k - i] == x[k - i]);
        }
    } else {
        assert forall|k: int| i <= k < i + x.len() implies #[trigger] p[k] == x[k - i] by {
            assert((x + y)[k - i] == x[k - i]);
        }
        assert forall|k: int| i + x.len() <= k < p.len() implies #[trigger] p[k] == y[k - (i
            + x.len())] by {
            assert((x + y)[k - i] == y[k - i - x.len()]);
        }
    }
}

/// A picture id is read as it is laid out.
proof fn lemma_picture_id(p: Seq<u8>, i: int, v: u16, long: bool)
    requires
        v < (if long {
            0x8000int
        } else {
            0x80int
        }),
    ensures
        has_at(p, i, picture_id_bytes(v, long)) ==> picture_id_at(p, i) == Ok::<
            (u16, int),
            PacketError,
        >((v, i + picture_id_bytes(v, long).len())),
        ends_in(p, i, picture_id_bytes(v, long)) ==> picture_id_at(p, i) == Err::<
            (u16, int),
            PacketError,
        >(PacketError::ErrShortPacket),
{
    let x = picture_id_bytes(v, long);
    if i < p.len() {
        lemma_bits(p[i]);
        if i + 1 < p.len() {
            lemma_two_bytes(p[i], p[i + 1]);
        }
    }
    if has_at(p, i, x) {
        assert(p[i] == x[i - i]);
        if long {
            assert(p[i + 1] == x[i + 1 - i]);
        }
    }
    if ends_in(p, i, x) && i < p.len() {
        assert(p[i] == x[i - i]);
    }
}

/// Layer indices are read as they are laid out.
proof fn lemma_layer(p: Seq<u8>, i: int, l: LayerIndices)
    requires
        l.tid < 8,
        l.sid < 8,
        has_at(p, i, seq![layer_byte(l)]),
    ensures
        l.sid < 3 ==> layer_at(p, i) == Ok::<(LayerIndices, int), PacketError>((l, i + 1)),
        l.sid >= 3 ==> layer_at(p, i) == Err::<(LayerIndices, int), PacketError>(
            PacketError::ErrTooManySpatialLayers,
        ),
{
    assert(p[i] == seq![layer_byte(l)][i - i]);
    lemma_bits(p[i]);
}

/// Reference indices are read as they are laid out.
proof fn lemma_refs(p: Seq<u8>, i: int, refs: Seq<u8>)
    requires
        refs.len() > 0,
        forall|k: int| 0 <= k < refs.len() ==> (#[trigger] refs[k]) < 128,
    ensures
        has_at(p, i, refs_bytes(refs)) ==> refs_at(p, i) == Ok::<(Seq<u8>, int), PacketError>(
            (refs, i + refs.len()),
        ),
        ends_in(p, i, refs_bytes(refs)) ==> refs_at(p, i) == Err::<(Seq<u8>, int), PacketError>(
            PacketError::ErrShortPacket,
        ),
    decreases refs.len(),
{
    let x = refs_bytes(refs);
    if (has_at(p, i, x) || ends_in(p, i, x)) && i < p.len() {
        assert(p[i] == x[i - i]);
        lemma_bits(p[i]);
        if refs.len() > 1 {
            let rest = refs.skip(1);
            let y = refs_bytes(rest);
            assert(x =~= seq![x[0]] + y);
            if has_at(p, i, x) {
                lemma_has_split(p, i, seq![x[0]], y);
            } else {
                lemma_ends_split(p, i, seq![x[0]], y);
            }
            lemma_refs(p, i + 1, rest);
            assert(seq![refs[0]] + rest =~= refs);
        } else {
            assert(seq![refs[0]] =~= refs);
        }
    }
}

/// Pictures are read as they are laid out.
proof fn lemma_pictures(p: Seq<u8>, i: int, l: Seq<PictureParts>)
    requires
        forall|k: int| 0 <= k < l.len() ==> is_valid_picture(#[trigger] l[k]),
    ensures
        has_at(p, i, pictures_bytes(l)) ==> pictures_at(p, i, l.len() as int) == Ok::<
            (Seq<PictureModel>, int),
            PacketError,
        >((l.map_values(|x: PictureParts| picture_of(x)), i + pictures_bytes(l).len())),
        ends_in(p, i, pictures_bytes(l)) ==> pictures_at(p, i, l.len() as int) == Err::<
            (Seq<PictureModel>, int),
            PacketError,
        >(PacketError::ErrShortPacket),
    decreases l.len(),
{
    let models = l.map_values(|x: PictureParts| picture_of(x));
    if l.len() == 0 {
        assert(models =~= Seq::empty());
    } else {
        let first = l[0];
        let rest = l.skip(1);
        let x = picture_bytes(first);
        let y = pictures_bytes(rest);
        if has_at(p, i, x + y) {
            lemma_has_split(p, i, x, y);
        }
        if ends_in(p, i, x + y) {
            lemma_ends_split(p, i, x, y);
        }
        assert forall|k: int| 0 <= k < rest.len() implies is_valid_picture(#[trigger] rest[k]) by {
            assert(rest[k] == l[k + 1]);
        }
        lemma_pictures(p, i + x.len(), rest);
        if (has_at(p, i, x) || ends_in(p, i, x)) && i < p.len() {
            assert(p[i] == x[i - i]);
            lemma_bits(p[i]);
            assert(p[i] / 4 % 4 == first.pdiff.len());
        }
        if has_at(p, i, x) {
            let n = first.pdiff.len() as int;
            assert forall|k: int| 0 <= k < n implies #[trigger] p.subrange(i + 1, i + 1 + n)[k]
                == first.pdiff[k] by {
                assert(p[i + 1 + k] == x[i + 1 + k - i]);
            }
            assert(p.subrange(i + 1, i + 1 + n) =~= first.pdiff);
            assert(seq![picture_of(first)] + rest.map_values(|x: PictureParts| picture_of(x))
                =~= models);
        }
    }
}

/// Resolutions are read as they are laid out.
proof fn lemma_sizes(p: Seq<u8>, i: int, sizes: Seq<(u16, u16)>)
    requires
        has_at(p, i, sizes_bytes(sizes)),
    ensures
        sizes_at(p, i, sizes.len() as int) == sizes,
{
    let x = sizes_bytes(sizes);
    assert forall|k: int| 0 <= k < sizes.len() implies #[trigger] sizes_at(
        p,
        i,
        sizes.len() as int,
    )[k] == sizes[k] by {
        let j = i + 4 * k;
        assert(p[j] == x[j - i] && p[j + 1] == x[j + 1 - i] && p[j + 2] == x[j + 2 - i] && p[j + 3]
            == x[j + 3 - i]);
        assert((4 * k) / 4 == k && (4 * k + 1) / 4 == k && (4 * k + 2) / 4 == k && (4 * k + 3) / 4
            == k);
        lemma_two_bytes(p[j], p[j + 1]);
        lemma_two_bytes(p[j + 2], p[j + 3]);
    }
    assert(sizes_at(p, i, sizes.len() as int) =~= sizes);
}

/// The first byte of a scalability structure says what it holds.
proof fn lemma_structure_byte(p: Seq<u8>, i: int, s: StructureParts)
    requires
        is_valid_structure(s),
        0 <= i < p.len(),
        p[i] == structure_byte(s),
    ensures
        p[i] >> 5u8 == s.ns,
        bit(p[i], 4) == (s.sizes is Some),
        bit(p[i], 3) == (s.pictures is Some),
        s.sizes is Some && s.ns >= 3 ==> structure_at(p, i) == Err::<
            (StructureModel, int),
            PacketError,
        >(PacketError::ErrTooManySpatialLayers),
{
    lemma_bits(p[i]);
}

/// A scalability structure is read as it is laid out.
proof fn lemma_structure(p: Seq<u8>, i: int, s: StructureParts)
    requires
        is_valid_structure(s),
        is_supported_structure(s),
    ensures
        has_at(p, i, structure_bytes(s)) ==> structure_at(p, i) == Ok::<
            (StructureModel, int),
            PacketError,
        >((structure_of(s), i + structure_bytes(s).len())),
        ends_in(p, i, structure_bytes(s)) ==> structure_at(p, i) == Err::<
            (StructureModel, int),
            PacketError,
        >(PacketError::ErrShortPacket),
{
    let a = seq![structure_byte(s)];
    let x = sizes_part(s);
    let y = pictures_part(s);
    let j = i + 1 + x.len();
    assert(structure_bytes(s) == a + x + y);
    if has_at(p, i, a + x + y) {
        lemma_has_split(p, i, a + x, y);
        lemma_has_split(p, i, a, x);
        assert(p[i] == a[i - i]);
        lemma_structure_byte(p, i, s);
        lemma_structure_parts(p, i, s);
    }
    if ends_in(p, i, a + x + y) {
        lemma_ends_split(p, i, a + x, y);
        if ends_in(p, i, a + x) {
            lemma_ends_split(p, i, a, x);
            if i < p.len() {
                assert(p[i] == a[i - i]);
                lemma_structure_byte(p, i, s);
            }
        } else {
            lemma_has_split(p, i, a, x);
            assert(p[i] == a[i - i]);
            lemma_structure_byte(p, i, s);
            lemma_structure_parts(p, i, s);
        }
    }
}

/// What follows the first byte of a scalability structure is read as it is laid out.
proof fn lemma_structure_parts(p: Seq<u8>, i: int, s: StructureParts)
    requires
        is_valid_structure(s),
        is_supported_structure(s),
        0 <= i < p.len(),
        p[i] == structure_byte(s),
        has_at(p, i + 1, sizes_part(s)),
    ensures
        has_at(p, i + 1 + sizes_part(s).len(), pictures_part(s)) ==> structure_at(p, i) == Ok::<
            (StructureModel, int),
            PacketError,
        >((structure_of(s), i + 1 + sizes_part(s).len() + pictures_part(s).len())),
        ends_in(p, i + 1 + sizes_part(s).len(), pictures_part(s)) ==> structure_at(p, i) == Err::<
            (StructureModel, int),
            PacketError,
        >(PacketError::ErrShortPacket),
{
    lemma_structure_byte(p, i, s);
    let n = match s.sizes {
        Some(sizes) => sizes.len() as int,
        None => 0,
    };
    let j = i + 1 + 4 * n;
    assert(sizes_part(s).len() == 4 * n);
    let model = structure_of(s);
    if let Some(sizes) = s.sizes {
        lemma_sizes(p, i + 1, sizes);
    }
    assert(sizes_at(p, i + 1, n) =~= model.sizes);
    match s.pictures {
        Some(l) => {
            let head = seq![l.len() as u8];
            let y = pictures_bytes(l);
            if has_at(p, j, head + y) {
                lemma_has_split(p, j, head, y);
                assert(p[j] == head[j - j]);
            }
            if ends_in(p, j, head + y) {
                lemma_ends_split(p, j, head, y);
                if has_at(p, j, head) {
                    assert(p[j] == head[j - j]);
                }
            }
            lemma_pictures(p, j + 1, l);
        },
        None => {
            assert(pictures_at(p, j, 0) == Ok::<(Seq<PictureModel>, int), PacketError>(
                (Seq::empty(), j),
            ));
        },
    }
}

/// The digits of a sum of different powers of two.
proof fn lemma_digits(f: int, i: int, p: int, l: int, x: int, b: int, e: int, v: int, z: int)
    requires
        0 <= i <= 1,
        0 <= p <= 1,
        0 <= l <= 1,
        0 <= x <= 1,
        0 <= b <= 1,
        0 <= e <= 1,
        0 <= v <= 1,
        0 <= z <= 1,
        f == 128 * i + 64 * p + 32 * l + 16 * x + 8 * b + 4 * e + 2 * v + z,
    ensures
        f / 128 % 2 == i,
        f / 64 % 2 == p,
        f / 32 % 2 == l,
        f / 16 % 2 == x,
        f / 8 % 2 == b,
        f / 4 % 2 == e,
        f / 2 % 2 == v,
        f % 2 == z,
{
    assert(f / 2 == 64 * i + 32 * p + 16 * l + 8 * x + 4 * b + 2 * e + v);
    assert(f / 4 == 32 * i + 16 * p + 8 * l + 4 * x + 2 * b + e);
    assert(f / 8 == 16 * i + 8 * p + 4 * l + 2 * x + b);
    assert(f / 16 == 8 * i + 4 * p + 2 * l + x);
    assert(f / 32 == 4 * i + 2 * p + l);
    assert(f / 64 == 2 * i + p);
    assert(f / 128 == i);
}

/// The flags of a descriptor say what it holds.
pub(crate) proof fn lemma_flags(x: Parts)
    ensures
        ({
            let f = flags_byte(x);
            &&& bit(f, 7) == (x.picture_id is Some)
            &&& bit(f, 6) == x.p
            &&& bit(f, 5) == (x.layer is Some)
            &&& bit(f, 4) == x.f
            &&& bit(f, 3) == x.b
            &&& bit(f, 2) == x.e
            &&& bit(f, 1) == (x.structure is Some)
            &&& bit(f, 0) == x.z
        }),
{
    lemma_bits(flags_byte(x));
    lemma_digits(
        flags_byte(x) as int,
        one(x.picture_id is Some),
        one(x.p),
        one(x.layer is Some),
        one(x.f),
        one(x.b),
        one(x.e),
        one(x.structure is Some),
        one(x.z),
    );
}

/// Where the parts of a descriptor end.
pub open spec fn ends(x: Parts) -> (int, int, int, int) {
    let i1 = 1 + picture_id_part(x).len();
    let i2 = i1 + layer_part(x).len();
    let i3 = i2 + tl0picidx_part(x).len();
    let i4 = i3 + x.refs.len();
    (i1 as int, i2 as int, i3 as int, i4 as int)
}

/// The descriptor up to and with its layer indices.
pub open spec fn layout_to_layer(x: Parts) -> Seq<u8> {
    seq![flags_byte(x)] + picture_id_part(x) + layer_part(x)
}

/// The descriptor without its scalability structure.
pub open spec fn layout_to_refs(x: Parts) -> Seq<u8> {
    layout_to_layer(x) + tl0picidx_part(x) + refs_bytes(x.refs)
}

/// The flags and the picture id are read as they are laid out.
proof fn lemma_read_picture_id(p: Seq<u8>, x: Parts)
    requires
        is_valid(x),
        has_at(p, 0, seq![flags_byte(x)] + picture_id_part(x)),
    ensures
        p.len() > 0,
        p[0] == flags_byte(x),
        optional(bit(p[0], 7), |i: int| picture_id_at(p, i), 1) == Ok::<
            (Option<u16>, int),
            PacketError,
        >((descriptor_of(x).picture_id, ends(x).0)),
{
    lemma_flags(x);
    lemma_has_split(p, 0, seq![flags_byte(x)], picture_id_part(x));
    assert(p[0] == seq![flags_byte(x)][0 - 0]);
    if let Some((v, long)) = x.picture_id {
        lemma_picture_id(p, 1, v, long);
    }
}

/// The descriptor up to its layer indices is read as it is laid out.
proof fn lemma_read_layer(p: Seq<u8>, x: Parts)
    requires
        is_valid(x),
        x.layer matches Some(l) ==> l.sid < 3,
        has_at(p, 0, layout_to_layer(x)),
    ensures
        has_at(p, 0, seq![flags_byte(x)] + picture_id_part(x)),
        optional(bit(p[0], 5), |i: int| layer_at(p, i), ends(x).0) == Ok::<
            (Option<LayerIndices>, int),
            PacketError,
        >((x.layer, ends(x).1)),
{
    lemma_flags(x);
    lemma_has_split(p, 0, seq![flags_byte(x)] + picture_id_part(x), layer_part(x));
    lemma_read_picture_id(p, x);
    if let Some(l) = x.layer {
        lemma_layer(p, ends(x).0, l);
    }
}

/// The descriptor up to its reference indices is read as it is laid out.
proof fn lemma_read_refs(p: Seq<u8>, x: Parts)
    requires
        is_valid(x),
        x.layer matches Some(l) ==> l.sid < 3,
        has_at(p, 0, layout_to_refs(x)),
    ensures
        has_at(p, 0, layout_to_layer(x)),
        optional(bit(p[0], 5) && !bit(p[0], 4), |i: int| byte_at(p, i), ends(x).1) == Ok::<
            (Option<u8>, int),
            PacketError,
        >((descriptor_of(x).tl0picidx, ends(x).2)),
        optional(bit(p[0], 4) && bit(p[0], 6), |i: int| refs_at(p, i), ends(x).2) == Ok::<
            (Option<Seq<u8>>, int),
            PacketError,
        >(
            (
                if x.refs.len() > 0 {
                    Some(x.refs)
                } else {
                    None
                },
                ends(x).3,
            ),
        ),
{
    lemma_flags(x);
    let t = layout_to_layer(x);
    lemma_has_split(p, 0, t + tl0picidx_part(x), refs_bytes(x.refs));
    lemma_has_split(p, 0, t, tl0picidx_part(x));
    lemma_read_layer(p, x);
    lemma_read_picture_id(p, x);
    assert(t.len() == ends(x).1);
    if x.layer is Some && !x.f {
        let i = ends(x).1;
        assert(p[i] == seq![x.tl0picidx][i - i]);
    }
    if x.refs.len() > 0 {
        lemma_refs(p, ends(x).2, x.refs);
    }
}

/// A payload descriptor is read as it is laid out, whatever follows it: reading inverts laying out,
/// for all picture ids, layers, references and structures, and for all bits that have no meaning.
pub proof fn law_descriptors_are_read_as_laid_out(p: Seq<u8>, x: Parts)
    requires
        is_valid(x),
        is_supported(x),
        has_at(p, 0, layout(x)),
    ensures
        header(p) == Ok::<HeaderModel, PacketError>(descriptor_of(x)),
{
    lemma_flags(x);
    assert(layout(x) =~= layout_to_refs(x) + structure_part(x));
    lemma_has_split(p, 0, layout_to_refs(x), structure_part(x));
    lemma_read_refs(p, x);
    lemma_read_layer(p, x);
    lemma_read_picture_id(p, x);
    assert(layout_to_refs(x).len() == ends(x).3);
    if let Some(s) = x.structure {
        lemma_structure(p, ends(x).3, s);
    }
    assert(x.refs.len() == 0 ==> x.refs =~= Seq::empty());
}

/// A packet that ends within its payload descriptor is too short.
pub proof fn law_cut_off_descriptors_are_too_short(p: Seq<u8>, x: Parts)
    requires
        is_valid(x),
        is_supported(x),
        ends_in(p, 0, layout(x)),
    ensures
        header(p) == Err::<HeaderModel, PacketError>(PacketError::ErrShortPacket),
{
    lemma_flags(x);
    let a = seq![flags_byte(x)];
    let b = picture_id_part(x);
    let c = layer_part(x);
    let d = tl0picidx_part(x);
    let e = refs_bytes(x.refs);
    let f = structure_part(x);
    assert(layout(x) == a + b + c + d + e + f);
    lemma_ends_split(p, 0, a + b + c + d + e, f);
    if ends_in(p, 0, a + b + c + d + e) {
        lemma_ends_split(p, 0, a + b + c + d, e);
        if ends_in(p, 0, a + b + c + d) {
            lemma_ends_split(p, 0, a + b + c, d);
            if ends_in(p, 0, a + b + c) {
                lemma_ends_split(p, 0, a + b, c);
                if ends_in(p, 0, a + b) {
                    lemma_ends_split(p, 0, a, b);
                    if has_at(p, 0, a) {
                        assert(p[0] == a[0 - 0]);
                        if let Some((v, long)) = x.picture_id {
                            lemma_picture_id(p, 1, v, long);
                        }
                    }
                } else {
                    lemma_read_picture_id(p, x);
                }
            } else {
                lemma_read_layer(p, x);
                lemma_read_picture_id(p, x);
            }
        } else {
            lemma_has_split(p, 0, a + b + c, d);
            lemma_read_layer(p, x);
            lemma_read_picture_id(p, x);
            if x.layer is Some && !x.f {
                let i = ends(x).1;
                assert(has_at(p, i, d));
                assert(p[i] == d[i - i]);
            }
            lemma_refs(p, ends(x).2, x.refs);
        }
    } else {
        lemma_read_refs(p, x);
        lemma_read_layer(p, x);
        lemma_read_picture_id(p, x);
        if let Some(s) = x.structure {
            lemma_structure(p, ends(x).3, s);
        }
    }
}

/// A packet of a spatial layer that is not supported is refused, whatever follows its layer indices.
pub proof fn law_high_layers_are_refused(p: Seq<u8>, x: Parts, l: LayerIndices)
    requires
        is_valid(x),
        x.layer == Some(l),
        l.sid >= 3,
        has_at(p, 0, layout_to_layer(x)),
    ensures
        header(p) == Err::<HeaderModel, PacketError>(PacketError::ErrTooManySpatialLayers),
{
    lemma_flags(x);
    lemma_has_split(p, 0, seq![flags_byte(x)] + picture_id_part(x), layer_part(x));
    lemma_read_picture_id(p, x);
    lemma_layer(p, ends(x).0, l);
}

/// A scalability structure with resolutions of more layers than are supported is refused, whatever
/// follows its first byte.
pub proof fn law_many_resolutions_are_refused(p: Seq<u8>, x: Parts, s: StructureParts)
    requires
        is_valid(x),
        x.layer matches Some(l) ==> l.sid < 3,
        x.structure == Some(s),
        s.sizes is Some,
        s.ns >= 3,
        has_at(p, 0, layout_to_refs(x) + seq![structure_byte(s)]),
    ensures
        header(p) == Err::<HeaderModel, PacketError>(PacketError::ErrTooManySpatialLayers),
{
    lemma_flags(x);
    lemma_has_split(p, 0, layout_to_refs(x), seq![structure_byte(s)]);
    lemma_read_refs(p, x);
    lemma_read_layer(p, x);
    lemma_read_picture_id(p, x);
    let i = ends(x).3;
    assert(layout_to_refs(x).len() == i);
    assert(p[i] == seq![structure_byte(s)][i - i]);
    lemma_structure_byte(p, i, s);
}

/// Every picture id of 15 bits is read from its two bytes, and every one of 7 bits from its one.
pub proof fn law_picture_ids_are_read(v: u16, rest: Seq<u8>)
    requires
        v < 0x8000,
    ensures
        header(seq![0x80u8, (0x80 + v / 256) as u8, (v % 256) as u8] + rest) matches Ok(h)
            && h.picture_id == Some(v) && h.len == 3,
        v < 0x80 ==> (header(seq![0x80u8, v as u8] + rest) matches Ok(h) && h.picture_id == Some(v)
            && h.len == 2),
{
    let x = Parts {
        p: false,
        f: false,
        b: false,
        e: false,
        z: false,
        picture_id: Some((v, true)),
        layer: None,
        tl0picidx: 0,
        refs: Seq::empty(),
        structure: None,
    };
    assert(layout(x) =~= seq![0x80u8, (0x80 + v / 256) as u8, (v % 256) as u8]);
    law_descriptors_are_read_as_laid_out(
        seq![0x80u8, (0x80 + v / 256) as u8, (v % 256) as u8] + rest,
        x,
    );
    if v < 0x80 {
        let y = Parts { picture_id: Some((v, false)), ..x };
        assert(layout(y) =~= seq![0x80u8, v as u8]);
        law_descriptors_are_read_as_laid_out(seq![0x80u8, v as u8] + rest, y);
    }
}

/// What a packet adds to its frame is what follows its payload descriptor, to the last byte; and it
/// tells the picture id of the descriptor.
pub proof fn law_packets_add_what_follows(
    x: Parts,
    rest: Seq<u8>,
    pre: Vp9Depacketizer,
    out: Seq<u8>,
    extra: CodecExtra,
    post: Vp9Depacketizer,
    out_post: Seq<u8>,
    extra_post: CodecExtra,
    r: Result<(), PacketError>,
)
    requires
        is_valid(x),
        is_supported(x),
        Vp9Depacketizer::may_depacketize(
            pre,
            layout(x) + rest,
            out,
            extra,
            post,
            out_post,
            extra_post,
            r,
        ),
    ensures
        r is Ok,
        out_post == out + rest,
        extra_post == CodecExtra::Vp9(Vp9CodecExtra { pid: descriptor_of(x).picture_id }),
        payload(layout(x) + rest) == rest,
{
    law_descriptors_are_read_as_laid_out(layout(x) + rest, x);
    assert((layout(x) + rest).skip(layout(x).len() as int) =~= rest);
}

/// A packet without a whole payload descriptor adds nothing, and tells nothing.
pub proof fn law_broken_packets_add_nothing(
    packet: Seq<u8>,
    e: PacketError,
    pre: Vp9Depacketizer,
    out: Seq<u8>,
    extra: CodecExtra,
    post: Vp9Depacketizer,
    out_post: Seq<u8>,
    extra_post: CodecExtra,
    r: Result<(), PacketError>,
)
    requires
        header(packet) == Err::<HeaderModel, PacketError>(e),
        Vp9Depacketizer::may_depacketize(
            pre,
            packet,
            out,
            extra,
            post,
            out_post,
            extra_post,
            r,
        ),
    ensures
        r == Err::<(), PacketError>(e),
        out_post == out,
        extra_post == extra,
{
}

/// The payloads of packets that follow each other are the payloads of the first ones, then those of
/// the others; that of one packet is its own.
pub proof fn law_payloads_join(a: Seq<Entry>, b: Seq<Entry>, one: Entry)
    ensures
        payloads(a + b) == payloads(a) + payloads(b),
        payloads(seq![one]) == payload(one.data@),
    decreases b.len(),
{
    reveal_with_fuel(payloads, 2);
    assert(seq![one].drop_last() =~= Seq::empty());
    assert(payloads(seq![one]) =~= payload(one.data@));
    if b.len() == 0 {
        assert(a + b =~= a);
        assert(payloads(a) + payloads(b) =~= payloads(a));
    } else {
        law_payloads_join(a, b.drop_last(), one);
        assert((a + b).drop_last() =~= a + b.drop_last());
        assert(payloads(a + b) =~= payloads(a) + payloads(b));
    }
}

/// A VP9 frame begins where the bit of value 8 is set in the first byte, and ends where the bit of
/// value 4 is, or the marker.
pub proof fn law_vp9_heads_and_tails(d: Vp9Depacketizer, marker: bool, packet: Seq<u8>, r: bool)
    ensures
        d.may_head(packet, r) <==> r == (packet.len() > 0 && packet[0] / 8 % 2 == 1),
        d.may_tail(marker, packet, r) <==> r == (marker || (packet.len() > 0 && packet[0] / 4 % 2
            == 1)),
{
    if packet.len() > 0 {
        lemma_bits(packet[0]);
    }
}

} // verus!
