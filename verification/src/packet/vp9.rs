//! VP9 payloads: the payload descriptor at the start of each packet, and the depacketizer.

use vstd::prelude::*;

use crate::packet::buffer_rx::{is_built_from, is_made_of, is_run_of, is_trace, may_unpack, Unpacking};
use crate::packet::codec::{CodecExtra, Depacketizer, PacketError, Vp9CodecExtra};
use crate::packet::meta::Depacketized;
use crate::packet::segments::Entry;

verus! {

/// Most spatial layers that are supported.
pub const MAX_SPATIAL_LAYERS: u8 = 3;

/// Bit `n` of a byte, counted from the lowest.
pub open spec fn bit(b: u8, n: u8) -> bool {
    (b >> n) & 1 == 1
}

/// Bit `n` of a byte, counted from the lowest.
pub(crate) fn has_bit(b: u8, n: u8) -> (r: bool)
    requires
        n < 8,
    ensures
        r == bit(b, n),
{
    (b >> n) & 1 == 1
}

/// One picture of a picture group.
///
/// ```text
///      +-+-+-+-+-+-+-+-+
///      |  T  |U| R |-|-|
///      +-+-+-+-+-+-+-+-+              -|
///      |    P_DIFF     |               . R times
///      +-+-+-+-+-+-+-+-+              -|
/// ```
#[verifier::ext_equal]
pub struct PictureModel {
    /// Temporal layer.
    pub tid: u8,
    /// Whether a receiver can switch to a higher temporal layer here.
    pub u: bool,
    /// Which pictures this one refers to.
    pub pdiff: Seq<u8>,
}

/// The scalability structure of a stream.
///
/// ```text
///      +-+-+-+-+-+-+-+-+
/// V:   | N_S |Y|G|-|-|-|
///      +-+-+-+-+-+-+-+-+              -|
/// Y:   |     WIDTH     | (OPTIONAL)    .
///      +               +               .
///      |               | (OPTIONAL)    .
///      +-+-+-+-+-+-+-+-+               . N_S + 1 times
///      |     HEIGHT    | (OPTIONAL)    .
///      +               +               .
///      |               | (OPTIONAL)    .
///      +-+-+-+-+-+-+-+-+              -|
/// G:   |      N_G      | (OPTIONAL)
///      +-+-+-+-+-+-+-+-+
/// N_G: |   PICTURES    | N_G times
///      +-+-+-+-+-+-+-+-+
/// ```
#[verifier::ext_equal]
pub struct StructureModel {
    /// Number of spatial layers, less one.
    pub ns: u8,
    /// Whether the resolutions follow.
    pub y: bool,
    /// Whether a picture group follows.
    pub g: bool,
    /// Width and height of each spatial layer.
    pub sizes: Seq<(u16, u16)>,
    /// Number of pictures in the picture group.
    pub ng: u8,
    /// The picture group.
    pub pictures: Seq<PictureModel>,
}

/// Which layers a packet belongs to.
///
/// ```text
///      +-+-+-+-+-+-+-+-+
/// L:   |  T  |U|  S  |D|
///      +-+-+-+-+-+-+-+-+
/// ```
#[derive(Clone, Copy, Debug, PartialEq, Eq, Structural)]
pub struct LayerIndices {
    /// Temporal layer.
    pub tid: u8,
    /// Whether a receiver can switch to a higher temporal layer here.
    pub u: bool,
    /// Spatial layer.
    pub sid: u8,
    /// Whether the layer depends on the one below.
    pub d: bool,
}

/// A payload descriptor.
///
/// ```text
///      +-+-+-+-+-+-+-+-+
///      |I|P|L|F|B|E|V|Z|
///      +-+-+-+-+-+-+-+-+
/// I:   |M| PICTURE ID  | (OPTIONAL)
///      +-+-+-+-+-+-+-+-+
/// M:   | EXTENDED PID  | (OPTIONAL)
///      +-+-+-+-+-+-+-+-+
/// L:   |  T  |U|  S  |D| (OPTIONAL)
///      +-+-+-+-+-+-+-+-+
///      |   TL0PICIDX   | (OPTIONAL, if F is not set)
///      +-+-+-+-+-+-+-+-+
/// P,F: | P_DIFF      |N| (OPTIONAL, again as long as N is set)
///      +-+-+-+-+-+-+-+-+
/// V:   | STRUCTURE     | (OPTIONAL)
///      +-+-+-+-+-+-+-+-+
/// ```
#[verifier::ext_equal]
pub struct HeaderModel {
    /// The first byte.
    pub flags: u8,
    /// The picture id, of 7 or 15 bits.
    pub picture_id: Option<u16>,
    /// Which layers the packet belongs to.
    pub layer: Option<LayerIndices>,
    /// The picture of the base layer that the packet builds on.
    pub tl0picidx: Option<u8>,
    /// Which pictures this one refers to.
    pub pdiff: Seq<u8>,
    /// The scalability structure.
    pub structure: Option<StructureModel>,
    /// Length of the descriptor, in bytes.
    pub len: int,
}

/// The 16 bit number at `i`, highest byte first.
pub open spec fn be16(p: Seq<u8>, i: int) -> u16 {
    ((p[i] as u16) << 8u16) | (p[i + 1] as u16)
}

/// The picture id at `i`, and where it ends.
pub open spec fn picture_id_at(p: Seq<u8>, i: int) -> Result<(u16, int), PacketError> {
    if i >= p.len() {
        Err(PacketError::ErrShortPacket)
    } else if !bit(p[i], 7) {
        Ok(((p[i] & 0x7f) as u16, i + 1))
    } else if i + 1 >= p.len() {
        Err(PacketError::ErrShortPacket)
    } else {
        Ok(((((p[i] & 0x7f) as u16) << 8u16) | (p[i + 1] as u16), i + 2))
    }
}

/// The layer indices at `i`.
pub open spec fn layer_at(p: Seq<u8>, i: int) -> Result<(LayerIndices, int), PacketError> {
    if i >= p.len() {
        Err(PacketError::ErrShortPacket)
    } else if (p[i] >> 1u8) & 7 >= MAX_SPATIAL_LAYERS {
        Err(PacketError::ErrTooManySpatialLayers)
    } else {
        Ok(
            (
                LayerIndices {
                    tid: p[i] >> 5u8,
                    u: bit(p[i], 4),
                    sid: (p[i] >> 1u8) & 7,
                    d: bit(p[i], 0),
                },
                i + 1,
            ),
        )
    }
}

/// The single byte at `i`.
pub open spec fn byte_at(p: Seq<u8>, i: int) -> Result<(u8, int), PacketError> {
    if i >= p.len() {
        Err(PacketError::ErrShortPacket)
    } else {
        Ok((p[i], i + 1))
    }
}

/// The reference indices from `i` on: the first, and after each one whose lowest bit is set, the
/// next.
pub open spec fn refs_at(p: Seq<u8>, i: int) -> Result<(Seq<u8>, int), PacketError>
    decreases p.len() - i,
{
    if i >= p.len() {
        Err(PacketError::ErrShortPacket)
    } else if !bit(p[i], 0) {
        Ok((seq![p[i] >> 1u8], i + 1))
    } else {
        match refs_at(p, i + 1) {
            Ok((rest, end)) => Ok((seq![p[i] >> 1u8] + rest, end)),
            Err(e) => Err(e),
        }
    }
}

/// The `n` pictures from `i` on.
pub open spec fn pictures_at(p: Seq<u8>, i: int, n: int) -> Result<
    (Seq<PictureModel>, int),
    PacketError,
>
    decreases n,
{
    if n <= 0 {
        Ok((Seq::empty(), i))
    } else if i >= p.len() {
        Err(PacketError::ErrShortPacket)
    } else {
        let r = (p[i] >> 2u8) & 3;
        if i + 1 + r > p.len() {
            Err(PacketError::ErrShortPacket)
        } else {
            let first = PictureModel {
                tid: p[i] >> 5u8,
                u: bit(p[i], 4),
                pdiff: p.subrange(i + 1, i + 1 + r),
            };
            match pictures_at(p, i + 1 + r, n - 1) {
                Ok((rest, end)) => Ok((seq![first] + rest, end)),
                Err(e) => Err(e),
            }
        }
    }
}

/// The `n` resolutions from `i` on.
pub open spec fn sizes_at(p: Seq<u8>, i: int, n: int) -> Seq<(u16, u16)> {
    Seq::new(n as nat, |k: int| (be16(p, i + 4 * k), be16(p, i + 4 * k + 2)))
}

/// The scalability structure at `i`.
pub open spec fn structure_at(p: Seq<u8>, i: int) -> Result<(StructureModel, int), PacketError> {
    if i >= p.len() {
        Err(PacketError::ErrShortPacket)
    } else {
        let ns = p[i] >> 5u8;
        let y = bit(p[i], 4);
        let g = bit(p[i], 3);
        let n = if y {
            ns + 1
        } else {
            0
        };
        let j = i + 1 + 4 * n;
        if n > MAX_SPATIAL_LAYERS {
            Err(PacketError::ErrTooManySpatialLayers)
        } else if j > p.len() || (g && j >= p.len()) {
            Err(PacketError::ErrShortPacket)
        } else {
            let ng = if g {
                p[j]
            } else {
                0
            };
            match pictures_at(p, if g { j + 1 } else { j }, ng as int) {
                Ok((pictures, end)) => Ok(
                    (
                        StructureModel { ns, y, g, sizes: sizes_at(p, i + 1, n), ng, pictures },
                        end,
                    ),
                ),
                Err(e) => Err(e),
            }
        }
    }
}

/// The optional part that `at` reads at `i`.
pub open spec fn optional<T>(
    present: bool,
    at: spec_fn(int) -> Result<(T, int), PacketError>,
    i: int,
) -> Result<(Option<T>, int), PacketError> {
    if present {
        match at(i) {
            Ok((v, end)) => Ok((Some(v), end)),
            Err(e) => Err(e),
        }
    } else {
        Ok((None, i))
    }
}

/// The payload descriptor of a packet.
pub open spec fn header(p: Seq<u8>) -> Result<HeaderModel, PacketError> {
    if p.len() == 0 {
        Err(PacketError::ErrShortPacket)
    } else {
        let flags = p[0];
        match optional(bit(flags, 7), |i: int| picture_id_at(p, i), 1) {
            Err(e) => Err(e),
            Ok((picture_id, i1)) => match optional(bit(flags, 5), |i: int| layer_at(p, i), i1) {
                Err(e) => Err(e),
                Ok((layer, i2)) => match optional(
                    bit(flags, 5) && !bit(flags, 4),
                    |i: int| byte_at(p, i),
                    i2,
                ) {
                    Err(e) => Err(e),
                    Ok((tl0picidx, i3)) => match optional(
                        bit(flags, 4) && bit(flags, 6),
                        |i: int| refs_at(p, i),
                        i3,
                    ) {
                        Err(e) => Err(e),
                        Ok((refs, i4)) => match optional(
                            bit(flags, 1),
                            |i: int| structure_at(p, i),
                            i4,
                        ) {
                            Err(e) => Err(e),
                            Ok((structure, len)) => Ok(
                                HeaderModel {
                                    flags,
                                    picture_id,
                                    layer,
                                    tl0picidx,
                                    pdiff: match refs {
                                        Some(l) => l,
                                        None => Seq::empty(),
                                    },
                                    structure,
                                    len,
                                },
                            ),
                        },
                    },
                },
            },
        }
    }
}

/// One picture of a picture group.
#[derive(Debug, PartialEq, Eq)]
pub struct Vp9Picture {
    /// Temporal layer.
    pub tid: u8,
    /// Whether a receiver can switch to a higher temporal layer here.
    pub u: bool,
    /// Which pictures this one refers to.
    pub pdiff: Vec<u8>,
}

impl View for Vp9Picture {
    type V = PictureModel;

    open spec fn view(&self) -> PictureModel {
        PictureModel { tid: self.tid, u: self.u, pdiff: self.pdiff@ }
    }
}

/// The scalability structure of a stream.
#[derive(Debug, PartialEq, Eq)]
pub struct Vp9Structure {
    /// Number of spatial layers, less one.
    pub ns: u8,
    /// Whether the resolutions follow.
    pub y: bool,
    /// Whether a picture group follows.
    pub g: bool,
    /// Width and height of each spatial layer.
    pub sizes: Vec<(u16, u16)>,
    /// Number of pictures in the picture group.
    pub ng: u8,
    /// The picture group.
    pub pictures: Vec<Vp9Picture>,
}

impl View for Vp9Structure {
    type V = StructureModel;

    open spec fn view(&self) -> StructureModel {
        StructureModel {
            ns: self.ns,
            y: self.y,
            g: self.g,
            sizes: self.sizes@,
            ng: self.ng,
            pictures: self.pictures@.map_values(|x: Vp9Picture| x@),
        }
    }
}

/// A payload descriptor.
#[derive(Debug, PartialEq, Eq)]
pub struct Vp9Header {
    /// The first byte.
    pub flags: u8,
    /// The picture id, of 7 or 15 bits.
    pub picture_id: Option<u16>,
    /// Which layers the packet belongs to.
    pub layer: Option<LayerIndices>,
    /// The picture of the base layer that the packet builds on.
    pub tl0picidx: Option<u8>,
    /// Which pictures this one refers to.
    pub pdiff: Vec<u8>,
    /// The scalability structure.
    pub structure: Option<Vp9Structure>,
    /// Length of the descriptor, in bytes.
    pub len: usize,
}

impl View for Vp9Header {
    type V = HeaderModel;

    open spec fn view(&self) -> HeaderModel {
        HeaderModel {
            flags: self.flags,
            picture_id: self.picture_id,
            layer: self.layer,
            tl0picidx: self.tl0picidx,
            pdiff: self.pdiff@,
            structure: match self.structure {
                Some(s) => Some(s@),
                None => None,
            },
            len: self.len as int,
        }
    }
}

/// Reads the picture id at `i`.
fn parse_picture_id(p: &[u8], i: usize) -> (r: Result<(u16, usize), PacketError>)
    requires
        i <= p@.len(),
    ensures
        match r {
            Ok((v, end)) => picture_id_at(p@, i as int) == Ok::<(u16, int), PacketError>(
                (v, end as int),
            ) && i <= end <= p@.len(),
            Err(e) => picture_id_at(p@, i as int) == Err::<(u16, int), PacketError>(e),
        },
{
    if i >= p.len() {
        return Err(PacketError::ErrShortPacket);
    }
    let b: u8 = p[i];
    if !has_bit(b, 7) {
        return Ok(((b & 0x7f) as u16, i + 1));
    }
    if i + 1 >= p.len() {
        return Err(PacketError::ErrShortPacket);
    }
    Ok(((((b & 0x7f) as u16) << 8u16) | (p[i + 1] as u16), i + 2))
}

/// Reads the layer indices at `i`.
fn parse_layer_info(p: &[u8], i: usize) -> (r: Result<(LayerIndices, usize), PacketError>)
    requires
        i <= p@.len(),
    ensures
        match r {
            Ok((v, end)) => layer_at(p@, i as int) == Ok::<(LayerIndices, int), PacketError>(
                (v, end as int),
            ) && i <= end <= p@.len(),
            Err(e) => layer_at(p@, i as int) == Err::<(LayerIndices, int), PacketError>(e),
        },
{
    if i >= p.len() {
        return Err(PacketError::ErrShortPacket);
    }
    let b: u8 = p[i];
    let layer = LayerIndices {
        tid: b >> 5u8,
        u: has_bit(b, 4),
        sid: (b >> 1u8) & 7,
        d: has_bit(b, 0),
    };
    if layer.sid >= MAX_SPATIAL_LAYERS {
        Err(PacketError::ErrTooManySpatialLayers)
    } else {
        Ok((layer, i + 1))
    }
}

/// Reads the reference indices from `i` on.
fn parse_ref_indices(p: &[u8], i: usize) -> (r: Result<(Vec<u8>, usize), PacketError>)
    requires
        i <= p@.len(),
    ensures
        match r {
            Ok((v, end)) => refs_at(p@, i as int) == Ok::<(Seq<u8>, int), PacketError>(
                (v@, end as int),
            ) && i <= end <= p@.len(),
            Err(e) => refs_at(p@, i as int) == Err::<(Seq<u8>, int), PacketError>(e),
        },
{
    let mut pdiff: Vec<u8> = Vec::new();
    let mut at: usize = i;
    loop
        invariant
            i <= at <= p@.len(),
            refs_at(p@, i as int) == (match refs_at(p@, at as int) {
                Ok((rest, end)) => Ok::<(Seq<u8>, int), PacketError>((pdiff@ + rest, end)),
                Err(e) => Err::<(Seq<u8>, int), PacketError>(e),
            }),
        decreases p@.len() - at,
    {
        if at >= p.len() {
            return Err(PacketError::ErrShortPacket);
        }
        let b: u8 = p[at];
        let ghost before = pdiff@;
        pdiff.push(b >> 1u8);
        at += 1;
        if !has_bit(b, 0) {
            proof {
                assert(pdiff@ =~= before + seq![b >> 1u8]);
            }
            return Ok((pdiff, at));
        }
        proof {
            if let Ok((rest, _)) = refs_at(p@, at as int) {
                assert(before + (seq![b >> 1u8] + rest) =~= pdiff@ + rest);
            }
        }
    }
}

/// Reads the `n` pictures from `i` on.
fn parse_pictures(p: &[u8], i: usize, n: u8) -> (r: Result<(Vec<Vp9Picture>, usize), PacketError>)
    requires
        i <= p@.len(),
    ensures
        match r {
            Ok((v, end)) => pictures_at(p@, i as int, n as int) == Ok::<
                (Seq<PictureModel>, int),
                PacketError,
            >((v@.map_values(|x: Vp9Picture| x@), end as int)) && i <= end <= p@.len(),
            Err(e) => pictures_at(p@, i as int, n as int) == Err::<
                (Seq<PictureModel>, int),
                PacketError,
            >(e),
        },
{
    let mut pictures: Vec<Vp9Picture> = Vec::new();
    let mut at: usize = i;
    let mut left: u8 = n;
    while left > 0
        invariant
            i <= at <= p@.len(),
            pictures_at(p@, i as int, n as int) == (match pictures_at(p@, at as int, left as int) {
                Ok((rest, end)) => Ok::<(Seq<PictureModel>, int), PacketError>(
                    (pictures@.map_values(|x: Vp9Picture| x@) + rest, end),
                ),
                Err(e) => Err::<(Seq<PictureModel>, int), PacketError>(e),
            }),
        decreases left,
    {
        if at >= p.len() {
            return Err(PacketError::ErrShortPacket);
        }
        let b: u8 = p[at];
        let r: usize = ((b >> 2u8) & 3) as usize;
        assert((b >> 2u8) & 3 <= 3) by (bit_vector);
        if p.len() - at - 1 < r {
            return Err(PacketError::ErrShortPacket);
        }
        let mut pdiff: Vec<u8> = Vec::new();
        let mut k: usize = 0;
        while k < r
            invariant
                k <= r,
                at + 1 + r <= p@.len() <= usize::MAX,
                pdiff@ == p@.subrange(at + 1, at + 1 + k),
            decreases r - k,
        {
            pdiff.push(p[at + 1 + k]);
            k += 1;
            assert(pdiff@ =~= p@.subrange(at + 1, at + 1 + k));
        }
        let ghost before = pictures@.map_values(|x: Vp9Picture| x@);
        let picture = Vp9Picture { tid: b >> 5u8, u: has_bit(b, 4), pdiff };
        let ghost model = picture@;
        pictures.push(picture);
        proof {
            assert(pictures@.map_values(|x: Vp9Picture| x@) =~= before.push(model));
            if let Ok((rest, _)) = pictures_at(p@, at + 1 + r, left - 1) {
                assert(before + (seq![model] + rest) =~= before.push(model) + rest);
            }
        }
        at = at + 1 + r;
        left -= 1;
    }
    proof {
        let done = pictures@.map_values(|x: Vp9Picture| x@);
        assert(done + Seq::<PictureModel>::empty() =~= done);
    }
    Ok((pictures, at))
}

/// Reads the 16 bit number at `i`.
fn get_u16(p: &[u8], i: usize) -> (r: u16)
    requires
        i + 2 <= p@.len(),
    ensures
        r == be16(p@, i as int),
{
    ((p[i] as u16) << 8u16) | (p[i + 1] as u16)
}

/// Reads the scalability structure at `i`.
fn parse_ssdata(p: &[u8], i: usize) -> (r: Result<(Vp9Structure, usize), PacketError>)
    requires
        i <= p@.len(),
    ensures
        match r {
            Ok((v, end)) => structure_at(p@, i as int) == Ok::<(StructureModel, int), PacketError>(
                (v@, end as int),
            ) && i <= end <= p@.len(),
            Err(e) => structure_at(p@, i as int) == Err::<(StructureModel, int), PacketError>(e),
        },
{
    if i >= p.len() {
        return Err(PacketError::ErrShortPacket);
    }
    let b: u8 = p[i];
    let ns: u8 = b >> 5u8;
    assert(b >> 5u8 <= 7) by (bit_vector);
    let y = has_bit(b, 4);
    let g = has_bit(b, 3);
    let n: u8 = if y {
        ns + 1
    } else {
        0
    };
    if n > MAX_SPATIAL_LAYERS {
        return Err(PacketError::ErrTooManySpatialLayers);
    }
    if p.len() - i - 1 < 4 * n as usize {
        return Err(PacketError::ErrShortPacket);
    }
    let mut sizes: Vec<(u16, u16)> = Vec::new();
    let mut k: u8 = 0;
    while k < n
        invariant
            k <= n <= 8,
            i + 1 + 4 * n <= p@.len() <= usize::MAX,
            sizes@ == sizes_at(p@, i + 1, k as int),
        decreases n - k,
    {
        let at: usize = i + 1 + 4 * k as usize;
        sizes.push((get_u16(p, at), get_u16(p, at + 2)));
        k += 1;
        assert(sizes@ =~= sizes_at(p@, i + 1, k as int));
    }
    let mut at: usize = i + 1 + 4 * n as usize;
    let mut ng: u8 = 0;
    if g {
        if at >= p.len() {
            return Err(PacketError::ErrShortPacket);
        }
        ng = p[at];
        at += 1;
    }
    match parse_pictures(p, at, ng) {
        Ok((pictures, end)) => Ok((Vp9Structure { ns, y, g, sizes, ng, pictures }, end)),
        Err(e) => Err(e),
    }
}

impl Vp9Header {
    /// Reads the payload descriptor of a packet.
    pub fn parse(p: &[u8]) -> (r: Result<Vp9Header, PacketError>)
        ensures
            match r {
                Ok(h) => header(p@) == Ok::<HeaderModel, PacketError>(h@) && 1 <= h.len <= p@.len(),
                Err(e) => header(p@) == Err::<HeaderModel, PacketError>(e),
            },
    {
        if p.len() == 0 {
            return Err(PacketError::ErrShortPacket);
        }
        let flags: u8 = p[0];
        let mut at: usize = 1;
        let mut picture_id: Option<u16> = None;
        if has_bit(flags, 7) {
            match parse_picture_id(p, at) {
                Ok((v, end)) => {
                    picture_id = Some(v);
                    at = end;
                },
                Err(e) => return Err(e),
            }
        }
        let ghost i1 = at as int;
        assert(optional(bit(flags, 7), |i: int| picture_id_at(p@, i), 1) == Ok::<
            (Option<u16>, int),
            PacketError,
        >((picture_id, i1)));
        let mut layer: Option<LayerIndices> = None;
        if has_bit(flags, 5) {
            match parse_layer_info(p, at) {
                Ok((v, end)) => {
                    layer = Some(v);
                    at = end;
                },
                Err(e) => return Err(e),
            }
        }
        let ghost i2 = at as int;
        assert(optional(bit(flags, 5), |i: int| layer_at(p@, i), i1) == Ok::<
            (Option<LayerIndices>, int),
            PacketError,
        >((layer, i2)));
        let mut tl0picidx: Option<u8> = None;
        if has_bit(flags, 5) && !has_bit(flags, 4) {
            if at >= p.len() {
                return Err(PacketError::ErrShortPacket);
            }
            tl0picidx = Some(p[at]);
            at += 1;
        }
        let ghost i3 = at as int;
        assert(optional(bit(flags, 5) && !bit(flags, 4), |i: int| byte_at(p@, i), i2) == Ok::<
            (Option<u8>, int),
            PacketError,
        >((tl0picidx, i3)));
        let mut pdiff: Vec<u8> = Vec::new();
        if has_bit(flags, 4) && has_bit(flags, 6) {
            match parse_ref_indices(p, at) {
                Ok((v, end)) => {
                    pdiff = v;
                    at = end;
                },
                Err(e) => return Err(e),
            }
        }
        let ghost i4 = at as int;
        let ghost refs = if bit(flags, 4) && bit(flags, 6) {
            Some(pdiff@)
        } else {
            None
        };
        assert(optional(bit(flags, 4) && bit(flags, 6), |i: int| refs_at(p@, i), i3) == Ok::<
            (Option<Seq<u8>>, int),
            PacketError,
        >((refs, i4)));
        let mut structure: Option<Vp9Structure> = None;
        if has_bit(flags, 1) {
            match parse_ssdata(p, at) {
                Ok((v, end)) => {
                    structure = Some(v);
                    at = end;
                },
                Err(e) => return Err(e),
            }
        }
        let h = Vp9Header { flags, picture_id, layer, tl0picidx, pdiff, structure, len: at };
        assert(optional(bit(flags, 1), |i: int| structure_at(p@, i), i4) == Ok::<
            (Option<StructureModel>, int),
            PacketError,
        >((h@.structure, at as int)));
        assert(h@.pdiff =~= (match refs {
            Some(l) => l,
            None => Seq::empty(),
        }));
        Ok(h)
    }
}

/// Turns VP9 packets into frames: strips the payload descriptors and joins what follows them.
#[derive(Clone, Copy, Debug, PartialEq, Eq, Structural)]
pub struct Vp9Depacketizer {}

impl Default for Vp9Depacketizer {
    fn default() -> (r: Vp9Depacketizer)
        ensures
            r == (Vp9Depacketizer {  }),
    {
        Vp9Depacketizer {  }
    }
}

/// What follows the payload descriptor.
pub open spec fn payload(p: Seq<u8>) -> Seq<u8> {
    match header(p) {
        Ok(h) => p.skip(h.len),
        Err(_) => Seq::empty(),
    }
}

impl Depacketizer for Vp9Depacketizer {
    /// A packet with a whole payload descriptor adds what follows it to the output. One without
    /// changes nothing.
    open spec fn may_depacketize(
        pre: Self,
        packet: Seq<u8>,
        out: Seq<u8>,
        extra: CodecExtra,
        post: Self,
        out_post: Seq<u8>,
        extra_post: CodecExtra,
        r: Result<(), PacketError>,
    ) -> bool {
        match header(packet) {
            Ok(h) => {
                &&& r is Ok
                &&& out_post == out + payload(packet)
                &&& extra_post == CodecExtra::Vp9(Vp9CodecExtra { pid: h.picture_id })
            },
            Err(e) => {
                &&& r == Err::<(), PacketError>(e)
                &&& out_post == out
                &&& extra_post == extra
            },
        }
    }

    /// A frame begins where the descriptor says so.
    open spec fn may_head(self, packet: Seq<u8>, r: bool) -> bool {
        r == (packet.len() > 0 && bit(packet[0], 3))
    }

    /// A frame ends where the descriptor or the marker says so.
    open spec fn may_tail(self, marker: bool, packet: Seq<u8>, r: bool) -> bool {
        r == (marker || (packet.len() > 0 && bit(packet[0], 2)))
    }

    fn depacketize(
        &mut self,
        packet: &[u8],
        out: &mut Vec<u8>,
        codec_extra: &mut CodecExtra,
    ) -> (r: Result<(), PacketError>) {
        match Vp9Header::parse(packet) {
            Ok(h) => {
                let mut i: usize = h.len;
                while i < packet.len()
                    invariant
                        h.len <= i <= packet@.len(),
                        out@ == old(out)@ + packet@.subrange(h.len as int, i as int),
                    decreases packet@.len() - i,
                {
                    out.push(packet[i]);
                    i += 1;
                    assert(out@ =~= old(out)@ + packet@.subrange(h.len as int, i as int));
                }
                assert(packet@.subrange(h.len as int, i as int) =~= payload(packet@));
                *codec_extra = CodecExtra::Vp9(Vp9CodecExtra { pid: h.picture_id });
                Ok(())
            },
            Err(e) => Err(e),
        }
    }

    fn is_partition_head(&self, packet: &[u8]) -> (r: bool) {
        packet.len() > 0 && has_bit(packet[0], 3)
    }

    fn is_partition_tail(&self, marker: bool, packet: &[u8]) -> (r: bool) {
        marker || (packet.len() > 0 && has_bit(packet[0], 2))
    }
}

/// The payloads of the packets, one after the other.
pub open spec fn payloads(run: Seq<Entry>) -> Seq<u8>
    decreases run.len(),
{
    if run.len() == 0 {
        Seq::empty()
    } else {
        payloads(run.drop_last()) + payload(run.last().data@)
    }
}

/// What the states of a depacketizer hold that has unpacked the first `n` packets.
proof fn lemma_trace(trace: Seq<Unpacking<Vp9Depacketizer>>, run: Seq<Entry>, n: int)
    requires
        is_trace(trace, run),
        0 <= n <= run.len(),
    ensures
        trace[n].out == payloads(run.take(n)),
        forall|k: int| 0 <= k < n ==> header((#[trigger] run[k]).data@) is Ok,
    decreases n,
{
    if n > 0 {
        lemma_trace(trace, run, n - 1);
        assert(trace[n - 1].may_step(
            run[n - 1].data@,
            trace[n - 1 + 1],
            Ok::<(), PacketError>(()),
        ));
        assert(run.take(n).drop_last() =~= run.take(n - 1));
    } else {
        assert(run.take(n) =~= Seq::empty());
    }
}

/// A VP9 frame is the payloads of its packets, in order, without their descriptors; unless a
/// packet has no whole descriptor, in which case the error of the first such packet is the result.
pub proof fn law_vp9_frame(
    pre: Vp9Depacketizer,
    run: Seq<Entry>,
    post: Vp9Depacketizer,
    r: Result<Depacketized, PacketError>,
)
    requires
        may_unpack(pre, run, post, r),
    ensures
        match r {
            Ok(d) => {
                &&& forall|k: int| 0 <= k < run.len() ==> header((#[trigger] run[k]).data@) is Ok
                &&& d.data@ == payloads(run)
            },
            Err(e) => exists|k: int| #![trigger run[k]]
                0 <= k < run.len() && header(run[k].data@) == Err::<HeaderModel, PacketError>(e)
                    && forall|j: int| 0 <= j < k ==> header((#[trigger] run[j]).data@) is Ok,
        },
{
    match r {
        Ok(d) => {
            let trace = choose|trace: Seq<Unpacking<Vp9Depacketizer>>| #[trigger]
                is_trace(trace, run) && trace[0].depack == pre && trace.last().depack == post
                    && is_made_of(d, run, trace.last());
            lemma_trace(trace, run, run.len() as int);
            assert(run.take(run.len() as int) =~= run);
        },
        Err(e) => {
            let (trace, end) = choose|
                trace: Seq<Unpacking<Vp9Depacketizer>>,
                end: Unpacking<Vp9Depacketizer>,
            |
                trace.len() <= run.len() && #[trigger] is_trace(trace, run.take(trace.len() - 1))
                    && trace[0].depack == pre && #[trigger] trace.last().may_step(
                    run[trace.len() - 1].data@,
                    end,
                    Err::<(), PacketError>(e),
                ) && end.depack == post;
            let k = trace.len() - 1;
            let done = run.take(k);
            lemma_trace(trace, done, k);
            assert forall|j: int| 0 <= j < k implies header((#[trigger] run[j]).data@) is Ok by {
                assert(done[j] == run[j]);
            }
            assert(header(run[k].data@) == Err::<HeaderModel, PacketError>(e));
        },
    }
}

/// A VP9 frame that a buffer gives out is the payloads of queued packets, in order, without their
/// descriptors: the packets of the frame, of which the first is a head.
pub proof fn law_vp9_frames_are_whole(d: Depacketized, q: Seq<Entry>)
    requires
        is_built_from::<Vp9Depacketizer>(d, q),
    ensures
        exists|run: Seq<Entry>| #[trigger]
            is_run_of(run, q) && d.meta@ == run.map_values(|e: Entry| e.meta) && d.data@
                == payloads(run),
{
    let whole = Ok::<Depacketized, PacketError>(Depacketized { contiguous: true, ..d });
    let (pre, run, post) = choose|
        pre: Vp9Depacketizer,
        run: Seq<Entry>,
        post: Vp9Depacketizer,
    | is_run_of(run, q) && #[trigger] may_unpack(pre, run, post, whole);
    law_vp9_frame(pre, run, post, whole);
    assert(is_run_of(run, q));
}

} // verus!
