//! The payload descriptor as seen by a forwarder: what the packets of a stream have said so far.

use vstd::prelude::*;

use crate::packet::codec::PacketError;
use crate::packet::vp9::{bit, has_bit, header, HeaderModel, PictureModel, Vp9Header, Vp9Picture, Vp9Structure};

verus! {

/// What the packets of a VP9 stream have said so far. A value that a packet does not carry stays
/// that of an earlier packet.
#[derive(PartialEq, Eq, Debug, Clone)]
pub struct Vp9HeaderDescriptor {
    /// Picture id is present.
    pub i: bool,
    /// Inter-picture predicted frame.
    pub p: bool,
    /// Layer indices present.
    pub l: bool,
    /// Flexible mode.
    pub f: bool,
    /// Start of frame.
    pub b: bool,
    /// End of frame.
    pub e: bool,
    /// Scalability structure present.
    pub v: bool,
    /// Not a reference frame for upper spatial layers.
    pub z: bool,
    /// Picture id, of 7 or 15 bits.
    pub picture_id: u16,
    /// Temporal layer.
    pub tid: u8,
    /// Switching up point.
    pub u: bool,
    /// Spatial layer.
    pub sid: u8,
    /// Inter-layer dependency used.
    pub d: bool,
    /// Reference indices.
    pub pdiff: Vec<u8>,
    /// Temporal layer zero index.
    pub tl0picidx: u8,
    /// Number of spatial layers in the stream, less one.
    pub ns: u8,
    /// Each spatial layer's resolution present.
    pub y: bool,
    /// Picture group description present.
    pub g: bool,
    /// Number of pictures in a picture group.
    pub ng: u8,
    /// Width of each spatial layer.
    pub width: [Option<u16>; 3],
    /// Height of each spatial layer.
    pub height: [Option<u16>; 3],
    /// Temporal layers of the pictures in the picture group.
    pub pgtid: Vec<u8>,
    /// Switching up points of the pictures in the picture group.
    pub pgu: Vec<bool>,
    /// Reference indices of the pictures in the picture group, a row for each.
    pub pgpdiff: Vec<Vec<u8>>,
    /// Not used.
    pub count: u8,
}

impl Default for Vp9HeaderDescriptor {
    fn default() -> (r: Vp9HeaderDescriptor)
        ensures
            r.is_fresh(),
    {
        Vp9HeaderDescriptor {
            i: false,
            p: false,
            l: false,
            f: false,
            b: false,
            e: false,
            v: false,
            z: false,
            picture_id: 0,
            tid: 0,
            u: false,
            sid: 0,
            d: false,
            pdiff: Vec::new(),
            tl0picidx: 0,
            ns: 0,
            y: false,
            g: false,
            ng: 0,
            width: [None, None, None],
            height: [None, None, None],
            pgtid: Vec::new(),
            pgu: Vec::new(),
            pgpdiff: Vec::new(),
            count: 0,
        }
    }
}

/// The value that the packet carries; where it carries none, the one before.
pub open spec fn or_before<T>(carried: Option<T>, before: T) -> T {
    match carried {
        Some(v) => v,
        None => before,
    }
}

/// The sequences in a vector of vectors.
pub open spec fn rows(v: Seq<Vec<u8>>) -> Seq<Seq<u8>> {
    v.map_values(|row: Vec<u8>| row@)
}

/// A copy of bytes.
fn copied(v: &Vec<u8>) -> (r: Vec<u8>)
    ensures
        r@ == v@,
{
    let mut r: Vec<u8> = Vec::new();
    let mut k: usize = 0;
    while k < v.len()
        invariant
            k <= v@.len(),
            r@ =~= v@.take(k as int),
        decreases v@.len() - k,
    {
        r.push(v[k]);
        k += 1;
    }
    assert(v@.take(k as int) =~= v@);
    r
}

impl Vp9HeaderDescriptor {
    /// Whether no packet has said anything.
    pub open spec fn is_fresh(self) -> bool {
        &&& !self.i && !self.p && !self.l && !self.f && !self.b && !self.e && !self.v && !self.z
        &&& self.picture_id == 0
        &&& self.tid == 0 && !self.u && self.sid == 0 && !self.d
        &&& self.pdiff@.len() == 0
        &&& self.tl0picidx == 0
        &&& self.ns == 0 && !self.y && !self.g && self.ng == 0
        &&& forall|k: int| 0 <= k < 3 ==> #[trigger] self.width@[k] is None
        &&& forall|k: int| 0 <= k < 3 ==> #[trigger] self.height@[k] is None
        &&& self.pgtid@.len() == 0 && self.pgu@.len() == 0 && self.pgpdiff@.len() == 0
        &&& self.count == 0
    }

    /// Whether the descriptor became `post` by what the first byte of `h` says.
    pub open spec fn takes_flags(self, h: HeaderModel, post: Self) -> bool {
        &&& post.i == bit(h.flags, 7)
        &&& post.p == bit(h.flags, 6)
        &&& post.l == bit(h.flags, 5)
        &&& post.f == bit(h.flags, 4)
        &&& post.b == bit(h.flags, 3)
        &&& post.e == bit(h.flags, 2)
        &&& post.v == bit(h.flags, 1)
        &&& post.z == bit(h.flags, 0)
    }

    /// Whether the descriptor became `post` by what `h` says of layers and pictures.
    pub open spec fn takes_layers(self, h: HeaderModel, post: Self) -> bool {
        &&& post.picture_id == or_before(h.picture_id, self.picture_id)
        &&& match h.layer {
            Some(l) => post.tid == l.tid && post.u == l.u && post.sid == l.sid && post.d == l.d,
            None => post.tid == self.tid && post.u == self.u && post.sid == self.sid && post.d
                == self.d,
        }
        &&& post.tl0picidx == or_before(h.tl0picidx, self.tl0picidx)
        &&& post.pdiff@ == (if h.pdiff.len() > 0 {
            h.pdiff
        } else {
            self.pdiff@
        })
    }

    /// Whether the descriptor became `post` by what `h` says of the scalability structure.
    pub open spec fn takes_structure(self, h: HeaderModel, post: Self) -> bool {
        match h.structure {
            Some(s) => {
                &&& post.ns == s.ns
                &&& post.y == s.y
                &&& post.g == s.g
                &&& post.ng == s.ng
                &&& forall|k: int|
                    0 <= k < 3 ==> #[trigger] post.width@[k] == (if k < s.sizes.len() {
                        Some(s.sizes[k].0)
                    } else {
                        self.width@[k]
                    })
                &&& forall|k: int|
                    0 <= k < 3 ==> #[trigger] post.height@[k] == (if k < s.sizes.len() {
                        Some(s.sizes[k].1)
                    } else {
                        self.height@[k]
                    })
                &&& if s.pictures.len() > 0 {
                    &&& post.pgtid@ == s.pictures.map_values(|x: PictureModel| x.tid)
                    &&& post.pgu@ == s.pictures.map_values(|x: PictureModel| x.u)
                    &&& rows(post.pgpdiff@) == s.pictures.map_values(|x: PictureModel| x.pdiff)
                } else {
                    &&& post.pgtid@ == self.pgtid@
                    &&& post.pgu@ == self.pgu@
                    &&& rows(post.pgpdiff@) == rows(self.pgpdiff@)
                }
            },
            None => {
                &&& post.ns == self.ns
                &&& post.y == self.y
                &&& post.g == self.g
                &&& post.ng == self.ng
                &&& post.width == self.width
                &&& post.height == self.height
                &&& post.pgtid@ == self.pgtid@
                &&& post.pgu@ == self.pgu@
                &&& rows(post.pgpdiff@) == rows(self.pgpdiff@)
            },
        }
    }

    /// Whether the descriptor became `post` by a packet with the payload descriptor `h`.
    pub open spec fn takes(self, h: HeaderModel, post: Self) -> bool {
        &&& self.takes_flags(h, post)
        &&& self.takes_layers(h, post)
        &&& self.takes_structure(h, post)
        &&& post.count == self.count
    }

    /// Takes in the picture group of a scalability structure.
    fn take_pictures(&mut self, pictures: &Vec<Vp9Picture>)
        ensures
            ({
                let models = pictures@.map_values(|x: Vp9Picture| x@);
                &&& final(self).pgtid@ == models.map_values(|x: PictureModel| x.tid)
                &&& final(self).pgu@ == models.map_values(|x: PictureModel| x.u)
                &&& rows(final(self).pgpdiff@) == models.map_values(|x: PictureModel| x.pdiff)
                &&& *final(self) == (Vp9HeaderDescriptor {
                    pgtid: final(self).pgtid,
                    pgu: final(self).pgu,
                    pgpdiff: final(self).pgpdiff,
                    ..*old(self)
                })
            }),
    {
        let ghost models = pictures@.map_values(|x: Vp9Picture| x@);
        let mut pgtid: Vec<u8> = Vec::new();
        let mut pgu: Vec<bool> = Vec::new();
        let mut pgpdiff: Vec<Vec<u8>> = Vec::new();
        let mut n: usize = 0;
        while n < pictures.len()
            invariant
                n <= pictures@.len(),
                models == pictures@.map_values(|x: Vp9Picture| x@),
                pgtid@ =~= models.map_values(|x: PictureModel| x.tid).take(n as int),
                pgu@ =~= models.map_values(|x: PictureModel| x.u).take(n as int),
                rows(pgpdiff@) =~= models.map_values(|x: PictureModel| x.pdiff).take(n as int),
            decreases pictures@.len() - n,
        {
            let picture = &pictures[n];
            assert(models[n as int] == picture@);
            pgtid.push(picture.tid);
            pgu.push(picture.u);
            let pdiff = copied(&picture.pdiff);
            let ghost before = rows(pgpdiff@);
            let ghost row = pdiff@;
            pgpdiff.push(pdiff);
            assert(rows(pgpdiff@) =~= before.push(row));
            n += 1;
        }
        self.pgtid = pgtid;
        self.pgu = pgu;
        self.pgpdiff = pgpdiff;
    }

    /// Takes in the resolutions of the spatial layers.
    fn take_sizes(&mut self, sizes: &Vec<(u16, u16)>)
        requires
            sizes@.len() <= 3,
        ensures
            forall|k: int|
                0 <= k < 3 ==> #[trigger] final(self).width@[k] == (if k < sizes@.len() {
                    Some(sizes@[k].0)
                } else {
                    old(self).width@[k]
                }),
            forall|k: int|
                0 <= k < 3 ==> #[trigger] final(self).height@[k] == (if k < sizes@.len() {
                    Some(sizes@[k].1)
                } else {
                    old(self).height@[k]
                }),
            *final(self) == (Vp9HeaderDescriptor {
                width: final(self).width,
                height: final(self).height,
                ..*old(self)
            }),
    {
        let mut k: usize = 0;
        while k < sizes.len()
            invariant
                k <= sizes@.len() <= 3,
                forall|j: int|
                    0 <= j < 3 ==> #[trigger] self.width@[j] == (if j < k {
                        Some(sizes@[j].0)
                    } else {
                        old(self).width@[j]
                    }),
                forall|j: int|
                    0 <= j < 3 ==> #[trigger] self.height@[j] == (if j < k {
                        Some(sizes@[j].1)
                    } else {
                        old(self).height@[j]
                    }),
                *self == (Vp9HeaderDescriptor {
                    width: self.width,
                    height: self.height,
                    ..*old(self)
                }),
            decreases sizes@.len() - k,
        {
            self.width[k] = Some(sizes[k].0);
            self.height[k] = Some(sizes[k].1);
            k += 1;
        }
    }

    /// Takes in the scalability structure of a packet.
    fn take_structure(&mut self, s: &Vp9Structure)
        requires
            s.sizes@.len() <= 3,
        ensures
            forall|h: HeaderModel|
                h.structure == Some(s@) ==> #[trigger] old(self).takes_structure(h, *final(self)),
            *final(self) == (Vp9HeaderDescriptor {
                ns: final(self).ns,
                y: final(self).y,
                g: final(self).g,
                ng: final(self).ng,
                width: final(self).width,
                height: final(self).height,
                pgtid: final(self).pgtid,
                pgu: final(self).pgu,
                pgpdiff: final(self).pgpdiff,
                ..*old(self)
            }),
    {
        self.ns = s.ns;
        self.y = s.y;
        self.g = s.g;
        self.ng = s.ng;
        self.take_sizes(&s.sizes);
        if s.pictures.len() > 0 {
            self.take_pictures(&s.pictures);
        }
    }

    /// Takes in the reference indices of a packet, if it has any.
    fn take_refs(&mut self, pdiff: &Vec<u8>)
        ensures
            final(self).pdiff@ == (if pdiff@.len() > 0 {
                pdiff@
            } else {
                old(self).pdiff@
            }),
            *final(self) == (Vp9HeaderDescriptor { pdiff: final(self).pdiff, ..*old(self) }),
    {
        if pdiff.len() > 0 {
            self.pdiff = copied(pdiff);
        }
    }

    /// Takes in the first byte of a payload descriptor.
    fn take_flags(&mut self, h: &Vp9Header)
        ensures
            old(self).takes_flags(h@, *final(self)),
            *final(self) == (Vp9HeaderDescriptor {
                i: final(self).i,
                p: final(self).p,
                l: final(self).l,
                f: final(self).f,
                b: final(self).b,
                e: final(self).e,
                v: final(self).v,
                z: final(self).z,
                ..*old(self)
            }),
    {
        self.i = has_bit(h.flags, 7);
        self.p = has_bit(h.flags, 6);
        self.l = has_bit(h.flags, 5);
        self.f = has_bit(h.flags, 4);
        self.b = has_bit(h.flags, 3);
        self.e = has_bit(h.flags, 2);
        self.v = has_bit(h.flags, 1);
        self.z = has_bit(h.flags, 0);
    }

    /// Takes in what a payload descriptor says of layers and pictures.
    fn take_layers(&mut self, h: &Vp9Header)
        ensures
            old(self).takes_layers(h@, *final(self)),
            *final(self) == (Vp9HeaderDescriptor {
                picture_id: final(self).picture_id,
                tid: final(self).tid,
                u: final(self).u,
                sid: final(self).sid,
                d: final(self).d,
                tl0picidx: final(self).tl0picidx,
                pdiff: final(self).pdiff,
                ..*old(self)
            }),
    {
        if let Some(picture_id) = h.picture_id {
            self.picture_id = picture_id;
        }
        if let Some(layer) = h.layer {
            self.tid = layer.tid;
            self.u = layer.u;
            self.sid = layer.sid;
            self.d = layer.d;
        }
        if let Some(tl0picidx) = h.tl0picidx {
            self.tl0picidx = tl0picidx;
        }
        self.take_refs(&h.pdiff);
    }

    /// Takes in a payload descriptor.
    fn take(&mut self, h: &Vp9Header)
        requires
            h.structure matches Some(s) ==> s.sizes@.len() <= 3,
        ensures
            old(self).takes(h@, *final(self)),
    {
        self.take_flags(h);
        self.take_layers(h);
        let ghost here = *self;
        if let Some(s) = &h.structure {
            self.take_structure(s);
        }
        assert(here.takes_structure(h@, *self));
    }

    /// Takes in a packet. Answers the length of its payload descriptor; a packet without a whole
    /// descriptor changes nothing.
    pub fn parse(&mut self, packet: &[u8]) -> (r: Result<usize, PacketError>)
        ensures
            match r {
                Ok(n) => header(packet@) matches Ok(h) && n == h.len && old(self).takes(
                    h,
                    *final(self),
                ),
                Err(e) => header(packet@) == Err::<HeaderModel, PacketError>(e) && *final(self)
                    == *old(self),
            },
    {
        let h = match Vp9Header::parse(packet) {
            Ok(h) => h,
            Err(e) => return Err(e),
        };
        proof {
            lemma_few_sizes(packet@);
        }
        self.take(&h);
        Ok(h.len)
    }
}

/// A payload descriptor has no more resolutions than there are spatial layers.
proof fn lemma_few_sizes(p: Seq<u8>)
    ensures
        header(p) matches Ok(h) ==> (h.structure matches Some(s) ==> s.sizes.len() <= 3),
{
}

} // verus!
