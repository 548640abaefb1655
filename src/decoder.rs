use vstd::prelude::*;
use crate::op::QoiOp;
use crate::pixel::{Pixel, default_pixel, hash_spec, hash, wrap8, wrap_add, wrap_sub, lemma_wrap8_add};

verus! {

/// The channels of `px`, four bytes per pixel in the order R, G, B, A.
pub open spec fn rgba_bytes(px: Seq<Pixel>) -> Seq<u8>
    decreases px.len(),
{
    if px.len() == 0 {
        Seq::empty()
    } else {
        rgba_bytes(px.drop_last()) + seq![px.last().r, px.last().g, px.last().b, px.last().a]
    }
}

/// Four bytes per pixel.
pub proof fn lemma_rgba_bytes_len(px: Seq<Pixel>)
    ensures
        rgba_bytes(px).len() == 4 * px.len(),
    decreases px.len(),
{
    if px.len() > 0 {
        lemma_rgba_bytes_len(px.drop_last());
    }
}

/// A decoded image: `width * height` pixels, row by row.
#[derive(Debug)]
pub struct Image {
    pub width: u32,
    pub height: u32,
    pub pixels: Vec<Pixel>,
}

impl Image {
    pub open spec fn wf(&self) -> bool {
        self.pixels@.len() == self.width as int * self.height as int
    }

    /// The pixels as raw bytes: R, G, B, A of each pixel in turn, with no padding.
    pub fn to_rgba_bytes(&self) -> (r: Vec<u8>)
        ensures
            r@ == rgba_bytes(self.pixels@),
            r@.len() == 4 * self.pixels@.len(),
    {
        let mut r: Vec<u8> = Vec::new();
        let mut i: usize = 0;
        while i < self.pixels.len()
            invariant
                i <= self.pixels@.len(),
                r@ == rgba_bytes(self.pixels@.take(i as int)),
            decreases self.pixels@.len() - i,
        {
            let p = self.pixels[i];
            r.push(p.r);
            r.push(p.g);
            r.push(p.b);
            r.push(p.a);
            proof {
                assert(self.pixels@.take(i + 1).drop_last() =~= self.pixels@.take(i as int));
                assert(r@ =~= rgba_bytes(self.pixels@.take(i + 1)));
            }
            i = i + 1;
        }
        assert(self.pixels@.take(i as int) =~= self.pixels@);
        proof {
            lemma_rgba_bytes_len(self.pixels@);
        }
        r
    }
}

/// The state of a decoding session: the cache, the last pixel, and the pixels so far.
pub struct DecodeState {
    pub cache: Seq<Pixel>,
    pub prev: Pixel,
    pub out: Seq<Pixel>,
}

/// A cache with every slot holding the default pixel.
pub open spec fn initial_cache() -> Seq<Pixel> {
    Seq::new(64, |i: int| default_pixel())
}

pub open spec fn initial_state() -> DecodeState {
    DecodeState { cache: initial_cache(), prev: default_pixel(), out: Seq::empty() }
}

/// The four magic bytes `"qoif"` that open a stream.
pub open spec fn magic() -> Seq<u8> {
    seq![0x71u8, 0x6fu8, 0x69u8, 0x66u8]
}

/// The eight bytes that close a stream.
pub open spec fn footer() -> Seq<u8> {
    seq![0u8, 0u8, 0u8, 0u8, 0u8, 0u8, 0u8, 1u8]
}

/// The big-endian 32-bit integer at `s[i..i + 4]`.
pub open spec fn be32(s: Seq<u8>, i: int) -> u32 {
    (s[i] * 0x1000000 + s[i + 1] * 0x10000 + s[i + 2] * 0x100 + s[i + 3]) as u32
}

/// The pixel an operation stands for, given the cache and the previous pixel.
#[verifier::opaque]
pub open spec fn op_pixel(cache: Seq<Pixel>, prev: Pixel, op: QoiOp) -> Pixel {
    match op {
        QoiOp::RGB { r, g, b } => Pixel { r, g, b, a: prev.a },
        QoiOp::RGBA { r, g, b, a } => Pixel { r, g, b, a },
        QoiOp::Index { idx } => cache[idx as int],
        QoiOp::Diff { dr, dg, db } => Pixel {
            r: wrap8(prev.r + dr - 2),
            g: wrap8(prev.g + dg - 2),
            b: wrap8(prev.b + db - 2),
            a: prev.a,
        },
        QoiOp::Luma { dg, dr_dg, db_dg } => Pixel {
            r: wrap8(prev.r + dr_dg + dg - 40),
            g: wrap8(prev.g + dg - 32),
            b: wrap8(prev.b + db_dg + dg - 40),
            a: prev.a,
        },
        QoiOp::Run { .. } => prev,
    }
}

/// How many times an operation's pixel is repeated.
pub open spec fn op_count(op: QoiOp) -> nat {
    match op {
        QoiOp::Run { len } => len as nat,
        _ => 1,
    }
}

/// Applies an operation, appending its pixel `n` times.
pub open spec fn step(st: DecodeState, op: QoiOp, n: nat) -> DecodeState {
    let p = op_pixel(st.cache, st.prev, op);
    DecodeState {
        cache: st.cache.update(hash_spec(p), p),
        prev: p,
        out: st.out + Seq::new(n, |i: int| p),
    }
}

/// Decodes operations from `data` until `target` pixels are out; returns the final state
/// and the bytes not read, or `None` where the operations run out first.
pub open spec fn decode_body(data: Seq<u8>, st: DecodeState, target: nat) -> Option<(DecodeState, Seq<u8>)>
    decreases data.len(),
{
    if st.out.len() >= target {
        Some((st, data))
    } else {
        match QoiOp::parse_spec(data) {
            None => None,
            Some((op, n)) => {
                if 1 <= n <= data.len() {
                    let room = (target - st.out.len()) as nat;
                    let c = if op_count(op) <= room { op_count(op) } else { room };
                    decode_body(data.skip(n), step(st, op, c), target)
                } else {
                    None
                }
            },
        }
    }
}

/// The width, height and pixels that a stream encodes, or `None` where it is not
/// a complete, well-formed stream.
pub open spec fn decode_spec(data: Seq<u8>) -> Option<(u32, u32, Seq<Pixel>)> {
    if data.len() < 14 || data.subrange(0, 4) != magic() {
        None
    } else {
        let w = be32(data, 4);
        let h = be32(data, 8);
        match decode_body(data.skip(14), initial_state(), w as nat * h as nat) {
            Some((st, rest)) => if rest == footer() {
                Some((w, h, st.out))
            } else {
                None
            },
            None => None,
        }
    }
}

/// One step of `decode_body`, while pixels are still owed.
pub proof fn lemma_decode_body_step(data: Seq<u8>, st: DecodeState, target: nat)
    requires
        st.out.len() < target,
    ensures
        match QoiOp::parse_spec(data) {
            None => decode_body(data, st, target) is None,
            Some((op, n)) => {
                let room = (target - st.out.len()) as nat;
                let c = if op_count(op) <= room { op_count(op) } else { room };
                decode_body(data, st, target) == decode_body(data.skip(n), step(st, op, c), target)
            },
        },
{
    QoiOp::lemma_parse_wf(data);
}

/// A decoded stream's output has exactly `target` pixels.
pub proof fn lemma_decode_body_len(data: Seq<u8>, st: DecodeState, target: nat)
    requires
        st.out.len() <= target,
    ensures
        decode_body(data, st, target) matches Some((fin, rest)) ==> fin.out.len() == target,
    decreases data.len(),
{
    if st.out.len() < target {
        match QoiOp::parse_spec(data) {
            None => {},
            Some((op, n)) => {
                if 1 <= n <= data.len() {
                    let room = (target - st.out.len()) as nat;
                    let c = if op_count(op) <= room { op_count(op) } else { room };
                    lemma_decode_body_len(data.skip(n), step(st, op, c), target);
                }
            },
        }
    }
}

/// The big-endian 32-bit integer at `data[i..i + 4]`.
fn read_be32(data: &[u8], i: usize) -> (r: u32)
    requires
        i + 4 <= data@.len(),
    ensures
        r == be32(data@, i as int),
{
    (data[i] as u32) * 0x1000000 + (data[i + 1] as u32) * 0x10000 + (data[i + 2] as u32) * 0x100
        + data[i + 3] as u32
}

/// Decodes a QOI stream; holds the session state of one decoding.
pub struct Decoder {
    cache: Vec<Pixel>,
    prev: Pixel,
}

impl Decoder {
    pub closed spec fn cache_view(&self) -> Seq<Pixel> {
        self.cache@
    }

    pub closed spec fn prev_view(&self) -> Pixel {
        self.prev
    }

    /// The cache has 64 slots and the slot of the last pixel holds it.
    pub open spec fn inv(&self) -> bool {
        &&& self.cache_view().len() == 64
        &&& self.cache_view()[hash_spec(self.prev_view())] == self.prev_view()
    }

    /// A decoder in the initial state.
    pub fn new() -> (d: Decoder)
        ensures
            d.inv(),
            d.cache_view() == initial_cache(),
            d.prev_view() == default_pixel(),
    {
        let d = Decoder { cache: vec![Pixel::initial(); 64], prev: Pixel::initial() };
        assert(d.cache@ =~= initial_cache());
        d
    }

    /// Decodes a stream: `Some` image exactly where the data is a complete stream
    /// (magic, header, operations up to `width * height` pixels, then exactly the footer).
    /// Each call starts a fresh session.
    pub fn decode(&mut self, data: &[u8]) -> (r: Option<Image>)
        ensures
            final(self).inv(),
            match decode_spec(data@) {
                Some((w, h, px)) => r matches Some(img) && img.width == w && img.height == h
                    && img.pixels@ == px && img.wf(),
                None => r is None,
            },
    {
        self.cache = vec![Pixel::initial(); 64];
        self.prev = Pixel::initial();
        proof {
            assert(self.cache@ =~= initial_cache());
        }
        if data.len() < 14 {
            return None;
        }
        if !(data[0] == 0x71 && data[1] == 0x6f && data[2] == 0x69 && data[3] == 0x66) {
            proof {
                assert(data@.subrange(0, 4) != magic()) by {
                    if data@.subrange(0, 4) == magic() {
                        assert(data@.subrange(0, 4)[0] == data@[0]);
                        assert(data@.subrange(0, 4)[1] == data@[1]);
                        assert(data@.subrange(0, 4)[2] == data@[2]);
                        assert(data@.subrange(0, 4)[3] == data@[3]);
                    }
                }
            }
            return None;
        }
        assert(data@.subrange(0, 4) =~= magic());
        let width: u32 = read_be32(data, 4);
        let height: u32 = read_be32(data, 8);
        proof {
            assert(width as int * height as int <= 0xffff_ffff * 0xffff_ffff) by (nonlinear_arith)
                requires
                    width <= 0xffff_ffffu32,
                    height <= 0xffff_ffffu32,
            ;
        }
        let target: u64 = width as u64 * height as u64;
        let body: &[u8] = &data[14..data.len()];
        assert(body@ =~= data@.skip(14));
        assert(target as nat == width as nat * height as nat);
        let (out, rest) = match self.decode_ops(body, target) {
            Some(res) => res,
            None => {
                return None;
            },
        };
        proof {
            lemma_decode_body_len(body@, initial_state(), target as nat);
        }
        if !(rest.len() == 8 && rest[0] == 0 && rest[1] == 0 && rest[2] == 0 && rest[3] == 0
            && rest[4] == 0 && rest[5] == 0 && rest[6] == 0 && rest[7] == 1) {
            proof {
                if rest@ == footer() {
                    assert(rest@[7] == 1);
                }
            }
            return None;
        }
        assert(rest@ =~= footer());
        Some(Image { width, height, pixels: out })
    }

    /// Runs the operations at the front of `body` until `target` pixels are out.
    fn decode_ops<'a>(&mut self, body: &'a [u8], target: u64) -> (r: Option<(Vec<Pixel>, &'a [u8])>)
        requires
            old(self).inv(),
        ensures
            final(self).inv(),
            match decode_body(body@, DecodeState { cache: old(self).cache_view(), prev: old(self).prev_view(), out: Seq::empty() }, target as nat) {
                Some((st, rest)) => r matches Some((out, rem)) && out@ == st.out && rem@ == rest,
                None => r is None,
            },
    {
        let ghost goal = decode_body(body@, DecodeState { cache: self.cache@, prev: self.prev, out: Seq::empty() }, target as nat);
        let mut rest: &[u8] = body;
        let mut out: Vec<Pixel> = Vec::new();
        while (out.len() as u64) < target
            invariant
                self.inv(),
                goal == decode_body(body@, DecodeState { cache: old(self).cache_view(), prev: old(self).prev_view(), out: Seq::empty() }, target as nat),
                goal == decode_body(rest@, DecodeState { cache: self.cache@, prev: self.prev, out: out@ }, target as nat),
            decreases rest@.len(),
        {
            let ghost st = DecodeState { cache: self.cache@, prev: self.prev, out: out@ };
            let (op, next) = QoiOp::from_bytes(rest);
            proof {
                QoiOp::lemma_parse_wf(rest@);
                lemma_decode_body_step(rest@, st, target as nat);
            }
            let op = match op {
                Some(op) => op,
                None => {
                    return None;
                },
            };
            let room: u64 = target - out.len() as u64;
            self.apply(op, &mut out, room);
            rest = next;
        }
        Some((out, rest))
    }

    /// Applies `op`, appending its pixel as often as it counts, but at most `room` times.
    fn apply(&mut self, op: QoiOp, out: &mut Vec<Pixel>, room: u64)
        requires
            old(self).inv(),
            op.wf(),
        ensures
            final(self).inv(),
            ({
                let c = if op_count(op) <= room { op_count(op) } else { room as nat };
                DecodeState { cache: final(self).cache_view(), prev: final(self).prev_view(), out: final(out)@ }
                    == step(DecodeState { cache: old(self).cache_view(), prev: old(self).prev_view(), out: old(out)@ }, op, c)
            }),
    {
        let ghost st = DecodeState { cache: self.cache@, prev: self.prev, out: out@ };
        let p = self.pixel_of(op);
        let h = hash(&p);
        self.cache.set(h, p);
        self.prev = p;
        let count: u64 = match op {
            QoiOp::Run { len } => len as u64,
            _ => 1,
        };
        let c: u64 = if count <= room { count } else { room };
        let ghost before = out@;
        let mut k: u64 = 0;
        while k < c
            invariant
                k <= c,
                out@ == before + Seq::new(k as nat, |i: int| p),
            decreases c - k,
        {
            out.push(p);
            k = k + 1;
            proof {
                assert(out@ =~= before + Seq::new(k as nat, |i: int| p));
            }
        }
        proof {
            assert(self.cache@ =~= st.cache.update(hash_spec(p), p));
        }
    }

    fn pixel_of(&self, op: QoiOp) -> (p: Pixel)
        requires
            self.inv(),
            op.wf(),
        ensures
            p == op_pixel(self.cache_view(), self.prev_view(), op),
    {
        reveal(op_pixel);
        let prev = self.prev;
        match op {
            QoiOp::RGB { r, g, b } => Pixel { r, g, b, a: prev.a },
            QoiOp::RGBA { r, g, b, a } => Pixel { r, g, b, a },
            QoiOp::Index { idx } => self.cache[idx as usize],
            QoiOp::Diff { dr, dg, db } => {
                proof {
                    lemma_wrap8_add(prev.r + dr, -2);
                    lemma_wrap8_add(prev.g + dg, -2);
                    lemma_wrap8_add(prev.b + db, -2);
                }
                Pixel {
                r: wrap_sub(wrap_add(prev.r, dr), 2),
                g: wrap_sub(wrap_add(prev.g, dg), 2),
                b: wrap_sub(wrap_add(prev.b, db), 2),
                a: prev.a,
                }
            },
            QoiOp::Luma { dg, dr_dg, db_dg } => {
                proof {
                    lemma_wrap8_add(dg - 32, -8);
                    lemma_wrap8_add(dg - 40, dr_dg as int);
                    lemma_wrap8_add(dg - 40, db_dg as int);
                    lemma_wrap8_add(dr_dg + dg - 40, prev.r as int);
                    lemma_wrap8_add(dg - 32, prev.g as int);
                    lemma_wrap8_add(db_dg + dg - 40, prev.b as int);
                }
                let dg = wrap_sub(dg, 32);
                let dr = wrap_add(dr_dg, wrap_sub(dg, 8));
                let db = wrap_add(db_dg, wrap_sub(dg, 8));
                Pixel { r: wrap_add(prev.r, dr), g: wrap_add(prev.g, dg), b: wrap_add(prev.b, db), a: prev.a }
            },
            QoiOp::Run { .. } => prev,
        }
    }
}

} // verus!
