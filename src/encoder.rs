use vstd::prelude::*;
use crate::decoder::{Image, initial_cache, magic, footer};
use crate::op::QoiOp;
use crate::pixel::{Pixel, default_pixel, hash_spec, hash, wrap8, wrap_add, wrap_sub, lemma_wrap8_add, lemma_wrap8_sub};

verus! {

/// The state of an encoding session after some pixels: the cache, the last pixel, the
/// length of the run in progress (0 for none), and the operations emitted so far.
pub struct EncodeState {
    pub cache: Seq<Pixel>,
    pub prev: Pixel,
    pub run: nat,
    pub ops: Seq<QoiOp>,
}

pub open spec fn initial_encode_state() -> EncodeState {
    EncodeState { cache: initial_cache(), prev: default_pixel(), run: 0, ops: Seq::empty() }
}

/// The biased deltas of a Diff operation from `prev` to `p`.
pub open spec fn diff_op(prev: Pixel, p: Pixel) -> QoiOp {
    QoiOp::Diff {
        dr: wrap8(p.r - prev.r + 2),
        dg: wrap8(p.g - prev.g + 2),
        db: wrap8(p.b - prev.b + 2),
    }
}

/// The biased deltas of a Luma operation from `prev` to `p`.
pub open spec fn luma_op(prev: Pixel, p: Pixel) -> QoiOp {
    QoiOp::Luma {
        dg: wrap8(p.g - prev.g + 32),
        dr_dg: wrap8(8 + (p.r - prev.r) - (p.g - prev.g)),
        db_dg: wrap8(8 + (p.b - prev.b) - (p.g - prev.g)),
    }
}

/// The operation that encodes `p` after `prev`, when `p` differs from `prev`: the first
/// that fits of Index, Diff, Luma, RGB and RGBA.
pub open spec fn choose_op(cache: Seq<Pixel>, prev: Pixel, p: Pixel) -> QoiOp {
    if cache[hash_spec(p)] == p {
        QoiOp::Index { idx: hash_spec(p) as u8 }
    } else if p.a == prev.a && diff_op(prev, p).wf() {
        diff_op(prev, p)
    } else if p.a == prev.a && luma_op(prev, p).wf() {
        luma_op(prev, p)
    } else if p.a == prev.a {
        QoiOp::RGB { r: p.r, g: p.g, b: p.b }
    } else {
        QoiOp::RGBA { r: p.r, g: p.g, b: p.b, a: p.a }
    }
}

/// The encoder's state after one more pixel. A pixel equal to the previous one extends
/// the run, which is flushed as Run(62) when full; any other pixel first flushes the run
/// and then emits `choose_op`. Every pixel is stored in its cache slot.
pub open spec fn encode_step(st: EncodeState, p: Pixel) -> EncodeState {
    let cache = st.cache.update(hash_spec(p), p);
    if p == st.prev {
        if st.run == 62 {
            EncodeState { cache, prev: p, run: 1, ops: st.ops.push(QoiOp::Run { len: 62 }) }
        } else {
            EncodeState { cache, prev: p, run: st.run + 1, ops: st.ops }
        }
    } else {
        let flushed = if st.run > 0 { st.ops.push(QoiOp::Run { len: st.run as u8 }) } else { st.ops };
        EncodeState { cache, prev: p, run: 0, ops: flushed.push(choose_op(st.cache, st.prev, p)) }
    }
}

/// The encoder's state after all of `px`.
pub open spec fn encode_fold(px: Seq<Pixel>) -> EncodeState
    decreases px.len(),
{
    if px.len() == 0 {
        initial_encode_state()
    } else {
        encode_step(encode_fold(px.drop_last()), px.last())
    }
}

/// The operations that encode `px`: those of the fold, and the run left at the end.
pub open spec fn encode_ops(px: Seq<Pixel>) -> Seq<QoiOp> {
    let st = encode_fold(px);
    if st.run > 0 { st.ops.push(QoiOp::Run { len: st.run as u8 }) } else { st.ops }
}

/// The wire forms of `ops`, one after the other.
pub open spec fn ops_bytes(ops: Seq<QoiOp>) -> Seq<u8>
    decreases ops.len(),
{
    if ops.len() == 0 {
        Seq::empty()
    } else {
        ops[0].bytes_spec() + ops_bytes(ops.skip(1))
    }
}

/// The four big-endian bytes of `x`.
pub open spec fn be32_bytes(x: u32) -> Seq<u8> {
    seq![(x / 0x1000000) as u8, ((x / 0x10000) % 256) as u8, ((x / 0x100) % 256) as u8, (x % 256) as u8]
}

/// The 14-byte header: magic, width, height, channels, colorspace.
pub open spec fn header_spec(width: u32, height: u32, channels: u8, colorspace: u8) -> Seq<u8> {
    magic() + be32_bytes(width) + be32_bytes(height) + seq![channels, colorspace]
}

/// The whole stream for `px`: header, operations, footer.
pub open spec fn encode_spec(width: u32, height: u32, channels: u8, colorspace: u8, px: Seq<Pixel>) -> Seq<u8> {
    header_spec(width, height, channels, colorspace) + ops_bytes(encode_ops(px)) + footer()
}

/// Appending an operation appends its wire form.
pub proof fn lemma_ops_bytes_push(ops: Seq<QoiOp>, op: QoiOp)
    ensures
        ops_bytes(ops.push(op)) == ops_bytes(ops) + op.bytes_spec(),
    decreases ops.len(),
{
    if ops.len() == 0 {
        assert(ops.push(op).skip(1) =~= Seq::<QoiOp>::empty());
        assert(ops_bytes(ops.push(op).skip(1)) == Seq::<u8>::empty());
        assert(ops.push(op)[0] == op);
        assert(ops_bytes(ops.push(op)) =~= op.bytes_spec());
    } else {
        lemma_ops_bytes_push(ops.skip(1), op);
        assert(ops.push(op).skip(1) =~= ops.skip(1).push(op));
        assert(ops.push(op)[0] == ops[0]);
        assert(ops_bytes(ops.push(op)) =~= ops_bytes(ops) + op.bytes_spec());
    }
}

/// The encoder's state stays well formed: a 64-slot cache that holds the last pixel in
/// its slot, a run of at most 62, and operations whose fields are in range.
pub proof fn lemma_encode_fold_wf(px: Seq<Pixel>)
    ensures
        encode_fold(px).cache.len() == 64,
        encode_fold(px).cache[hash_spec(encode_fold(px).prev)] == encode_fold(px).prev,
        encode_fold(px).run <= 62,
        forall|k: int| 0 <= k < encode_fold(px).ops.len() ==> (#[trigger] encode_fold(px).ops[k]).wf(),
    decreases px.len(),
{
    if px.len() > 0 {
        lemma_encode_fold_wf(px.drop_last());
        let st = encode_fold(px.drop_last());
        let p = px.last();
        let fin = encode_fold(px);
        assert(fin == encode_step(st, p));
        if p != st.prev {
            let op = choose_op(st.cache, st.prev, p);
            assert(op.wf());
            let flushed = if st.run > 0 { st.ops.push(QoiOp::Run { len: st.run as u8 }) } else { st.ops };
            assert(forall|k: int| 0 <= k < flushed.len() ==> (#[trigger] flushed[k]).wf());
        }
    }
}

/// Every operation that encodes `px` has its fields in range.
pub proof fn lemma_encode_ops_wf(px: Seq<Pixel>)
    ensures
        forall|k: int| 0 <= k < encode_ops(px).len() ==> (#[trigger] encode_ops(px)[k]).wf(),
{
    lemma_encode_fold_wf(px);
}

/// Encodes images of a given size. Each call is a fresh session. The encoder stores every
/// pixel in its cache slot exactly as the decoder does, so the two caches stay in step and
/// Index is used whenever the slot of a pixel already holds it.
pub struct Encoder {
    pub width: u32,
    pub height: u32,
    pub channels: u8,
    pub colorspace: u8,
}

impl Encoder {
    /// An encoder for `width x height` RGBA images (4 channels, colorspace 0).
    pub fn new(width: u32, height: u32) -> (e: Encoder)
        ensures
            e.width == width,
            e.height == height,
            e.channels == 4,
            e.colorspace == 0,
    {
        Encoder { width, height, channels: 4, colorspace: 0 }
    }

    /// Encodes `img`'s pixels under this encoder's header: header, the operations that
    /// `encode_ops` gives, footer.
    pub fn encode(&self, img: &Image) -> (r: Vec<u8>)
        ensures
            r@ == encode_spec(self.width, self.height, self.channels, self.colorspace, img.pixels@),
    {
        let mut buf = self.header();
        let ops = encode_pixels(&img.pixels);
        proof {
            lemma_encode_ops_wf(img.pixels@);
        }
        let ghost head = buf@;
        let mut k: usize = 0;
        while k < ops.len()
            invariant
                k <= ops@.len(),
                ops@ == encode_ops(img.pixels@),
                forall|j: int| 0 <= j < ops@.len() ==> (#[trigger] ops@[j]).wf(),
                buf@ == head + ops_bytes(ops@.take(k as int)),
            decreases ops@.len() - k,
        {
            let mut b = ops[k].to_bytes();
            buf.append(&mut b);
            proof {
                lemma_ops_bytes_push(ops@.take(k as int), ops@[k as int]);
                assert(ops@.take(k + 1) =~= ops@.take(k as int).push(ops@[k as int]));
                assert(buf@ =~= head + ops_bytes(ops@.take(k + 1)));
            }
            k = k + 1;
        }
        assert(ops@.take(k as int) =~= ops@);
        let mut tail = vec![0u8, 0, 0, 0, 0, 0, 0, 1];
        buf.append(&mut tail);
        assert(buf@ =~= encode_spec(self.width, self.height, self.channels, self.colorspace, img.pixels@));
        buf
    }

    /// The 14-byte header.
    pub fn header(&self) -> (r: Vec<u8>)
        ensures
            r@ == header_spec(self.width, self.height, self.channels, self.colorspace),
    {
        let w = self.width;
        let h = self.height;
        let r = vec![
            0x71u8, 0x6f, 0x69, 0x66,
            (w / 0x1000000) as u8, ((w / 0x10000) % 256) as u8, ((w / 0x100) % 256) as u8, (w % 256) as u8,
            (h / 0x1000000) as u8, ((h / 0x10000) % 256) as u8, ((h / 0x100) % 256) as u8, (h % 256) as u8,
            self.channels, self.colorspace,
        ];
        assert(r@ =~= header_spec(self.width, self.height, self.channels, self.colorspace));
        r
    }
}

/// The operations that encode `px`.
fn encode_pixels(px: &Vec<Pixel>) -> (ops: Vec<QoiOp>)
    ensures
        ops@ == encode_ops(px@),
{
    let mut cache: Vec<Pixel> = vec![Pixel::initial(); 64];
    let mut prev = Pixel::initial();
    let mut run: u8 = 0;
    let mut ops: Vec<QoiOp> = Vec::new();
    let mut i: usize = 0;
    assert(cache@ =~= initial_cache());
    assert(px@.take(0) =~= Seq::<Pixel>::empty());
    while i < px.len()
        invariant
            i <= px@.len(),
            cache@.len() == 64,
            run <= 62,
            encode_fold(px@.take(i as int)) == (EncodeState { cache: cache@, prev, run: run as nat, ops: ops@ }),
        decreases px@.len() - i,
    {
        let p = px[i];
        let h = hash(&p);
        if p == prev {
            if run == 62 {
                ops.push(QoiOp::Run { len: 62 });
                run = 1;
            } else {
                run = run + 1;
            }
        } else {
            if run > 0 {
                ops.push(QoiOp::Run { len: run });
                run = 0;
            }
            let op = select_op(&cache, prev, p);
            ops.push(op);
        }
        cache.set(h, p);
        prev = p;
        proof {
            assert(px@.take(i + 1).drop_last() =~= px@.take(i as int));
            assert(px@.take(i + 1).last() == p);
        }
        i = i + 1;
    }
    assert(px@.take(i as int) =~= px@);
    if run > 0 {
        ops.push(QoiOp::Run { len: run });
    }
    ops
}

/// The operation for `p` after `prev` (`p != prev`), given the cache.
fn select_op(cache: &Vec<Pixel>, prev: Pixel, p: Pixel) -> (op: QoiOp)
    requires
        cache@.len() == 64,
    ensures
        op == choose_op(cache@, prev, p),
{
    let h = hash(&p);
    if cache[h] == p {
        return QoiOp::Index { idx: h as u8 };
    }
    let dr = wrap_add(wrap_sub(p.r, prev.r), 2);
    let dg = wrap_add(wrap_sub(p.g, prev.g), 2);
    let db = wrap_add(wrap_sub(p.b, prev.b), 2);
    proof {
        lemma_wrap8_add(p.r - prev.r, 2);
        lemma_wrap8_add(p.g - prev.g, 2);
        lemma_wrap8_add(p.b - prev.b, 2);
    }
    if p.a == prev.a && dr <= 3 && dg <= 3 && db <= 3 {
        return QoiOp::Diff { dr, dg, db };
    }
    let dg = wrap_sub(p.g, prev.g);
    let dr = wrap_sub(p.r, prev.r);
    let db = wrap_sub(p.b, prev.b);
    let dr_dg = wrap_add(8, wrap_sub(dr, dg));
    let db_dg = wrap_add(8, wrap_sub(db, dg));
    let dg = wrap_add(32, dg);
    proof {
        lemma_wrap8_add(p.r - prev.r, -wrap8(p.g - prev.g));
        lemma_wrap8_sub(p.r - prev.r, p.g - prev.g);
        lemma_wrap8_add((p.r - prev.r) - (p.g - prev.g), 8);
        lemma_wrap8_add(p.b - prev.b, -wrap8(p.g - prev.g));
        lemma_wrap8_sub(p.b - prev.b, p.g - prev.g);
        lemma_wrap8_add((p.b - prev.b) - (p.g - prev.g), 8);
        lemma_wrap8_add(p.g - prev.g, 32);
    }
    if p.a == prev.a && dg < 64 && dr_dg < 16 && db_dg < 16 {
        return QoiOp::Luma { dg, dr_dg, db_dg };
    }
    if p.a == prev.a {
        QoiOp::RGB { r: p.r, g: p.g, b: p.b }
    } else {
        QoiOp::RGBA { r: p.r, g: p.g, b: p.b, a: p.a }
    }
}

} // verus!
