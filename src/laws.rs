use vstd::prelude::*;
use crate::decoder::{
    DecodeState, initial_state, decode_body, decode_spec, op_pixel, op_count,
    step, magic, footer, be32, lemma_decode_body_step,
};
use crate::encoder::{
    encode_fold, encode_step, encode_ops, encode_spec, choose_op, ops_bytes,
    header_spec, be32_bytes, lemma_encode_fold_wf, diff_op, luma_op,
};
use crate::op::QoiOp;
use crate::pixel::{Pixel, hash_spec, wrap8, lemma_wrap8_add, lemma_wrap8_byte};

verus! {

/// The decoder's state after applying `ops` in order, each with its full count.
pub open spec fn replay(st: DecodeState, ops: Seq<QoiOp>) -> DecodeState
    decreases ops.len(),
{
    if ops.len() == 0 {
        st
    } else {
        replay(step(st, ops[0], op_count(ops[0])), ops.skip(1))
    }
}

proof fn lemma_replay_push(st: DecodeState, ops: Seq<QoiOp>, op: QoiOp)
    ensures
        replay(st, ops.push(op)) == step(replay(st, ops), op, op_count(op)),
    decreases ops.len(),
{
    if ops.len() == 0 {
        assert(ops.push(op).skip(1) =~= Seq::<QoiOp>::empty());
        assert(ops.push(op)[0] == op);
        assert(replay(step(st, op, op_count(op)), Seq::<QoiOp>::empty()) == step(st, op, op_count(op)));
    } else {
        assert(ops.push(op).skip(1) =~= ops.skip(1).push(op));
        assert(ops.push(op)[0] == ops[0]);
        lemma_replay_push(step(st, ops[0], op_count(ops[0])), ops.skip(1), op);
    }
}

proof fn lemma_replay_grows(st: DecodeState, ops: Seq<QoiOp>)
    ensures
        replay(st, ops).out.len() >= st.out.len(),
    decreases ops.len(),
{
    if ops.len() > 0 {
        lemma_replay_grows(step(st, ops[0], op_count(ops[0])), ops.skip(1));
    }
}

proof fn lemma_diff_channel(pc: u8, c: u8)
    ensures
        wrap8(pc + wrap8(c - pc + 2) - 2) == c,
{
    lemma_wrap8_add(c - pc + 2, pc - 2);
    lemma_wrap8_byte(c);
}

proof fn lemma_luma_channel(pc: u8, c: u8, pg: u8, g: u8)
    ensures
        wrap8(pc + wrap8(8 + (c - pc) - (g - pg)) + wrap8(g - pg + 32) - 40) == c,
{
    let x = wrap8(g - pg + 32);
    lemma_wrap8_add(8 + (c - pc) - (g - pg), pc + x - 40);
    lemma_wrap8_add(g - pg + 32, pc + 8 + (c - pc) - (g - pg) - 40);
    lemma_wrap8_byte(c);
}

/// The operation the encoder picks decodes to the pixel it was picked for.
proof fn lemma_choose_op_decodes(cache: Seq<Pixel>, prev: Pixel, p: Pixel)
    ensures
        op_pixel(cache, prev, choose_op(cache, prev, p)) == p,
{
    reveal(op_pixel);
    if cache[hash_spec(p)] == p {
    } else if p.a == prev.a && diff_op(prev, p).wf() {
        lemma_diff_channel(prev.r, p.r);
        lemma_diff_channel(prev.g, p.g);
        lemma_diff_channel(prev.b, p.b);
    } else if p.a == prev.a && luma_op(prev, p).wf() {
        lemma_luma_channel(prev.r, p.r, prev.g, p.g);
        lemma_wrap8_add(p.g - prev.g + 32, prev.g - 32);
        lemma_wrap8_byte(p.g);
        lemma_luma_channel(prev.b, p.b, prev.g, p.g);
    }
}

/// The decoder, run over the operations emitted so far, is in the encoder's state, and
/// has produced every pixel but those of the run in progress, which all equal `prev`.
proof fn lemma_fold_sync(px: Seq<Pixel>)
    ensures
        ({
            let e = encode_fold(px);
            let d = replay(initial_state(), e.ops);
            &&& e.run <= px.len()
            &&& d.cache == e.cache
            &&& d.prev == e.prev
            &&& d.out == px.take(px.len() - e.run)
            &&& forall|j: int| px.len() - e.run <= j < px.len() ==> px[j] == e.prev
        }),
    decreases px.len(),
{
    if px.len() == 0 {
        assert(px.take(0) =~= Seq::<Pixel>::empty());
    } else {
        let pre = px.drop_last();
        let p = px.last();
        lemma_fold_sync(pre);
        lemma_encode_fold_wf(pre);
        let e = encode_fold(pre);
        let d = replay(initial_state(), e.ops);
        let n = pre.len();
        assert(encode_fold(px) == encode_step(e, p));
        assert forall|j: int| 0 <= j < n implies pre[j] == px[j] by {}
        if p == e.prev {
            assert(e.cache.update(hash_spec(p), p) =~= e.cache);
            if e.run == 62 {
                let op = QoiOp::Run { len: 62 };
                lemma_replay_push(initial_state(), e.ops, op);
                reveal(op_pixel);
                assert(d.cache.update(hash_spec(d.prev), d.prev) =~= d.cache);
                assert(d.out + Seq::new(62, |i: int| d.prev) =~= px.take(n as int));
                assert(px.take(px.len() - 1) =~= px.take(n as int));
            } else {
                assert(px.take(px.len() - (e.run + 1)) =~= pre.take(n - e.run));
            }
        } else {
            let flushed = if e.run > 0 { e.ops.push(QoiOp::Run { len: e.run as u8 }) } else { e.ops };
            let d1 = replay(initial_state(), flushed);
            if e.run > 0 {
                lemma_replay_push(initial_state(), e.ops, QoiOp::Run { len: e.run as u8 });
                reveal(op_pixel);
                assert(d.cache.update(hash_spec(d.prev), d.prev) =~= d.cache);
                assert(d.out + Seq::new(e.run, |i: int| d.prev) =~= pre);
            } else {
                assert(pre.take(n as int) =~= pre);
            }
            assert(d1.out == pre && d1.cache == e.cache && d1.prev == e.prev);
            let op = choose_op(e.cache, e.prev, p);
            lemma_replay_push(initial_state(), flushed, op);
            lemma_choose_op_decodes(e.cache, e.prev, p);
            assert(op_count(op) == 1);
            assert(pre + Seq::new(1, |i: int| p) =~= px.take(px.len() as int));
        }
    }
}

/// Decoding the wire forms of `ops` steps through them one by one, while each fits in
/// the pixels still owed.
proof fn lemma_decode_ops_bytes(ops: Seq<QoiOp>, tail: Seq<u8>, st: DecodeState, target: nat)
    requires
        forall|k: int| 0 <= k < ops.len() ==> (#[trigger] ops[k]).wf(),
        replay(st, ops).out.len() <= target,
    ensures
        decode_body(ops_bytes(ops) + tail, st, target) == decode_body(tail, replay(st, ops), target),
    decreases ops.len(),
{
    if ops.len() == 0 {
        assert(ops_bytes(ops) + tail =~= tail);
    } else {
        let op = ops[0];
        let st1 = step(st, op, op_count(op));
        lemma_replay_grows(st1, ops.skip(1));
        assert(op.wf());
        assert(st.out.len() < target);
        let data = ops_bytes(ops) + tail;
        op.lemma_parse_bytes(ops_bytes(ops.skip(1)) + tail);
        assert(data =~= op.bytes_spec() + (ops_bytes(ops.skip(1)) + tail));
        lemma_decode_body_step(data, st, target);
        assert(data.skip(op.bytes_spec().len() as int) =~= ops_bytes(ops.skip(1)) + tail);
        lemma_decode_ops_bytes(ops.skip(1), tail, st1, target);
    }
}

proof fn lemma_be32_bytes(x: u32, rest: Seq<u8>)
    ensures
        be32(be32_bytes(x) + rest, 0) == x,
{
    let s = be32_bytes(x) + rest;
    assert(s[0] == be32_bytes(x)[0] && s[1] == be32_bytes(x)[1] && s[2] == be32_bytes(x)[2]
        && s[3] == be32_bytes(x)[3]);
}

/// The operations that encode `px`, decoded from their wire form followed by `tail`,
/// give back `px` and leave `tail` unread.
proof fn lemma_body_decodes(px: Seq<Pixel>, tail: Seq<u8>)
    ensures
        decode_body(ops_bytes(encode_ops(px)) + tail, initial_state(), px.len())
            matches Some((fin, rest)) && fin.out == px && rest == tail,
{
    let ops = encode_ops(px);
    let e = encode_fold(px);
    lemma_fold_sync(px);
    lemma_encode_fold_wf(px);
    let d = replay(initial_state(), e.ops);
    if e.run > 0 {
        lemma_replay_push(initial_state(), e.ops, QoiOp::Run { len: e.run as u8 });
        reveal(op_pixel);
        assert(d.cache.update(hash_spec(d.prev), d.prev) =~= d.cache);
        assert(d.out + Seq::new(e.run, |i: int| d.prev) =~= px);
    } else {
        assert(px.take(px.len() as int) =~= px);
    }
    assert(replay(initial_state(), ops).out == px);
    crate::encoder::lemma_encode_ops_wf(px);
    lemma_decode_ops_bytes(ops, tail, initial_state(), px.len());
}

/// An encoded stream splits into its header, its operations and `tail`.
proof fn lemma_stream_layout(width: u32, height: u32, channels: u8, colorspace: u8, px: Seq<Pixel>, tail: Seq<u8>)
    ensures
        ({
            let data = header_spec(width, height, channels, colorspace) + ops_bytes(encode_ops(px)) + tail;
            &&& data.len() >= 14
            &&& data.subrange(0, 4) == magic()
            &&& data.subrange(4, 8) == be32_bytes(width)
            &&& data.subrange(8, 12) == be32_bytes(height)
            &&& be32(data, 4) == width
            &&& be32(data, 8) == height
            &&& data.skip(14) == ops_bytes(encode_ops(px)) + tail
        }),
{
    let data = header_spec(width, height, channels, colorspace) + ops_bytes(encode_ops(px)) + tail;
    assert(data.subrange(0, 4) =~= magic());
    assert(data.subrange(4, 8) =~= be32_bytes(width));
    assert(data.subrange(8, 12) =~= be32_bytes(height));
    assert(data.skip(14) =~= ops_bytes(encode_ops(px)) + tail);
    lemma_be32_bytes(width, data.skip(8));
    assert(data.skip(4) =~= be32_bytes(width) + data.skip(8));
    lemma_be32_bytes(height, data.skip(12));
    assert(data.skip(8) =~= be32_bytes(height) + data.skip(12));
    assert(be32(data, 4) == be32(data.skip(4), 0));
    assert(be32(data, 8) == be32(data.skip(8), 0));
}

/// Round trip: decoding the encoding of `width * height` pixels gives back the width,
/// the height and the pixels, whatever the channels and colorspace bytes say.
pub proof fn lemma_round_trip(width: u32, height: u32, channels: u8, colorspace: u8, px: Seq<Pixel>)
    requires
        px.len() == width * height,
    ensures
        decode_spec(encode_spec(width, height, channels, colorspace, px)) == Some((width, height, px)),
{
    lemma_stream_layout(width, height, channels, colorspace, px, footer());
    lemma_body_decodes(px, footer());
}

/// Header fidelity: bytes 4..8 and 8..12 of an encoding are the width and the height in
/// big-endian order, and its last 8 bytes are the footer.
pub proof fn lemma_header_fidelity(width: u32, height: u32, channels: u8, colorspace: u8, px: Seq<Pixel>)
    ensures
        ({
            let data = encode_spec(width, height, channels, colorspace, px);
            &&& data.len() >= 22
            &&& data.subrange(0, 4) == magic()
            &&& data.subrange(4, 8) == be32_bytes(width)
            &&& data.subrange(8, 12) == be32_bytes(height)
            &&& be32(data, 4) == width
            &&& be32(data, 8) == height
            &&& data.subrange(data.len() - 8, data.len() as int) == footer()
        }),
{
    lemma_stream_layout(width, height, channels, colorspace, px, footer());
    let data = encode_spec(width, height, channels, colorspace, px);
    assert(data.subrange(data.len() - 8, data.len() as int) =~= footer());
}

/// A buffer shorter than the 14-byte header does not decode.
pub proof fn lemma_short_input_fails(data: Seq<u8>)
    requires
        data.len() < 14,
    ensures
        decode_spec(data) is None,
{
}

/// A buffer whose first four bytes are not the magic does not decode.
pub proof fn lemma_bad_magic_fails(data: Seq<u8>)
    requires
        data.len() >= 4,
        data.subrange(0, 4) != magic(),
    ensures
        decode_spec(data) is None,
{
}

/// An encoding whose final 8 bytes are replaced by anything but the footer does not
/// decode.
pub proof fn lemma_bad_footer_fails(width: u32, height: u32, channels: u8, colorspace: u8, px: Seq<Pixel>, tail: Seq<u8>)
    requires
        px.len() == width * height,
        tail.len() == 8,
        tail != footer(),
    ensures
        decode_spec(header_spec(width, height, channels, colorspace) + ops_bytes(encode_ops(px)) + tail) is None,
{
    lemma_stream_layout(width, height, channels, colorspace, px, tail);
    lemma_body_decodes(px, tail);
}

/// The cache slot of a pixel holds it as long as no later pixel hashes to that slot.
pub proof fn lemma_cache_holds(px: Seq<Pixel>, j: int)
    requires
        0 <= j < px.len(),
        forall|k: int| j < k < px.len() ==> hash_spec(#[trigger] px[k]) != hash_spec(px[j]),
    ensures
        encode_fold(px).cache[hash_spec(px[j])] == px[j],
    decreases px.len(),
{
    lemma_encode_fold_wf(px.drop_last());
    if j < px.len() - 1 {
        assert(px.drop_last()[j] == px[j]);
        assert forall|k: int| j < k < px.drop_last().len() implies hash_spec(#[trigger] px.drop_last()[k]) != hash_spec(px.drop_last()[j]) by {
            assert(px.drop_last()[k] == px[k]);
        }
        lemma_cache_holds(px.drop_last(), j);
    }
}

/// Index comes first: a pixel that differs from the one before it, and was seen earlier
/// with no pixel since then hashing to its slot, is encoded as Index of its slot.
pub proof fn lemma_index_priority(px: Seq<Pixel>, j: int, p: Pixel)
    requires
        0 <= j < px.len(),
        px[j] == p,
        forall|k: int| j < k < px.len() ==> hash_spec(#[trigger] px[k]) != hash_spec(p),
        p != px.last(),
    ensures
        encode_fold(px.push(p)).ops.last() == (QoiOp::Index { idx: hash_spec(p) as u8 }),
{
    lemma_cache_holds(px, j);
    assert(px.push(p).drop_last() =~= px);
    assert(encode_fold(px).prev == px.last());
}

/// The encoder's state after `k >= 1` repeats of the previous pixel, from a state with
/// no run in progress.
proof fn lemma_run_fold(px: Seq<Pixel>, k: nat)
    requires
        encode_fold(px).run == 0,
        k >= 1,
    ensures
        ({
            let q = encode_fold(px).prev;
            let st = encode_fold(px + Seq::new(k, |i: int| q));
            &&& st.prev == q
            &&& st.run == (k - 1) % 62 + 1
            &&& st.ops == encode_fold(px).ops + Seq::new(((k - 1) / 62) as nat, |i: int| QoiOp::Run { len: 62 })
        }),
    decreases k,
{
    let q = encode_fold(px).prev;
    let all = px + Seq::new(k, |i: int| q);
    let pre = px + Seq::new((k - 1) as nat, |i: int| q);
    assert(all.drop_last() =~= pre);
    assert(all.last() == q);
    if k == 1 {
        assert(pre =~= px);
        assert(encode_fold(px).ops + Seq::new(0, |i: int| QoiOp::Run { len: 62 }) =~= encode_fold(px).ops);
    } else {
        lemma_run_fold(px, (k - 1) as nat);
        let base = encode_fold(px).ops;
        let m = ((k - 2) / 62) as nat;
        if (k - 2) % 62 == 61 {
            assert(((k - 1) / 62) as nat == m + 1);
            assert((base + Seq::new(m, |i: int| QoiOp::Run { len: 62 })).push(QoiOp::Run { len: 62 })
                =~= base + Seq::new(m + 1, |i: int| QoiOp::Run { len: 62 }));
        } else {
            assert(((k - 1) / 62) as nat == m);
        }
    }
}

/// Runs are split in chunks of 62: `n` repeats of the previous pixel, from a state with
/// no run in progress, end the encoding with `n / 62` Run(62) and one Run of the rest.
pub proof fn lemma_run_split(px: Seq<Pixel>, n: nat)
    requires
        encode_fold(px).run == 0,
    ensures
        encode_ops(px + Seq::new(n, |i: int| encode_fold(px).prev)) == encode_fold(px).ops
            + Seq::new(n / 62, |i: int| QoiOp::Run { len: 62 })
            + (if n % 62 > 0 { seq![QoiOp::Run { len: (n % 62) as u8 }] } else { Seq::empty() }),
{
    let q = encode_fold(px).prev;
    let base = encode_fold(px).ops;
    if n == 0 {
        assert(px + Seq::new(0, |i: int| q) =~= px);
        assert(base + Seq::new(0, |i: int| QoiOp::Run { len: 62 }) + Seq::<QoiOp>::empty() =~= base);
    } else {
        lemma_run_fold(px, n);
        if n % 62 == 0 {
            assert(((n - 1) / 62) as nat + 1 == n / 62);
            assert((base + Seq::new(((n - 1) / 62) as nat, |i: int| QoiOp::Run { len: 62 })).push(QoiOp::Run { len: 62 })
                =~= base + Seq::new(n / 62, |i: int| QoiOp::Run { len: 62 }) + Seq::<QoiOp>::empty());
        } else {
            assert(((n - 1) / 62) as nat == n / 62);
            assert((base + Seq::new(n / 62, |i: int| QoiOp::Run { len: 62 })).push(QoiOp::Run { len: (n % 62) as u8 })
                =~= base + Seq::new(n / 62, |i: int| QoiOp::Run { len: 62 }) + seq![QoiOp::Run { len: (n % 62) as u8 }]);
        }
    }
}

/// No run is longer than 62: every Run of an encoding has a length in 1..=62.
pub proof fn lemma_runs_bounded(px: Seq<Pixel>, k: int)
    requires
        0 <= k < encode_ops(px).len(),
    ensures
        encode_ops(px)[k] matches QoiOp::Run { len } ==> 1 <= len <= 62,
{
    crate::encoder::lemma_encode_ops_wf(px);
    assert(encode_ops(px)[k].wf());
}

} // verus!
