use vstd::prelude::*;
use crate::pixel::{cache_store, hash_spec, initial_cache, initial_prev, Pixel};
use crate::qoi_types::{
    chunk_bytes, chunk_effect, chunk_valid, lemma_parse_chunk_bytes, magic_spec, serialize,
    u32_be_bytes, u32_from_be, QOIType, QOITypeRun,
};
use crate::qoi_types::add_delta;
use crate::qoi_encode::{
    classify, diff_fits, encode_chunks, encode_prefix, encode_spec, encode_step, header_bytes_of,
    input_ok, literal_chunk, luma_fits, pixels_of, EncState,
};
use crate::qoi_decode::{
    decode_pixels_spec, decode_stream, flatten, header_ok, height_of, lemma_decode_step,
    lemma_prepend_assoc, pixel_bytes, prepend, repeat, width_of,
};

verus! {

/// Replays a chunk sequence from the given previous pixel and cache: the
/// final previous pixel, the final cache, and the pixels emitted.
pub open spec fn replay(prev: Pixel, cache: Seq<Pixel>, cs: Seq<QOIType>) -> (Pixel, Seq<Pixel>, Seq<Pixel>)
    decreases cs.len(),
{
    if cs.len() == 0 {
        (prev, cache, Seq::empty())
    } else {
        let (mid, c1, out) = replay(prev, cache, cs.drop_last());
        let (next, c2, k) = chunk_effect(mid, c1, cs.last());
        (next, c2, out + repeat(next, k))
    }
}

proof fn lemma_replay_push(prev: Pixel, cache: Seq<Pixel>, cs: Seq<QOIType>, c: QOIType)
    ensures
        ({
            let (mid, c1, out) = replay(prev, cache, cs);
            let (next, c2, k) = chunk_effect(mid, c1, c);
            replay(prev, cache, cs.push(c)) == (next, c2, out + repeat(next, k))
        }),
{
    assert(cs.push(c).drop_last() =~= cs);
}

proof fn lemma_serialize_push(cs: Seq<QOIType>, c: QOIType)
    ensures
        serialize(cs.push(c)) == serialize(cs) + chunk_bytes(c),
{
    assert(cs.push(c).drop_last() =~= cs);
}

/// The bytes of valid chunks, followed by anything, decode to the pixels
/// that replaying the chunks emits, then to what follows.
proof fn lemma_stream(cs: Seq<QOIType>, tail: Seq<u8>, prev: Pixel, cache: Seq<Pixel>, m: nat)
    requires
        forall|j: int| 0 <= j < cs.len() ==> chunk_valid(#[trigger] cs[j]),
    ensures
        ({
            let (p, c, out) = replay(prev, cache, cs);
            decode_stream(serialize(cs) + tail, prev, cache, out.len() + m) == prepend(out, decode_stream(tail, p, c, m))
        }),
    decreases cs.len(),
{
    let (p, c, out) = replay(prev, cache, cs);
    if cs.len() == 0 {
        assert(serialize(cs) + tail =~= tail);
        if let Some(rest) = decode_stream(tail, p, c, m) {
            assert(out + rest =~= rest);
        }
    } else {
        let init = cs.drop_last();
        let last = cs.last();
        assert(chunk_valid(last));
        assert forall|j: int| 0 <= j < init.len() implies chunk_valid(#[trigger] init[j]) by {
            assert(init[j] == cs[j]);
        }
        let (mid, c1, out1) = replay(prev, cache, init);
        let (next, c2, k) = chunk_effect(mid, c1, last);
        assert(k >= 1) by {
            reveal(chunk_effect);
        }
        let bytes = chunk_bytes(last) + tail;
        lemma_stream(init, bytes, prev, cache, k + m);
        assert(serialize(cs) + tail =~= serialize(init) + bytes);
        lemma_parse_chunk_bytes(last, tail);
        lemma_decode_step(bytes, mid, c1, k + m, last, chunk_bytes(last).len());
        assert(bytes.subrange(chunk_bytes(last).len() as int, bytes.len() as int) =~= tail);
        lemma_prepend_assoc(out1, repeat(next, k), decode_stream(tail, next, c2, m));
        assert(out.len() + m == out1.len() + (k + m));
    }
}

proof fn lemma_add_delta(c: u8, t: u8)
    ensures
        add_delta(c, t - c) == t,
{
}

/// A pixel that differs from the previous one is classified into a valid
/// chunk that reproduces it and stores it in the cache.
proof fn lemma_classify(prev: Pixel, cache: Seq<Pixel>, p: Pixel)
    requires
        cache.len() == 64,
    ensures
        chunk_valid(classify(prev, cache, p)),
        chunk_effect(prev, cache, classify(prev, cache, p)) == (p, cache_store(cache, p), 1nat),
{
    reveal(chunk_effect);
    let h = hash_spec(p);
    if cache[h] == p {
        assert(cache.update(h, p) =~= cache);
    } else if diff_fits(prev, p) {
        lemma_add_delta(prev.r, p.r);
        lemma_add_delta(prev.g, p.g);
        lemma_add_delta(prev.b, p.b);
        lemma_add_delta(prev.a, p.a);
    } else if luma_fits(prev, p) {
        lemma_add_delta(prev.r, p.r);
        lemma_add_delta(prev.g, p.g);
        lemma_add_delta(prev.b, p.b);
    }
}

proof fn lemma_run_effect(prev: Pixel, cache: Seq<Pixel>, n: u8)
    ensures
        chunk_effect(prev, cache, QOIType::Run(QOITypeRun { run: n })) == (prev, cache, n as nat),
{
    reveal(chunk_effect);
}

proof fn lemma_first_effect(p: Pixel, alpha: bool)
    requires
        !alpha ==> p.a == 255,
    ensures
        chunk_effect(initial_prev(), initial_cache(), literal_chunk(p, !alpha))
            == (p, cache_store(initial_cache(), p), 1nat),
        chunk_valid(literal_chunk(p, !alpha)),
{
    reveal(chunk_effect);
}

/// What holds of the encoder's state after `k` pixels of `ps`: its chunks
/// are valid, and replaying them gives its previous pixel, its cache, and
/// the prefix without the pending run, whose pixels all equal the previous
/// pixel.
spec fn replay_inv(ps: Seq<Pixel>, k: nat, st: EncState) -> bool {
    let (prev, cache, run, cs) = st;
    &&& forall|j: int| 0 <= j < cs.len() ==> chunk_valid(#[trigger] cs[j])
    &&& cache.len() == 64
    &&& run < 62
    &&& run <= k
    &&& forall|j: int| k - run <= j < k ==> ps[j] == prev
    &&& replay(initial_prev(), initial_cache(), cs) == (prev, cache, ps.take(k - run))
}

proof fn lemma_valid_push(cs: Seq<QOIType>, c: QOIType)
    requires
        forall|j: int| 0 <= j < cs.len() ==> chunk_valid(#[trigger] cs[j]),
        chunk_valid(c),
    ensures
        forall|j: int| 0 <= j < cs.push(c).len() ==> chunk_valid(#[trigger] cs.push(c)[j]),
{
    assert forall|j: int| 0 <= j < cs.push(c).len() implies chunk_valid(#[trigger] cs.push(c)[j]) by {
        if j < cs.len() {
            assert(cs.push(c)[j] == cs[j]);
        }
    }
}

/// A pixel equal to the previous one.
proof fn lemma_step_same(ps: Seq<Pixel>, k: nat, st: EncState, last: bool, alpha: bool)
    requires
        1 < k <= ps.len(),
        replay_inv(ps, (k - 1) as nat, st),
        ps[k - 1] == st.0,
    ensures
        replay_inv(ps, k, encode_step(st, ps[k - 1], false, last, alpha)),
        last ==> encode_step(st, ps[k - 1], false, last, alpha).2 == 0,
{
    let (prev, cache, run, cs) = st;
    let i = k - 1;
    if run + 1 >= 62 || last {
        let c = QOIType::Run(QOITypeRun { run: (run + 1) as u8 });
        lemma_replay_push(initial_prev(), initial_cache(), cs, c);
        lemma_run_effect(prev, cache, (run + 1) as u8);
        lemma_valid_push(cs, c);
        assert(ps.take(i - run) + repeat(prev, run + 1) =~= ps.take(k as int));
    }
}

/// A pixel that differs from the previous one.
proof fn lemma_step_new(ps: Seq<Pixel>, k: nat, st: EncState, last: bool, alpha: bool)
    requires
        1 < k <= ps.len(),
        replay_inv(ps, (k - 1) as nat, st),
        ps[k - 1] != st.0,
    ensures
        replay_inv(ps, k, encode_step(st, ps[k - 1], false, last, alpha)),
        encode_step(st, ps[k - 1], false, last, alpha).2 == 0,
{
    let (prev, cache, run, cs) = st;
    let p = ps[k - 1];
    let i = k - 1;
    let c = classify(prev, cache, p);
    lemma_classify(prev, cache, p);
    if run > 0 {
        let r = QOIType::Run(QOITypeRun { run: run as u8 });
        let flushed = cs.push(r);
        lemma_replay_push(initial_prev(), initial_cache(), cs, r);
        lemma_run_effect(prev, cache, run as u8);
        lemma_valid_push(cs, r);
        assert(ps.take(i - run) + repeat(prev, run) =~= ps.take(i));
        lemma_replay_push(initial_prev(), initial_cache(), flushed, c);
        lemma_valid_push(flushed, c);
        assert(ps.take(i) + repeat(p, 1) =~= ps.take(k as int));
    } else {
        lemma_replay_push(initial_prev(), initial_cache(), cs, c);
        lemma_valid_push(cs, c);
        assert(ps.take(i) + repeat(p, 1) =~= ps.take(k as int));
    }
}

/// The encoder's state after any prefix of `ps` (whose pixels are opaque
/// when there is no alpha channel) meets `replay_inv`, and no run is pending
/// after the last pixel.
proof fn lemma_encoder_replay(ps: Seq<Pixel>, alpha: bool, k: nat)
    requires
        k <= ps.len(),
        !alpha ==> forall|i: int| 0 <= i < ps.len() ==> (#[trigger] ps[i]).a == 255,
    ensures
        replay_inv(ps, k, encode_prefix(ps, alpha, k)),
        k == ps.len() && k > 0 ==> encode_prefix(ps, alpha, k).2 == 0,
    decreases k,
{
    if k == 0 {
        assert(ps.take(0) =~= Seq::<Pixel>::empty());
    } else {
        lemma_encoder_replay(ps, alpha, (k - 1) as nat);
        let st = encode_prefix(ps, alpha, (k - 1) as nat);
        let p = ps[k - 1];
        if k == 1 {
            let c = literal_chunk(p, !alpha);
            lemma_first_effect(p, alpha);
            lemma_replay_push(initial_prev(), initial_cache(), st.3, c);
            lemma_valid_push(st.3, c);
            assert(Seq::<Pixel>::empty() + repeat(p, 1) =~= ps.take(1));
        } else if p == st.0 {
            lemma_step_same(ps, k, st, k == ps.len(), alpha);
        } else {
            lemma_step_new(ps, k, st, k == ps.len(), alpha);
        }
    }
}

/// The pixels of a buffer of `n` pixels, flattened again, are the buffer.
proof fn lemma_flatten_pixels(d: Seq<u8>, ch: u8, n: nat)
    requires
        ch == 3 || ch == 4,
        d.len() == n * ch,
    ensures
        pixels_of(d, ch).len() == n,
        flatten(pixels_of(d, ch), ch) == d,
    decreases n,
{
    vstd::arithmetic::div_mod::lemma_div_multiples_vanish(n as int, ch as int);
    assert(d.len() == ch * n);
    if n == 0 {
        assert(flatten(pixels_of(d, ch), ch) =~= d);
    } else {
        let m = (n - 1) as nat;
        let start = m * ch;
        assert(start + ch == d.len()) by (nonlinear_arith)
            requires start == m * ch, d.len() == n * ch, m == n - 1;
        let d1 = d.take(start);
        lemma_flatten_pixels(d1, ch, m);
        let ps = pixels_of(d, ch);
        assert forall|i: int| 0 <= i < m implies #[trigger] pixels_of(d1, ch)[i] == ps[i] by {
            assert(i * ch + ch <= start) by (nonlinear_arith)
                requires start == m * ch, 0 <= i < m, ch > 0;
        }
        assert(pixels_of(d1, ch) =~= ps.drop_last());
        assert(pixel_bytes(ps.last(), ch) =~= d.subrange(start, d.len() as int));
        assert(d =~= d1 + d.subrange(start, d.len() as int));
    }
}

proof fn lemma_u32_be(x: u32)
    ensures
        u32_from_be(u32_be_bytes(x)[0], u32_be_bytes(x)[1], u32_be_bytes(x)[2], u32_be_bytes(x)[3]) == x,
{
    let v = x as int;
    assert((v / 16777216) * 16777216 + ((v / 65536) % 256) * 65536 + ((v / 256) % 256) * 256 + v % 256 == v
        && v / 16777216 < 256) by (nonlinear_arith)
        requires 0 <= v < 0x1_0000_0000;
}

/// The header of an encoded stream is well formed and holds the width,
/// height, channel count and colorspace that were encoded.
pub proof fn lemma_header_fidelity(d: Seq<u8>, w: u32, h: u32, ch: u8, cs: u8)
    requires
        input_ok(d, w, h, ch),
    ensures
        encode_spec(d, w, h, ch, cs) is Ok,
        header_ok(encode_spec(d, w, h, ch, cs)->Ok_0),
        width_of(encode_spec(d, w, h, ch, cs)->Ok_0) == w,
        height_of(encode_spec(d, w, h, ch, cs)->Ok_0) == h,
        encode_spec(d, w, h, ch, cs)->Ok_0[12] == ch,
        encode_spec(d, w, h, ch, cs)->Ok_0[13] == cs,
{
    let b = encode_spec(d, w, h, ch, cs)->Ok_0;
    let head = header_bytes_of(w, h, ch, cs);
    assert(head.len() == 14);
    assert(b.take(14) =~= head);
    assert(b.take(4) =~= magic_spec()) by {
        assert forall|i: int| 0 <= i < 4 implies b.take(4)[i] == magic_spec()[i] by {
            assert(b[i] == head[i]);
        }
    }
    assert(b[4] == u32_be_bytes(w)[0] && b[5] == u32_be_bytes(w)[1] && b[6] == u32_be_bytes(w)[2]
        && b[7] == u32_be_bytes(w)[3]) by {
        assert(b[4] == head[4] && b[5] == head[5] && b[6] == head[6] && b[7] == head[7]);
    }
    assert(b[8] == u32_be_bytes(h)[0] && b[9] == u32_be_bytes(h)[1] && b[10] == u32_be_bytes(h)[2]
        && b[11] == u32_be_bytes(h)[3]) by {
        assert(b[8] == head[8] && b[9] == head[9] && b[10] == head[10] && b[11] == head[11]);
    }
    assert(b[12] == head[12] && b[13] == head[13]);
    lemma_u32_be(w);
    lemma_u32_be(h);
}

/// Decoding an encoded buffer gives back the buffer, byte for byte.
pub proof fn lemma_round_trip(d: Seq<u8>, w: u32, h: u32, ch: u8, cs: u8)
    requires
        input_ok(d, w, h, ch),
    ensures
        encode_spec(d, w, h, ch, cs) is Ok,
        decode_pixels_spec(encode_spec(d, w, h, ch, cs)->Ok_0) is Some,
        flatten(decode_pixels_spec(encode_spec(d, w, h, ch, cs)->Ok_0)->0, ch) == d,
{
    lemma_header_fidelity(d, w, h, ch, cs);
    let b = encode_spec(d, w, h, ch, cs)->Ok_0;
    let n = (w * h) as nat;
    let alpha = ch == 4;
    let ps = pixels_of(d, ch);
    lemma_flatten_pixels(d, ch, n);
    let chunks = encode_chunks(ps, alpha);
    lemma_encoder_replay(ps, alpha, n);
    assert(ps.take(n as int) =~= ps);
    assert(b.subrange(14, b.len() as int) =~= serialize(chunks) + Seq::<u8>::empty());
    let (p, c, out) = replay(initial_prev(), initial_cache(), chunks);
    lemma_stream(chunks, Seq::empty(), initial_prev(), initial_cache(), 0);
    assert(decode_stream(Seq::<u8>::empty(), p, c, 0) == Some(Seq::<Pixel>::empty())) by {
        reveal(decode_stream);
    }
    assert(out + Seq::<Pixel>::empty() =~= out);
}

/// Every Run chunk of an encoded buffer carries a length from 1 to 62.
pub proof fn lemma_runs_bounded(d: Seq<u8>, w: u32, h: u32, ch: u8)
    requires
        input_ok(d, w, h, ch),
    ensures
        ({
            let cs = encode_chunks(pixels_of(d, ch), ch == 4);
            forall|j: int| 0 <= j < cs.len() ==> (#[trigger] cs[j] matches QOIType::Run(x) ==> 1 <= x.run <= 62)
        }),
{
    let ps = pixels_of(d, ch);
    lemma_flatten_pixels(d, ch, (w * h) as nat);
    lemma_encoder_replay(ps, ch == 4, ps.len());
    let cs = encode_chunks(ps, ch == 4);
    assert forall|j: int| 0 <= j < cs.len() implies (#[trigger] cs[j] matches QOIType::Run(x) ==> 1 <= x.run <= 62) by {
        assert(chunk_valid(cs[j]));
    }
}

/// After any prefix of the pixels, the encoder's cache and previous pixel
/// are those that the decoder reaches by replaying the chunks emitted so
/// far.
pub proof fn lemma_cache_consistency(d: Seq<u8>, w: u32, h: u32, ch: u8, k: nat)
    requires
        input_ok(d, w, h, ch),
        k <= w * h,
    ensures
        replay(initial_prev(), initial_cache(), encode_prefix(pixels_of(d, ch), ch == 4, k).3).1
            == encode_prefix(pixels_of(d, ch), ch == 4, k).1,
        replay(initial_prev(), initial_cache(), encode_prefix(pixels_of(d, ch), ch == 4, k).3).0
            == encode_prefix(pixels_of(d, ch), ch == 4, k).0,
{
    let ps = pixels_of(d, ch);
    lemma_flatten_pixels(d, ch, (w * h) as nat);
    lemma_encoder_replay(ps, ch == 4, k);
}

/// Encoding is a function of its inputs: equal inputs give equal streams.
pub proof fn lemma_encode_deterministic(d1: Seq<u8>, d2: Seq<u8>, w: u32, h: u32, ch: u8, cs: u8)
    requires
        d1 == d2,
    ensures
        encode_spec(d1, w, h, ch, cs) == encode_spec(d2, w, h, ch, cs),
{
}

} // verus!
