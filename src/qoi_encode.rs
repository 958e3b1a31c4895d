use vstd::prelude::*;
use crate::pixel::{cache_store, hash, hash_spec, initial_cache, initial_prev, Pixel, PixelCache};
use crate::qoi_types::{
    chunk_valid, magic_spec, push_chunk_bytes, serialize, u32_be_bytes, QOIError,
    QOIHeader, QOIType, QOITypeDiff, QOITypeIndex, QOITypeLuma, QOITypeRGB, QOITypeRGBA,
    QOITypeRun,
};

verus! {

/// The pixel whose bytes start at `i` of a flat buffer with `ch` channels;
/// with three channels its alpha is 255.
pub open spec fn pixel_at(d: Seq<u8>, i: int, ch: u8) -> Pixel {
    Pixel { r: d[i], g: d[i + 1], b: d[i + 2], a: if ch == 4 { d[i + 3] } else { 255u8 } }
}

/// The pixels of a flat buffer with `ch` channels per pixel.
pub open spec fn pixels_of(d: Seq<u8>, ch: u8) -> Seq<Pixel> {
    Seq::new(d.len() / (ch as nat), |i: int| pixel_at(d, i * ch, ch))
}

/// A buffer of `w` by `h` pixels of `ch` channels (3 or 4), neither
/// dimension zero.
pub open spec fn input_ok(d: Seq<u8>, w: u32, h: u32, ch: u8) -> bool {
    &&& ch == 3 || ch == 4
    &&& w > 0
    &&& h > 0
    &&& d.len() == w * h * ch
}

/// Every channel of `p` is within -4..3 of that of `prev`.
pub open spec fn diff_fits(prev: Pixel, p: Pixel) -> bool {
    &&& -4 <= p.r - prev.r <= 3
    &&& -4 <= p.g - prev.g <= 3
    &&& -4 <= p.b - prev.b <= 3
    &&& -4 <= p.a - prev.a <= 3
}

/// The Diff chunk from `prev` to `p`, each delta biased by 4.
pub open spec fn diff_chunk(prev: Pixel, p: Pixel) -> QOIType {
    QOIType::Diff(QOITypeDiff {
        dr: (p.r - prev.r + 4) as u8,
        dg: (p.g - prev.g + 4) as u8,
        db: (p.b - prev.b + 4) as u8,
        da: (p.a - prev.a + 4) as u8,
    })
}

/// Alpha is unchanged, the green delta is within -32..31, and the red and
/// blue deltas differ from it by -8..7.
pub open spec fn luma_fits(prev: Pixel, p: Pixel) -> bool {
    let dg = p.g - prev.g;
    &&& p.a == prev.a
    &&& -32 <= dg <= 31
    &&& -8 <= (p.r - prev.r) - dg <= 7
    &&& -8 <= (p.b - prev.b) - dg <= 7
}

/// The Luma chunk from `prev` to `p`.
pub open spec fn luma_chunk(prev: Pixel, p: Pixel) -> QOIType {
    let dg = p.g - prev.g;
    QOIType::Luma(QOITypeLuma {
        diff_green: (dg + 32) as u8,
        dr_dg: ((p.r - prev.r) - dg + 8) as u8,
        db_dg: ((p.b - prev.b) - dg + 8) as u8,
    })
}

/// A literal chunk for `p`: RGB (alpha left to the previous pixel) when
/// `rgb` holds, RGBA otherwise.
pub open spec fn literal_chunk(p: Pixel, rgb: bool) -> QOIType {
    if rgb {
        QOIType::RGB(QOITypeRGB { r: p.r, g: p.g, b: p.b })
    } else {
        QOIType::RGBA(QOITypeRGBA { r: p.r, g: p.g, b: p.b, a: p.a })
    }
}

/// The chunk for a pixel that differs from the previous one, by priority:
/// Index, Diff, Luma, literal.
pub open spec fn classify(prev: Pixel, cache: Seq<Pixel>, p: Pixel) -> QOIType {
    if cache[hash_spec(p)] == p {
        QOIType::Index(QOITypeIndex { index: hash_spec(p) as u8 })
    } else if diff_fits(prev, p) {
        diff_chunk(prev, p)
    } else if luma_fits(prev, p) {
        luma_chunk(prev, p)
    } else {
        literal_chunk(p, p.a == prev.a)
    }
}

/// The encoder's state: previous pixel, cache, pending run, chunks so far.
pub type EncState = (Pixel, Seq<Pixel>, nat, Seq<QOIType>);

/// One step of the encoder on pixel `p`.
pub open spec fn encode_step(st: EncState, p: Pixel, first: bool, last: bool, alpha: bool) -> EncState {
    let (prev, cache, run, cs) = st;
    if first {
        (p, cache_store(cache, p), 0, cs.push(literal_chunk(p, !alpha)))
    } else if p == prev {
        if run + 1 >= 62 || last {
            (prev, cache, 0, cs.push(QOIType::Run(QOITypeRun { run: (run + 1) as u8 })))
        } else {
            (prev, cache, run + 1, cs)
        }
    } else {
        let flushed = if run > 0 {
            cs.push(QOIType::Run(QOITypeRun { run: run as u8 }))
        } else {
            cs
        };
        (p, cache_store(cache, p), 0, flushed.push(classify(prev, cache, p)))
    }
}

/// The encoder's state after the first `k` pixels of `ps`.
pub open spec fn encode_prefix(ps: Seq<Pixel>, alpha: bool, k: nat) -> EncState
    decreases k,
{
    if k == 0 {
        (initial_prev(), initial_cache(), 0, Seq::empty())
    } else {
        encode_step(encode_prefix(ps, alpha, (k - 1) as nat), ps[k - 1], k == 1, k == ps.len(), alpha)
    }
}

/// The chunks that encode the pixel sequence `ps`.
pub open spec fn encode_chunks(ps: Seq<Pixel>, alpha: bool) -> Seq<QOIType> {
    encode_prefix(ps, alpha, ps.len()).3
}

/// The header bytes for the given dimensions, channels and colorspace.
pub open spec fn header_bytes_of(w: u32, h: u32, ch: u8, cs: u8) -> Seq<u8> {
    magic_spec() + u32_be_bytes(w) + u32_be_bytes(h) + seq![ch, cs]
}

/// The encoded stream of a buffer, or the error for a buffer that does not
/// match its shape.
pub open spec fn encode_spec(d: Seq<u8>, w: u32, h: u32, ch: u8, cs: u8) -> Result<Seq<u8>, QOIError> {
    if input_ok(d, w, h, ch) {
        Ok(header_bytes_of(w, h, ch, cs) + serialize(encode_chunks(pixels_of(d, ch), ch == 4)))
    } else {
        Err(QOIError::InvalidInput)
    }
}

/// Reads the pixel whose bytes start at `idx`.
fn get_pixel(idx: usize, data: &Vec<u8>, channels: u8) -> (r: Pixel)
    requires
        idx + channels <= data@.len(),
        channels == 3 || channels == 4,
    ensures
        r == pixel_at(data@, idx as int, channels),
{
    let len = data.len();
    assert(idx + 3 <= len);
    let a = if channels == 4 { data[idx + 3] } else { 255u8 };
    Pixel { r: data[idx], g: data[idx + 1], b: data[idx + 2], a }
}

/// Appends the big-endian bytes of `x`.
fn push_u32_be(x: u32, out: &mut Vec<u8>)
    ensures
        final(out)@ == old(out)@ + u32_be_bytes(x),
{
    let ghost start = out@;
    out.push((x / 16777216) as u8);
    out.push(((x / 65536) % 256) as u8);
    out.push(((x / 256) % 256) as u8);
    out.push((x % 256) as u8);
    assert(out@ =~= start + u32_be_bytes(x));
}

/// Encodes a flat pixel buffer into chunks, pixel by pixel, keeping the
/// previous-pixel cache and the pending run length.
pub struct QOIEncoder {
    header: QOIHeader,
    data: Vec<QOIType>,
    seen: PixelCache,
    run: usize,
}

impl Default for QOIEncoder {
    fn default() -> (r: Self)
        ensures
            r.wf(),
            r.chunks() == Seq::<QOIType>::empty(),
            r.cache() == initial_cache(),
            r.pending_run() == 0,
    {
        QOIEncoder { header: QOIHeader::new(0, 0), data: Vec::new(), seen: PixelCache::new(), run: 0 }
    }
}

impl QOIEncoder {
    /// The chunks produced so far.
    pub closed spec fn chunks(&self) -> Seq<QOIType> {
        self.data@
    }

    /// The previous-pixel cache.
    pub closed spec fn cache(&self) -> Seq<Pixel> {
        self.seen@
    }

    /// How many repeats of the previous pixel are not yet flushed.
    pub closed spec fn pending_run(&self) -> nat {
        self.run as nat
    }

    /// The header of the image being encoded.
    pub closed spec fn header_spec(&self) -> QOIHeader {
        self.header
    }

    /// The cache holds 64 slots, the pending run is below its maximum, and
    /// every chunk's fields fit their widths.
    pub closed spec fn wf(&self) -> bool {
        &&& self.seen.wf()
        &&& self.run < 62
        &&& forall|j: int| 0 <= j < self.data@.len() ==> chunk_valid(#[trigger] self.data@[j])
    }

    /// The chunks produced so far.
    pub fn data(&self) -> (r: &Vec<QOIType>)
        ensures
            r@ == self.chunks(),
    {
        &self.data
    }

    /// The header of the image being encoded.
    pub fn header(&self) -> (r: QOIHeader)
        ensures
            r == self.header_spec(),
    {
        self.header
    }

    /// The first pixel: always a literal, then stored in the cache.
    fn qoi_buffer_init(&mut self, p: Pixel, alpha: bool)
        requires
            old(self).wf(),
        ensures
            final(self).wf(),
            final(self).data@ == old(self).data@.push(literal_chunk(p, !alpha)),
            final(self).seen@ == cache_store(old(self).seen@, p),
            final(self).run == old(self).run,
            final(self).header == old(self).header,
    {
        self.seen.store(p);
        if alpha {
            self.data.push(QOIType::RGBA(QOITypeRGBA { r: p.r, g: p.g, b: p.b, a: p.a }));
        } else {
            self.data.push(QOIType::RGB(QOITypeRGB { r: p.r, g: p.g, b: p.b }));
        }
    }

    /// The run rule. A pixel equal to the previous one extends the run,
    /// which is flushed at 62 or at the last pixel; the result is then true.
    /// Otherwise a pending run is flushed and the result is false.
    fn qoi_buffer_run(&mut self, p: Pixel, prev: Pixel, last: bool) -> (r: bool)
        requires
            old(self).wf(),
        ensures
            final(self).wf(),
            r == (p == prev),
            final(self).seen@ == old(self).seen@,
            final(self).header == old(self).header,
            r && (old(self).run + 1 >= 62 || last) ==> final(self).run == 0
                && final(self).data@ == old(self).data@.push(
                    QOIType::Run(QOITypeRun { run: (old(self).run + 1) as u8 }),
                ),
            r && !(old(self).run + 1 >= 62 || last) ==> final(self).run == old(self).run + 1
                && final(self).data@ == old(self).data@,
            !r ==> final(self).run == 0,
            !r && old(self).run > 0 ==> final(self).data@ == old(self).data@.push(
                QOIType::Run(QOITypeRun { run: old(self).run as u8 }),
            ),
            !r && old(self).run == 0 ==> final(self).data@ == old(self).data@,
            final(self).run <= 61,
            old(self).data@.len() <= final(self).data@.len() <= old(self).data@.len() + 1,
            final(self).data@.take(old(self).data@.len() as int) == old(self).data@,
            final(self).data@.len() > old(self).data@.len() ==> (final(self).data@.last() matches QOIType::Run(x)
                && 1 <= x.run <= 62),
    {
        let ghost start = self.data@;
        assert(start.push(QOIType::Run(QOITypeRun { run: (self.run + 1) as u8 })).take(start.len() as int) =~= start);
        assert(start.push(QOIType::Run(QOITypeRun { run: self.run as u8 })).take(start.len() as int) =~= start);
        assert(start.take(start.len() as int) =~= start);
        if p == prev {
            self.run += 1;
            if self.run >= 62 || last {
                self.data.push(QOIType::Run(QOITypeRun { run: self.run as u8 }));
                self.run = 0;
            }
            true
        } else {
            if self.run > 0 {
                self.data.push(QOIType::Run(QOITypeRun { run: self.run as u8 }));
                self.run = 0;
            }
            false
        }
    }

    /// The index rule: when the slot of `p` holds `p`, pushes an Index chunk.
    fn qoi_buffer_index(&mut self, p: Pixel) -> (r: bool)
        requires
            old(self).wf(),
        ensures
            final(self).wf(),
            r == (old(self).seen@[hash_spec(p)] == p),
            r ==> final(self).data@ == old(self).data@.push(
                QOIType::Index(QOITypeIndex { index: hash_spec(p) as u8 }),
            ),
            !r ==> final(self).data@ == old(self).data@,
            final(self).seen@ == old(self).seen@,
            final(self).run == old(self).run,
            final(self).header == old(self).header,
    {
        if self.seen.lookup(p) {
            let h = hash(p);
            self.data.push(QOIType::Index(QOITypeIndex { index: h as u8 }));
            true
        } else {
            false
        }
    }

    /// The diff rule: when every channel moved by -4..3, pushes a Diff chunk.
    fn qoi_buffer_diff(&mut self, p: Pixel, prev: Pixel) -> (r: bool)
        requires
            old(self).wf(),
        ensures
            final(self).wf(),
            r == diff_fits(prev, p),
            r ==> final(self).data@ == old(self).data@.push(diff_chunk(prev, p)),
            !r ==> final(self).data@ == old(self).data@,
            final(self).seen@ == old(self).seen@,
            final(self).run == old(self).run,
            final(self).header == old(self).header,
    {
        let diff_r = p.r as i32 - prev.r as i32;
        let diff_g = p.g as i32 - prev.g as i32;
        let diff_b = p.b as i32 - prev.b as i32;
        let diff_a = p.a as i32 - prev.a as i32;
        if diff_r >= -4 && diff_r <= 3 && diff_g >= -4 && diff_g <= 3 && diff_b >= -4 && diff_b <= 3
            && diff_a >= -4 && diff_a <= 3 {
            self.data.push(QOIType::Diff(QOITypeDiff {
                dr: (diff_r + 4) as u8,
                dg: (diff_g + 4) as u8,
                db: (diff_b + 4) as u8,
                da: (diff_a + 4) as u8,
            }));
            true
        } else {
            false
        }
    }

    /// The luma rule: when alpha is unchanged and the deltas fit, pushes a
    /// Luma chunk.
    fn qoi_buffer_luma(&mut self, p: Pixel, prev: Pixel) -> (r: bool)
        requires
            old(self).wf(),
        ensures
            final(self).wf(),
            r == luma_fits(prev, p),
            r ==> final(self).data@ == old(self).data@.push(luma_chunk(prev, p)),
            !r ==> final(self).data@ == old(self).data@,
            final(self).seen@ == old(self).seen@,
            final(self).run == old(self).run,
            final(self).header == old(self).header,
    {
        let dg = p.g as i32 - prev.g as i32;
        let dr_dg = (p.r as i32 - prev.r as i32) - dg;
        let db_dg = (p.b as i32 - prev.b as i32) - dg;
        if p.a == prev.a && dg >= -32 && dg <= 31 && dr_dg >= -8 && dr_dg <= 7 && db_dg >= -8
            && db_dg <= 7 {
            self.data.push(QOIType::Luma(QOITypeLuma {
                diff_green: (dg + 32) as u8,
                dr_dg: (dr_dg + 8) as u8,
                db_dg: (db_dg + 8) as u8,
            }));
            true
        } else {
            false
        }
    }

    /// The fallback: an RGB literal when alpha is unchanged, else RGBA.
    fn qoi_buffer_literal(&mut self, p: Pixel, prev: Pixel)
        requires
            old(self).wf(),
        ensures
            final(self).wf(),
            final(self).data@ == old(self).data@.push(literal_chunk(p, p.a == prev.a)),
            final(self).seen@ == old(self).seen@,
            final(self).run == old(self).run,
            final(self).header == old(self).header,
    {
        if p.a == prev.a {
            self.data.push(QOIType::RGB(QOITypeRGB { r: p.r, g: p.g, b: p.b }));
        } else {
            self.data.push(QOIType::RGBA(QOITypeRGBA { r: p.r, g: p.g, b: p.b, a: p.a }));
        }
    }

    /// Encodes a flat buffer of `width` by `height` pixels with `channels`
    /// bytes each into chunks, replacing whatever the encoder held. Fails
    /// with `InvalidInput` exactly when the buffer does not have that shape.
    pub fn encode_pixels(&mut self, data: &Vec<u8>, width: u32, height: u32, channels: u8, colorspace: u8) -> (r: Result<(), QOIError>)
        requires
            old(self).wf(),
        ensures
            final(self).wf(),
            r is Ok <==> input_ok(data@, width, height, channels),
            r is Err ==> r == Err::<(), QOIError>(QOIError::InvalidInput),
            r is Ok ==> final(self).chunks() == encode_chunks(pixels_of(data@, channels), channels == 4),
            r is Ok ==> final(self).cache() == encode_prefix(pixels_of(data@, channels), channels == 4, (width * height) as nat).1,
            r is Ok ==> final(self).pending_run() == 0,
            r is Ok ==> final(self).header_spec().magic@ == magic_spec()
                && final(self).header_spec().width == width
                && final(self).header_spec().height == height
                && final(self).header_spec().channels == channels
                && final(self).header_spec().colorspace == colorspace,
    {
        if !(channels == 3 || channels == 4) || width == 0 || height == 0 {
            return Err(QOIError::InvalidInput);
        }
        let len = data.len();
        proof {
            let (w, h, c) = (width as int, height as int, channels as int);
            assert(w * h <= 0xffff_ffff * 0xffff_ffff && w * h * c <= 0xffff_ffff * 0xffff_ffff * 4)
                by (nonlinear_arith)
                requires 0 <= w <= 0xffff_ffff, 0 <= h <= 0xffff_ffff, 0 <= c <= 4;
        }
        let total: u128 = (width as u128) * (height as u128);
        if total * (channels as u128) != len as u128 {
            return Err(QOIError::InvalidInput);
        }
        proof {
            assert(total <= total * channels) by (nonlinear_arith)
                requires channels >= 1, total >= 0;
        }
        let n: usize = total as usize;
        let ch: usize = channels as usize;
        let alpha = channels == 4;
        let ghost ps = pixels_of(data@, channels);
        proof {
            vstd::arithmetic::div_mod::lemma_div_multiples_vanish(n as int, ch as int);
            assert(data@.len() == ch * n) by (nonlinear_arith)
                requires data@.len() == n * ch;
        }
        let mut header = QOIHeader::new(width, height);
        header.channels = channels;
        header.colorspace = colorspace;
        self.header = header;
        self.data = Vec::new();
        self.seen = PixelCache::new();
        self.run = 0;
        let mut prev = Pixel { r: 0, g: 0, b: 0, a: 255 };
        let mut i: usize = 0;
        let mut idx: usize = 0;
        while i < n
            invariant
                self.wf(),
                ps == pixels_of(data@, channels),
                ps.len() == n,
                data@.len() == n * ch,
                len == data@.len(),
                ch == channels,
                channels == 3 || channels == 4,
                alpha == (channels == 4),
                i <= n,
                n == width * height,
                i == 0 ==> self.run == 0,
                i == n ==> self.run == 0,
                idx == i * ch,
                encode_prefix(ps, alpha, i as nat) == (prev, self.seen@, self.run as nat, self.data@),
                self.header.magic@ == magic_spec(),
                self.header.width == width,
                self.header.height == height,
                self.header.channels == channels,
                self.header.colorspace == colorspace,
            decreases n - i,
        {
            proof {
                assert(idx + ch <= n * ch) by (nonlinear_arith)
                    requires idx == i * ch, i < n;
                assert(idx + ch == (i + 1) * ch) by (nonlinear_arith)
                    requires idx == i * ch;
            }
            let p = get_pixel(idx, data, channels);
            assert(p == ps[i as int]);
            if i == 0 {
                self.qoi_buffer_init(p, alpha);
                prev = p;
            } else {
                let last = i + 1 == n;
                if !self.qoi_buffer_run(p, prev, last) {
                    if !self.qoi_buffer_index(p) {
                        if !self.qoi_buffer_diff(p, prev) {
                            if !self.qoi_buffer_luma(p, prev) {
                                self.qoi_buffer_literal(p, prev);
                            }
                        }
                    }
                    self.seen.store(p);
                    prev = p;
                }
            }
            i += 1;
            idx += ch;
        }
        Ok(())
    }

    /// The encoded stream: the header bytes, then each chunk's bytes.
    pub fn to_bytes(&self) -> (r: Vec<u8>)
        requires
            self.wf(),
        ensures
            r@ == self.header_spec().magic@ + u32_be_bytes(self.header_spec().width)
                + u32_be_bytes(self.header_spec().height)
                + seq![self.header_spec().channels, self.header_spec().colorspace]
                + serialize(self.chunks()),
    {
        let mut out: Vec<u8> = Vec::new();
        out.push(self.header.magic[0]);
        out.push(self.header.magic[1]);
        out.push(self.header.magic[2]);
        out.push(self.header.magic[3]);
        assert(out@ =~= self.header.magic@);
        push_u32_be(self.header.width, &mut out);
        push_u32_be(self.header.height, &mut out);
        out.push(self.header.channels);
        out.push(self.header.colorspace);
        let ghost head = out@;
        assert(head =~= self.header.magic@ + u32_be_bytes(self.header.width) + u32_be_bytes(self.header.height)
            + seq![self.header.channels, self.header.colorspace]);
        let mut i: usize = 0;
        while i < self.data.len()
            invariant
                self.wf(),
                i <= self.data@.len(),
                out@ == head + serialize(self.data@.take(i as int)),
            decreases self.data@.len() - i,
        {
            assert(self.data@.take(i + 1).drop_last() =~= self.data@.take(i as int));
            assert(chunk_valid(self.data@[i as int]));
            push_chunk_bytes(&self.data[i], &mut out);
            i += 1;
            assert(out@ =~= head + serialize(self.data@.take(i as int)));
        }
        assert(self.data@.take(i as int) =~= self.data@);
        out
    }
}

/// Encodes a flat buffer of `width` by `height` pixels of `channels` bytes
/// (3 or 4) into a stream: a header, then the chunks.
pub fn encode(data: &Vec<u8>, width: u32, height: u32, channels: u8, colorspace: u8) -> (r: Result<Vec<u8>, QOIError>)
    ensures
        match r {
            Ok(v) => encode_spec(data@, width, height, channels, colorspace) == Ok::<Seq<u8>, QOIError>(v@),
            Err(e) => encode_spec(data@, width, height, channels, colorspace) == Err::<Seq<u8>, QOIError>(e),
        },
{
    let mut encoder = QOIEncoder::default();
    match encoder.encode_pixels(data, width, height, channels, colorspace) {
        Ok(()) => {
            let v = encoder.to_bytes();
            assert(v@ =~= header_bytes_of(width, height, channels, colorspace)
                + serialize(encode_chunks(pixels_of(data@, channels), channels == 4)));
            Ok(v)
        },
        Err(e) => Err(e),
    }
}

} // verus!
