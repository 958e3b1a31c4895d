use vstd::prelude::*;
use crate::pixel::{initial_cache, initial_prev, Pixel, PixelCache};
use crate::qoi_types::{
    add_delta, chunk_effect, magic_spec, parse_chunk, parse_chunk_spec, u32_from_be, QOIError,
    QOIHeader, QOIType, HEADER_SIZE,
};

verus! {

/// `k` copies of `p`.
pub open spec fn repeat(p: Pixel, k: nat) -> Seq<Pixel> {
    Seq::new(k, |i: int| p)
}

/// `out` followed by the pixels of `o`, if any.
pub open spec fn prepend(out: Seq<Pixel>, o: Option<Seq<Pixel>>) -> Option<Seq<Pixel>> {
    match o {
        Some(rest) => Some(out + rest),
        None => None,
    }
}

/// The `rem` pixels that the chunk bytes `b` decode to from the given
/// previous pixel and cache, or `None` when the bytes end first. The last
/// chunk may be cut short by `rem`; bytes after it are ignored.
#[verifier::opaque]
pub open spec fn decode_stream(b: Seq<u8>, prev: Pixel, cache: Seq<Pixel>, rem: nat) -> Option<Seq<Pixel>>
    decreases b.len(),
{
    if rem == 0 {
        Some(Seq::empty())
    } else if b.len() == 0 {
        None
    } else {
        match parse_chunk_spec(b) {
            None => None,
            Some((c, s)) => if 1 <= s <= b.len() {
                let (next, c2, k) = chunk_effect(prev, cache, c);
                let k2 = if k <= rem { k } else { rem };
                prepend(repeat(next, k2), decode_stream(b.subrange(s as int, b.len() as int), next, c2, (rem - k2) as nat))
            } else {
                None
            },
        }
    }
}

/// The bytes of a pixel: three channels, or four with alpha.
pub open spec fn pixel_bytes(p: Pixel, ch: u8) -> Seq<u8> {
    if ch == 4 {
        seq![p.r, p.g, p.b, p.a]
    } else {
        seq![p.r, p.g, p.b]
    }
}

/// The flat buffer of a pixel sequence.
pub open spec fn flatten(ps: Seq<Pixel>, ch: u8) -> Seq<u8>
    decreases ps.len(),
{
    if ps.len() == 0 {
        Seq::empty()
    } else {
        flatten(ps.drop_last(), ch) + pixel_bytes(ps.last(), ch)
    }
}

/// The width stored in a header.
pub open spec fn width_of(b: Seq<u8>) -> u32 {
    u32_from_be(b[4], b[5], b[6], b[7])
}

/// The height stored in a header.
pub open spec fn height_of(b: Seq<u8>) -> u32 {
    u32_from_be(b[8], b[9], b[10], b[11])
}

/// A complete header with the right magic, non-zero dimensions and 3 or 4
/// channels.
pub open spec fn header_ok(b: Seq<u8>) -> bool {
    &&& b.len() >= 14
    &&& b.take(4) == magic_spec()
    &&& width_of(b) > 0
    &&& height_of(b) > 0
    &&& b[12] == 3 || b[12] == 4
}

/// The header `h` holds the fields stored in `b`.
pub open spec fn header_matches(h: QOIHeader, b: Seq<u8>) -> bool {
    &&& h.magic@ == magic_spec()
    &&& h.width == width_of(b)
    &&& h.height == height_of(b)
    &&& h.channels == b[12]
    &&& h.colorspace == b[13]
}

/// The pixels of a stream with a well-formed header, or `None` when its
/// chunks end before `width * height` pixels.
pub open spec fn decode_pixels_spec(b: Seq<u8>) -> Option<Seq<Pixel>> {
    decode_stream(b.subrange(14, b.len() as int), initial_prev(), initial_cache(), (width_of(b) * height_of(b)) as nat)
}

/// The field bounds that every parsed chunk meets.
pub open spec fn decodable(c: QOIType) -> bool {
    match c {
        QOIType::Index(x) => x.index < 64,
        QOIType::Diff(x) => x.dr < 8 && x.dg < 8 && x.db < 8 && x.da < 8,
        QOIType::Luma(x) => x.diff_green < 64 && x.dr_dg < 16 && x.db_dg < 16,
        _ => true,
    }
}

proof fn lemma_parsed_decodable(b: Seq<u8>)
    requires
        b.len() > 0,
        parse_chunk_spec(b) is Some,
    ensures
        ({
            let (c, s) = parse_chunk_spec(b)->0;
            decodable(c) && 1 <= s <= b.len()
        }),
{
    reveal(parse_chunk_spec);
}

/// One chunk of decoding.
pub proof fn lemma_decode_step(b: Seq<u8>, prev: Pixel, cache: Seq<Pixel>, rem: nat, c: QOIType, s: nat)
    requires
        rem > 0,
        b.len() > 0,
        parse_chunk_spec(b) == Some((c, s)),
    ensures
        ({
            let (next, c2, k) = chunk_effect(prev, cache, c);
            let k2 = if k <= rem { k } else { rem };
            decode_stream(b, prev, cache, rem) == prepend(repeat(next, k2), decode_stream(b.subrange(s as int, b.len() as int), next, c2, (rem - k2) as nat))
        }),
{
    lemma_parsed_decodable(b);
    reveal(decode_stream);
}

/// Decoding fails when the bytes end, or end inside a chunk, before `rem`
/// pixels.
proof fn lemma_decode_short(b: Seq<u8>, prev: Pixel, cache: Seq<Pixel>, rem: nat)
    requires
        rem > 0,
        b.len() == 0 || parse_chunk_spec(b) is None,
    ensures
        decode_stream(b, prev, cache, rem) is None,
{
    reveal(decode_stream);
}

/// Nothing is left to decode once `rem` is zero.
proof fn lemma_decode_done(b: Seq<u8>, prev: Pixel, cache: Seq<Pixel>)
    ensures
        decode_stream(b, prev, cache, 0) == Some(Seq::<Pixel>::empty()),
{
    reveal(decode_stream);
}

pub proof fn lemma_prepend_assoc(a: Seq<Pixel>, c: Seq<Pixel>, o: Option<Seq<Pixel>>)
    ensures
        prepend(a, prepend(c, o)) == prepend(a + c, o),
{
    if let Some(rest) = o {
        assert(a + (c + rest) =~= (a + c) + rest);
    }
}

fn read_u32_be(b: &Vec<u8>, pos: usize) -> (r: u32)
    requires
        pos + 4 <= b@.len(),
    ensures
        r == u32_from_be(b@[pos as int], b@[pos + 1], b@[pos + 2], b@[pos + 3]),
{
    let len = b.len();
    assert(pos + 3 < len);
    (b[pos] as u32) * 16777216 + (b[pos + 1] as u32) * 65536 + (b[pos + 2] as u32) * 256 + (b[pos + 3] as u32)
}

/// Reads the header that opens a stream. Fails with `MalformedHeader`
/// exactly when the bytes do not start with a well-formed header.
pub fn decode_header(b: &Vec<u8>) -> (r: Result<QOIHeader, QOIError>)
    ensures
        match r {
            Ok(h) => header_ok(b@) && header_matches(h, b@),
            Err(e) => !header_ok(b@) && e == QOIError::MalformedHeader,
        },
{
    if b.len() < HEADER_SIZE {
        return Err(QOIError::MalformedHeader);
    }
    if !(b[0] == 113 && b[1] == 111 && b[2] == 105 && b[3] == 102) {
        assert(b@.take(4)[0] == b@[0] && b@.take(4)[1] == b@[1] && b@.take(4)[2] == b@[2]
            && b@.take(4)[3] == b@[3]);
        return Err(QOIError::MalformedHeader);
    }
    assert(b@.take(4) =~= magic_spec());
    let width = read_u32_be(b, 4);
    let height = read_u32_be(b, 8);
    let channels = b[12];
    if width == 0 || height == 0 || !(channels == 3 || channels == 4) {
        return Err(QOIError::MalformedHeader);
    }
    let mut h = QOIHeader::new(width, height);
    h.channels = channels;
    h.colorspace = b[13];
    Ok(h)
}

/// A channel moved by a signed delta, modulo 256.
fn add_delta_exec(c: u8, d: i32) -> (r: u8)
    requires
        -256 <= d <= 256,
    ensures
        r == add_delta(c, d as int),
{
    let x: i32 = c as i32 + d;
    if x < 0 {
        (x + 256) as u8
    } else if x >= 256 {
        (x - 256) as u8
    } else {
        x as u8
    }
}

/// Applies a chunk to the previous pixel and the cache: returns the new
/// previous pixel and how many copies of it the chunk emits.
fn apply_chunk(c: &QOIType, prev: Pixel, cache: &mut PixelCache) -> (r: (Pixel, u8))
    requires
        old(cache).wf(),
        decodable(*c),
    ensures
        final(cache).wf(),
        (r.0, final(cache)@, r.1 as nat) == chunk_effect(prev, old(cache)@, *c),
{
    proof {
        reveal(chunk_effect);
    }
    match c {
        QOIType::RGB(x) => {
            let p = Pixel { r: x.r, g: x.g, b: x.b, a: prev.a };
            cache.store(p);
            (p, 1)
        },
        QOIType::RGBA(x) => {
            let p = Pixel { r: x.r, g: x.g, b: x.b, a: x.a };
            cache.store(p);
            (p, 1)
        },
        QOIType::Index(x) => (cache.get(x.index as usize), 1),
        QOIType::Diff(x) => {
            let p = Pixel {
                r: add_delta_exec(prev.r, x.dr as i32 - 4),
                g: add_delta_exec(prev.g, x.dg as i32 - 4),
                b: add_delta_exec(prev.b, x.db as i32 - 4),
                a: add_delta_exec(prev.a, x.da as i32 - 4),
            };
            cache.store(p);
            (p, 1)
        },
        QOIType::Luma(x) => {
            let dg: i32 = x.diff_green as i32 - 32;
            let p = Pixel {
                r: add_delta_exec(prev.r, dg + x.dr_dg as i32 - 8),
                g: add_delta_exec(prev.g, dg),
                b: add_delta_exec(prev.b, dg + x.db_dg as i32 - 8),
                a: prev.a,
            };
            cache.store(p);
            (p, 1)
        },
        QOIType::Run(x) => (prev, x.run),
    }
}

/// Decodes the chunk at `pos` and appends its pixels, at most `rem`, to
/// `out`. Returns the next position, the new previous pixel and how many
/// pixels are left, or `None` when the bytes end inside the chunk.
fn decode_chunk(b: &Vec<u8>, pos: usize, prev: Pixel, cache: &mut PixelCache, rem: u64, out: &mut Vec<Pixel>) -> (r: Option<(usize, Pixel, u64)>)
    requires
        pos < b@.len(),
        rem > 0,
        old(cache).wf(),
    ensures
        final(cache).wf(),
        match r {
            None => decode_stream(b@.subrange(pos as int, b@.len() as int), prev, old(cache)@, rem as nat) is None,
            Some((pos2, next, rem2)) => pos < pos2 <= b@.len() && prepend(old(out)@, decode_stream(b@.subrange(pos as int, b@.len() as int), prev, old(cache)@, rem as nat))
                == prepend(final(out)@, decode_stream(b@.subrange(pos2 as int, b@.len() as int), next, final(cache)@, rem2 as nat)),
        },
{
    let ghost rest = b@.subrange(pos as int, b@.len() as int);
    let len = b.len();
    let (c, s) = match parse_chunk(b, pos) {
        None => {
            proof {
                lemma_decode_short(rest, prev, cache@, rem as nat);
            }
            return None;
        },
        Some(cs) => cs,
    };
    proof {
        lemma_parsed_decodable(rest);
        lemma_decode_step(rest, prev, cache@, rem as nat, c, s as nat);
    }
    let ghost old_out = out@;
    let (p, k) = apply_chunk(&c, prev, cache);
    let k2: u64 = if (k as u64) <= rem { k as u64 } else { rem };
    let mut j: u64 = 0;
    while j < k2
        invariant
            j <= k2,
            out@ == old_out + repeat(p, j as nat),
        decreases k2 - j,
    {
        out.push(p);
        j += 1;
        assert(out@ =~= old_out + repeat(p, j as nat));
    }
    proof {
        assert(rest.subrange(s as int, rest.len() as int) =~= b@.subrange(pos + s, b@.len() as int));
        lemma_prepend_assoc(old_out, repeat(p, k2 as nat), decode_stream(b@.subrange(pos + s, b@.len() as int), p, cache@, (rem - k2) as nat));
    }
    assert(pos + s <= len);
    Some((pos + s, p, rem - k2))
}

/// Decodes a stream into its header and the flat pixel buffer, with the
/// channel count of the header. Fails with `MalformedHeader` when the header
/// is not well formed, and with `TruncatedStream` when the chunks end
/// before `width * height` pixels; bytes after the last pixel are ignored.
#[verifier::rlimit(60)]
pub fn decode(b: &Vec<u8>) -> (r: Result<(QOIHeader, Vec<u8>), QOIError>)
    ensures
        match r {
            Ok((h, v)) => header_ok(b@) && header_matches(h, b@) && decode_pixels_spec(b@) is Some
                && v@ == flatten(decode_pixels_spec(b@)->0, h.channels),
            Err(e) => (!header_ok(b@) && e == QOIError::MalformedHeader) || (header_ok(b@)
                && decode_pixels_spec(b@) is None && e == QOIError::TruncatedStream),
        },
{
    let header = match decode_header(b) {
        Ok(h) => h,
        Err(e) => return Err(e),
    };
    let len = b.len();
    let ghost body = b@.subrange(14, len as int);
    proof {
        let (w, h) = (header.width as int, header.height as int);
        assert(w * h <= 0xffff_ffff * 0xffff_ffff) by (nonlinear_arith)
            requires 0 <= w <= 0xffff_ffff, 0 <= h <= 0xffff_ffff;
    }
    let total: u64 = (header.width as u64) * (header.height as u64);
    let mut rem: u64 = total;
    let mut pos: usize = HEADER_SIZE;
    let mut prev = Pixel { r: 0, g: 0, b: 0, a: 255 };
    let mut cache = PixelCache::new();
    let mut out: Vec<Pixel> = Vec::new();
    let ghost whole = decode_stream(body, prev, cache@, rem as nat);
    assert(whole == decode_pixels_spec(b@));
    assert(b@.subrange(pos as int, len as int) == body);
    assert(prepend(out@, decode_stream(body, prev, cache@, rem as nat)) == decode_stream(body, prev, cache@, rem as nat))
        by {
        if let Some(rest) = decode_stream(body, prev, cache@, rem as nat) {
            assert(out@ + rest =~= rest);
        }
    };
    while rem > 0
        invariant
            14 <= pos <= len,
            len == b@.len(),
            cache.wf(),
            whole == decode_pixels_spec(b@),
            header_ok(b@),
            header_matches(header, b@),
            whole == prepend(out@, decode_stream(b@.subrange(pos as int, len as int), prev, cache@, rem as nat)),
        decreases len - pos,
    {
        if pos >= len {
            proof {
                lemma_decode_short(b@.subrange(pos as int, len as int), prev, cache@, rem as nat);
            }
            return Err(QOIError::TruncatedStream);
        }
        match decode_chunk(b, pos, prev, &mut cache, rem, &mut out) {
            None => return Err(QOIError::TruncatedStream),
            Some((pos2, next, rem2)) => {
                pos = pos2;
                prev = next;
                rem = rem2;
            },
        }
    }
    let mut v: Vec<u8> = Vec::new();
    let mut i: usize = 0;
    proof {
        lemma_decode_done(b@.subrange(pos as int, len as int), prev, cache@);
        assert(out@ + Seq::<Pixel>::empty() =~= out@);
    }
    while i < out.len()
        invariant
            i <= out@.len(),
            v@ == flatten(out@.take(i as int), header.channels),
        decreases out@.len() - i,
    {
        let p = out[i];
        v.push(p.r);
        v.push(p.g);
        v.push(p.b);
        if header.channels == 4 {
            v.push(p.a);
        }
        assert(out@.take(i + 1).drop_last() =~= out@.take(i as int));
        i += 1;
        assert(v@ =~= flatten(out@.take(i as int), header.channels));
    }
    assert(out@.take(i as int) =~= out@);
    assert(whole == decode_pixels_spec(b@));
    Ok((header, v))
}

} // verus!
