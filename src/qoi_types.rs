use vstd::prelude::*;
use crate::pixel::{cache_store, Pixel};

verus! {

/// Size in bytes of the stream header.
pub const HEADER_SIZE: usize = 14;

/// The fixed descriptor that opens every stream.
#[derive(Clone, Copy, Debug)]
pub struct QOIHeader {
    pub magic: [u8; 4],
    pub width: u32,
    pub height: u32,
    pub channels: u8,
    pub colorspace: u8,
}

/// The four magic bytes `qoif`.
pub open spec fn magic_spec() -> Seq<u8> {
    seq![113u8, 111u8, 105u8, 102u8]
}

/// Big-endian bytes of a 32-bit value.
pub open spec fn u32_be_bytes(x: u32) -> Seq<u8> {
    seq![
        (x / 16777216) as u8,
        ((x / 65536) % 256) as u8,
        ((x / 256) % 256) as u8,
        (x % 256) as u8,
    ]
}

/// The value of four big-endian bytes.
pub open spec fn u32_from_be(b0: u8, b1: u8, b2: u8, b3: u8) -> u32 {
    (b0 * 16777216 + b1 * 65536 + b2 * 256 + b3) as u32
}

/// The header as it stands on the wire: magic, width, height, channels,
/// colorspace.
pub open spec fn header_bytes(h: QOIHeader) -> Seq<u8> {
    h.magic@ + u32_be_bytes(h.width) + u32_be_bytes(h.height) + seq![h.channels, h.colorspace]
}

impl QOIHeader {
    /// A header for an RGBA image with the given dimensions.
    pub fn new(width: u32, height: u32) -> (r: QOIHeader)
        ensures
            r.magic@ == magic_spec(),
            r.width == width,
            r.height == height,
            r.channels == 4,
            r.colorspace == 1,
    {
        let h = QOIHeader {
            magic: [113u8, 111u8, 105u8, 102u8],
            width,
            height,
            channels: 4,
            colorspace: 1,
        };
        assert(h.magic@ =~= magic_spec());
        h
    }
}

/// What can go wrong when encoding or decoding.
///
/// The encoder never emits a run length or a biased field outside its
/// width, and every tag byte names a chunk kind: both are proved, so no
/// error stands for them.
#[derive(Clone, Copy, PartialEq, Eq, Structural, Debug)]
pub enum QOIError {
    /// The pixel buffer does not match the dimensions, or the channel count
    /// is not 3 or 4, or a dimension is zero.
    InvalidInput,
    /// The stream is shorter than a header, its magic is wrong, a dimension
    /// is zero, or its channel count is not 3 or 4.
    MalformedHeader,
    /// The chunks end before the declared number of pixels.
    TruncatedStream,
}

/// A literal pixel whose alpha is that of the previous pixel.
#[derive(Clone, Copy, PartialEq, Eq, Structural, Debug)]
pub struct QOITypeRGB {
    pub r: u8,
    pub g: u8,
    pub b: u8,
}

/// A literal pixel with all four channels.
#[derive(Clone, Copy, PartialEq, Eq, Structural, Debug)]
pub struct QOITypeRGBA {
    pub r: u8,
    pub g: u8,
    pub b: u8,
    pub a: u8,
}

/// A reference to a cache slot (0 to 63).
#[derive(Clone, Copy, PartialEq, Eq, Structural, Debug)]
pub struct QOITypeIndex {
    pub index: u8,
}

/// Small per-channel differences to the previous pixel, each stored with a
/// bias of 4 in three bits.
#[derive(Clone, Copy, PartialEq, Eq, Structural, Debug)]
pub struct QOITypeDiff {
    pub dr: u8,
    pub dg: u8,
    pub db: u8,
    pub da: u8,
}

/// A green difference (six bits, bias 32) and the red and blue differences
/// relative to it (four bits each, bias 8); alpha is unchanged.
#[derive(Clone, Copy, PartialEq, Eq, Structural, Debug)]
pub struct QOITypeLuma {
    pub diff_green: u8,
    pub dr_dg: u8,
    pub db_dg: u8,
}

/// A repetition of the previous pixel, 1 to 62 times.
#[derive(Clone, Copy, PartialEq, Eq, Structural, Debug)]
pub struct QOITypeRun {
    pub run: u8,
}

/// One chunk of the stream.
#[derive(Clone, Copy, PartialEq, Eq, Structural, Debug)]
pub enum QOIType {
    RGB(QOITypeRGB),
    RGBA(QOITypeRGBA),
    Index(QOITypeIndex),
    Diff(QOITypeDiff),
    Luma(QOITypeLuma),
    Run(QOITypeRun),
}

/// Every field of the chunk fits its declared width.
pub open spec fn chunk_valid(c: QOIType) -> bool {
    match c {
        QOIType::RGB(_) => true,
        QOIType::RGBA(_) => true,
        QOIType::Index(x) => x.index < 64,
        QOIType::Diff(x) => x.dr < 8 && x.dg < 8 && x.db < 8 && x.da < 8,
        QOIType::Luma(x) => x.diff_green < 64 && x.dr_dg < 16 && x.db_dg < 16,
        QOIType::Run(x) => 1 <= x.run <= 62,
    }
}

/// The bytes of a chunk, most significant bit first: a 2-bit tag in the
/// high bits of the first byte (00 index, 01 diff, 10 luma, 11 run), or the
/// full tag byte 254 (RGB) or 255 (RGBA). A run of length n is stored as
/// n - 1, so that its byte never collides with the two full tags.
pub open spec fn chunk_bytes(c: QOIType) -> Seq<u8> {
    match c {
        QOIType::RGB(x) => seq![254u8, x.r, x.g, x.b],
        QOIType::RGBA(x) => seq![255u8, x.r, x.g, x.b, x.a],
        QOIType::Index(x) => seq![x.index],
        QOIType::Diff(x) => seq![(64 + x.dr * 8 + x.dg) as u8, (x.db * 32 + x.da * 4) as u8],
        QOIType::Luma(x) => seq![(128 + x.diff_green) as u8, (x.dr_dg * 16 + x.db_dg) as u8],
        QOIType::Run(x) => seq![(192 + x.run - 1) as u8],
    }
}

/// The chunk that starts a non-empty byte sequence, with its size, or
/// `None` when the sequence ends inside it.
#[verifier::opaque]
pub open spec fn parse_chunk_spec(b: Seq<u8>) -> Option<(QOIType, nat)>
    recommends
        b.len() > 0,
{
    let b0 = b[0];
    if b0 == 254 {
        if b.len() < 4 {
            None
        } else {
            Some((QOIType::RGB(QOITypeRGB { r: b[1], g: b[2], b: b[3] }), 4))
        }
    } else if b0 == 255 {
        if b.len() < 5 {
            None
        } else {
            Some((QOIType::RGBA(QOITypeRGBA { r: b[1], g: b[2], b: b[3], a: b[4] }), 5))
        }
    } else if b0 / 64 == 0 {
        Some((QOIType::Index(QOITypeIndex { index: b0 }), 1))
    } else if b0 / 64 == 3 {
        Some((QOIType::Run(QOITypeRun { run: (b0 % 64 + 1) as u8 }), 1))
    } else if b.len() < 2 {
        None
    } else if b0 / 64 == 1 {
        Some((QOIType::Diff(QOITypeDiff {
            dr: ((b0 / 8) % 8) as u8,
            dg: (b0 % 8) as u8,
            db: (b[1] / 32) as u8,
            da: ((b[1] / 4) % 8) as u8,
        }), 2))
    } else {
        Some((QOIType::Luma(QOITypeLuma {
            diff_green: (b0 % 64) as u8,
            dr_dg: (b[1] / 16) as u8,
            db_dg: (b[1] % 16) as u8,
        }), 2))
    }
}

/// A channel moved by a signed delta, modulo 256.
pub open spec fn add_delta(c: u8, d: int) -> u8 {
    ((c + d) % 256) as u8
}

/// What a chunk does to the decoder: the new previous pixel, the new cache,
/// and how many copies of the new previous pixel it emits.
#[verifier::opaque]
pub open spec fn chunk_effect(prev: Pixel, cache: Seq<Pixel>, c: QOIType) -> (Pixel, Seq<Pixel>, nat) {
    match c {
        QOIType::RGB(x) => {
            let p = Pixel { r: x.r, g: x.g, b: x.b, a: prev.a };
            (p, cache_store(cache, p), 1)
        },
        QOIType::RGBA(x) => {
            let p = Pixel { r: x.r, g: x.g, b: x.b, a: x.a };
            (p, cache_store(cache, p), 1)
        },
        QOIType::Index(x) => (cache[x.index as int], cache, 1),
        QOIType::Diff(x) => {
            let p = Pixel {
                r: add_delta(prev.r, x.dr - 4),
                g: add_delta(prev.g, x.dg - 4),
                b: add_delta(prev.b, x.db - 4),
                a: add_delta(prev.a, x.da - 4),
            };
            (p, cache_store(cache, p), 1)
        },
        QOIType::Luma(x) => {
            let dg = x.diff_green - 32;
            let p = Pixel {
                r: add_delta(prev.r, dg + x.dr_dg - 8),
                g: add_delta(prev.g, dg),
                b: add_delta(prev.b, dg + x.db_dg - 8),
                a: prev.a,
            };
            (p, cache_store(cache, p), 1)
        },
        QOIType::Run(x) => (prev, cache, x.run as nat),
    }
}

/// The bytes of a chunk sequence, chunk after chunk.
pub open spec fn serialize(cs: Seq<QOIType>) -> Seq<u8>
    decreases cs.len(),
{
    if cs.len() == 0 {
        Seq::empty()
    } else {
        serialize(cs.drop_last()) + chunk_bytes(cs.last())
    }
}

/// Parsing the bytes of a valid chunk, followed by anything, gives back
/// that chunk and its size.
pub proof fn lemma_parse_chunk_bytes(c: QOIType, tail: Seq<u8>)
    requires
        chunk_valid(c),
    ensures
        parse_chunk_spec(chunk_bytes(c) + tail) == Some((c, chunk_bytes(c).len())),
{
    reveal(parse_chunk_spec);
    let b = chunk_bytes(c) + tail;
    assert(b[0] == chunk_bytes(c)[0]);
    match c {
        QOIType::RGB(x) => {
            assert(b[1] == x.r && b[2] == x.g && b[3] == x.b);
        },
        QOIType::RGBA(x) => {
            assert(b[1] == x.r && b[2] == x.g && b[3] == x.b && b[4] == x.a);
        },
        QOIType::Index(x) => {},
        QOIType::Diff(x) => {
            let b0 = 64 + x.dr * 8 + x.dg;
            let b1 = x.db * 32 + x.da * 4;
            assert(b[1] == chunk_bytes(c)[1]);
            assert(b0 / 64 == 1 && (b0 / 8) % 8 == x.dr && b0 % 8 == x.dg) by (nonlinear_arith)
                requires b0 == 64 + x.dr * 8 + x.dg, x.dr < 8, x.dg < 8;
            assert(b1 / 32 == x.db && (b1 / 4) % 8 == x.da) by (nonlinear_arith)
                requires b1 == x.db * 32 + x.da * 4, x.db < 8, x.da < 8;
        },
        QOIType::Luma(x) => {
            let b1 = x.dr_dg * 16 + x.db_dg;
            assert(b[1] == chunk_bytes(c)[1]);
            assert(b1 / 16 == x.dr_dg && b1 % 16 == x.db_dg) by (nonlinear_arith)
                requires b1 == x.dr_dg * 16 + x.db_dg, x.dr_dg < 16, x.db_dg < 16;
        },
        QOIType::Run(x) => {},
    }
}

/// Appends the bytes of a chunk to `out`, most significant bit first.
pub fn push_chunk_bytes(c: &QOIType, out: &mut Vec<u8>)
    requires
        chunk_valid(*c),
    ensures
        final(out)@ == old(out)@ + chunk_bytes(*c),
{
    let ghost start = out@;
    match c {
        QOIType::RGB(x) => {
            out.push(254u8);
            out.push(x.r);
            out.push(x.g);
            out.push(x.b);
        },
        QOIType::RGBA(x) => {
            out.push(255u8);
            out.push(x.r);
            out.push(x.g);
            out.push(x.b);
            out.push(x.a);
        },
        QOIType::Index(x) => {
            out.push(x.index);
        },
        QOIType::Diff(x) => {
            out.push(64u8 + x.dr * 8 + x.dg);
            out.push(x.db * 32 + x.da * 4);
        },
        QOIType::Luma(x) => {
            out.push(128u8 + x.diff_green);
            out.push(x.dr_dg * 16 + x.db_dg);
        },
        QOIType::Run(x) => {
            out.push(192u8 + x.run - 1);
        },
    }
    assert(out@ =~= start + chunk_bytes(*c));
}

/// Parses the chunk that starts at `pos`, or returns `None` when the bytes
/// end inside it.
pub fn parse_chunk(b: &Vec<u8>, pos: usize) -> (r: Option<(QOIType, usize)>)
    requires
        pos < b@.len(),
    ensures
        match r {
            Some((c, s)) => parse_chunk_spec(b@.subrange(pos as int, b@.len() as int)) == Some((c, s as nat)),
            None => parse_chunk_spec(b@.subrange(pos as int, b@.len() as int)) is None,
        },
{
    let ghost rest = b@.subrange(pos as int, b@.len() as int);
    proof {
        reveal(parse_chunk_spec);
    }
    let b0 = b[pos];
    let left = b.len() - pos;
    assert(rest[0] == b0);
    if b0 == 254 {
        if left < 4 {
            None
        } else {
            assert(rest[1] == b@[pos + 1] && rest[2] == b@[pos + 2] && rest[3] == b@[pos + 3]);
            Some((QOIType::RGB(QOITypeRGB { r: b[pos + 1], g: b[pos + 2], b: b[pos + 3] }), 4))
        }
    } else if b0 == 255 {
        if left < 5 {
            None
        } else {
            assert(rest[1] == b@[pos + 1] && rest[2] == b@[pos + 2] && rest[3] == b@[pos + 3]
                && rest[4] == b@[pos + 4]);
            Some((QOIType::RGBA(QOITypeRGBA {
                r: b[pos + 1],
                g: b[pos + 2],
                b: b[pos + 3],
                a: b[pos + 4],
            }), 5))
        }
    } else if b0 / 64 == 0 {
        Some((QOIType::Index(QOITypeIndex { index: b0 }), 1))
    } else if b0 / 64 == 3 {
        Some((QOIType::Run(QOITypeRun { run: b0 % 64 + 1 }), 1))
    } else if left < 2 {
        None
    } else if b0 / 64 == 1 {
        let b1 = b[pos + 1];
        assert(rest[1] == b1);
        Some((QOIType::Diff(QOITypeDiff { dr: (b0 / 8) % 8, dg: b0 % 8, db: b1 / 32, da: (b1 / 4) % 8 }), 2))
    } else {
        let b1 = b[pos + 1];
        assert(rest[1] == b1);
        Some((QOIType::Luma(QOITypeLuma { diff_green: b0 % 64, dr_dg: b1 / 16, db_dg: b1 % 16 }), 2))
    }
}

} // verus!
