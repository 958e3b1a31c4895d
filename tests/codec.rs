use qoi_encoder::{
    decode, decode_header, encode, hash, Pixel, PixelCache, QOIEncoder, QOIError, QOIHeader,
    QOIType, QOITypeRGBA, QOITypeRun,
};

fn header(width: u32, height: u32, channels: u8, colorspace: u8) -> Vec<u8> {
    let mut v = vec![b'q', b'o', b'i', b'f'];
    v.extend_from_slice(&width.to_be_bytes());
    v.extend_from_slice(&height.to_be_bytes());
    v.push(channels);
    v.push(colorspace);
    v
}

fn stream(width: u32, height: u32, channels: u8, chunks: &[u8]) -> Vec<u8> {
    let mut v = header(width, height, channels, 0);
    v.extend_from_slice(chunks);
    v
}

fn round_trip(data: &Vec<u8>, width: u32, height: u32, channels: u8) {
    let bytes = encode(data, width, height, channels, 1).unwrap();
    let (h, out) = decode(&bytes).unwrap();
    assert_eq!(h.width, width);
    assert_eq!(h.height, height);
    assert_eq!(h.channels, channels);
    assert_eq!(h.colorspace, 1);
    assert_eq!(&out, data);
}

#[test]
fn header_new_fields() {
    let h = QOIHeader::new(7, 9);
    assert_eq!(h.magic, [b'q', b'o', b'i', b'f']);
    assert_eq!(h.width, 7);
    assert_eq!(h.height, 9);
    assert_eq!(h.channels, 4);
    assert_eq!(h.colorspace, 1);
}

#[test]
fn hash_formula() {
    assert_eq!(hash(Pixel { r: 10, g: 20, b: 30, a: 255 }), 9);
    assert_eq!(hash(Pixel { r: 0, g: 0, b: 0, a: 0 }), 0);
    assert_eq!(hash(Pixel { r: 5, g: 5, b: 5, a: 255 }), 0);
    assert_eq!(hash(Pixel { r: 255, g: 255, b: 255, a: 255 }), (26 * 255) % 64);
}

#[test]
fn cache_lookup_and_store() {
    let mut cache = PixelCache::new();
    let zero = Pixel { r: 0, g: 0, b: 0, a: 0 };
    let p = Pixel { r: 10, g: 20, b: 30, a: 255 };
    assert!(cache.lookup(zero));
    assert!(!cache.lookup(p));
    cache.store(p);
    assert!(cache.lookup(p));
    assert_eq!(cache.get(9), p);
    assert_eq!(cache.get(8), zero);
}

#[test]
fn two_equal_pixels_literal_then_run() {
    let data = vec![10, 20, 30, 255, 10, 20, 30, 255];
    let mut encoder = QOIEncoder::default();
    encoder.encode_pixels(&data, 2, 1, 4, 1).unwrap();
    assert_eq!(
        encoder.data(),
        &vec![
            QOIType::RGBA(QOITypeRGBA { r: 10, g: 20, b: 30, a: 255 }),
            QOIType::Run(QOITypeRun { run: 1 }),
        ]
    );
    let bytes = encode(&data, 2, 1, 4, 1).unwrap();
    let mut expected = header(2, 1, 4, 1);
    expected.extend_from_slice(&[255, 10, 20, 30, 255, 0xC0]);
    assert_eq!(bytes, expected);
    let (_, out) = decode(&bytes).unwrap();
    assert_eq!(out, data);
}

#[test]
fn single_transparent_black_pixel_is_literal_rgba() {
    let data = vec![0, 0, 0, 0];
    let mut encoder = QOIEncoder::default();
    encoder.encode_pixels(&data, 1, 1, 4, 0).unwrap();
    assert_eq!(encoder.data(), &vec![QOIType::RGBA(QOITypeRGBA { r: 0, g: 0, b: 0, a: 0 })]);
    let bytes = encode(&data, 1, 1, 4, 0).unwrap();
    assert_eq!(bytes, stream(1, 1, 4, &[255, 0, 0, 0, 0]));
    assert_eq!(decode(&bytes).unwrap().1, data);
}

#[test]
fn two_hundred_repeats_make_four_runs() {
    let mut data = Vec::new();
    for _ in 0..201 {
        data.extend_from_slice(&[1, 2, 3, 4]);
    }
    let mut encoder = QOIEncoder::default();
    encoder.encode_pixels(&data, 201, 1, 4, 0).unwrap();
    let runs: Vec<u8> = encoder
        .data()
        .iter()
        .filter_map(|c| match c {
            QOIType::Run(r) => Some(r.run),
            _ => None,
        })
        .collect();
    assert_eq!(runs.len(), (200 + 61) / 62);
    assert_eq!(runs, vec![62, 62, 62, 14]);
    assert_eq!(runs.iter().map(|&r| r as u32).sum::<u32>(), 200);
    assert!(runs.iter().all(|&r| (1..=62).contains(&r)));
    round_trip(&data, 201, 1, 4);
}

#[test]
fn diff_chunk_bytes() {
    let data = vec![10, 20, 30, 255, 11, 19, 30, 255];
    let bytes = encode(&data, 2, 1, 4, 0).unwrap();
    assert_eq!(bytes, stream(2, 1, 4, &[255, 10, 20, 30, 255, 107, 144]));
    assert_eq!(decode(&bytes).unwrap().1, data);
}

#[test]
fn luma_chunk_bytes() {
    let data = vec![10, 20, 30, 255, 20, 30, 40, 255];
    let bytes = encode(&data, 2, 1, 4, 0).unwrap();
    assert_eq!(bytes, stream(2, 1, 4, &[255, 10, 20, 30, 255, 170, 136]));
    assert_eq!(decode(&bytes).unwrap().1, data);
}

#[test]
fn rgb_and_rgba_literals() {
    let data = vec![10, 20, 30, 255, 100, 20, 30, 255, 100, 20, 30, 128];
    let bytes = encode(&data, 3, 1, 4, 0).unwrap();
    assert_eq!(
        bytes,
        stream(3, 1, 4, &[255, 10, 20, 30, 255, 254, 100, 20, 30, 255, 100, 20, 30, 128])
    );
    assert_eq!(decode(&bytes).unwrap().1, data);
}

#[test]
fn index_chunk_for_cached_pixel() {
    let data = vec![10, 20, 30, 255, 100, 20, 30, 255, 10, 20, 30, 255];
    let bytes = encode(&data, 3, 1, 4, 0).unwrap();
    assert_eq!(bytes, stream(3, 1, 4, &[255, 10, 20, 30, 255, 254, 100, 20, 30, 9]));
    assert_eq!(decode(&bytes).unwrap().1, data);
}

#[test]
fn transparent_black_hits_untouched_slot() {
    let data = vec![1, 1, 1, 255, 0, 0, 0, 0];
    let bytes = encode(&data, 2, 1, 4, 0).unwrap();
    assert_eq!(bytes, stream(2, 1, 4, &[255, 1, 1, 1, 255, 0]));
    assert_eq!(decode(&bytes).unwrap().1, data);
}

#[test]
fn three_channel_image() {
    let data = vec![1, 2, 3];
    let bytes = encode(&data, 1, 1, 3, 0).unwrap();
    assert_eq!(bytes, stream(1, 1, 3, &[254, 1, 2, 3]));
    round_trip(&data, 1, 1, 3);
    let data = vec![1, 2, 3, 1, 2, 3, 200, 0, 7, 201, 1, 8, 1, 2, 3];
    round_trip(&data, 5, 1, 3);
}

#[test]
fn round_trip_mixed_image() {
    let mut data = Vec::new();
    for y in 0u32..7 {
        for x in 0u32..9 {
            let v = (x * 37 + y * 11) as u8;
            let a = if (x + y) % 5 == 0 { 128 } else { 255 };
            data.extend_from_slice(&[v, v.wrapping_add((x % 3) as u8), (y * 40) as u8, a]);
        }
    }
    round_trip(&data, 9, 7, 4);
}

#[test]
fn encoding_is_deterministic() {
    let data = vec![9, 8, 7, 6, 9, 8, 7, 6, 1, 2, 3, 4, 200, 100, 50, 25];
    let a = encode(&data, 2, 2, 4, 0).unwrap();
    let b = encode(&data, 2, 2, 4, 0).unwrap();
    assert_eq!(a, b);
}

#[test]
fn header_fidelity() {
    let data = vec![0u8; 3 * 4 * 2];
    let bytes = encode(&data, 4, 2, 3, 1).unwrap();
    let h = decode_header(&bytes).unwrap();
    assert_eq!(h.magic, [b'q', b'o', b'i', b'f']);
    assert_eq!((h.width, h.height, h.channels, h.colorspace), (4, 2, 3, 1));
    let mut encoder = QOIEncoder::default();
    encoder.encode_pixels(&data, 4, 2, 3, 1).unwrap();
    assert_eq!(encoder.header().width, 4);
    assert_eq!(encoder.to_bytes(), bytes);
}

#[test]
fn encode_rejects_bad_shape() {
    assert_eq!(encode(&vec![0; 7], 2, 1, 4, 0), Err(QOIError::InvalidInput));
    assert_eq!(encode(&vec![0; 10], 2, 1, 5, 0), Err(QOIError::InvalidInput));
    assert_eq!(encode(&vec![], 0, 1, 4, 0), Err(QOIError::InvalidInput));
    assert_eq!(encode(&vec![], 1, 0, 3, 0), Err(QOIError::InvalidInput));
}

#[test]
fn decode_rejects_malformed_header() {
    assert_eq!(decode(&vec![b'q', b'o', b'i']).unwrap_err(), QOIError::MalformedHeader);
    let mut bad_magic = stream(1, 1, 4, &[255, 0, 0, 0, 0]);
    bad_magic[0] = b'x';
    assert_eq!(decode(&bad_magic).unwrap_err(), QOIError::MalformedHeader);
    assert_eq!(decode(&stream(0, 1, 4, &[])).unwrap_err(), QOIError::MalformedHeader);
    assert_eq!(decode(&stream(1, 0, 4, &[])).unwrap_err(), QOIError::MalformedHeader);
    assert_eq!(decode(&stream(1, 1, 2, &[254, 0, 0, 0])).unwrap_err(), QOIError::MalformedHeader);
    assert_eq!(decode_header(&stream(0, 1, 4, &[])).unwrap_err(), QOIError::MalformedHeader);
}

#[test]
fn decode_rejects_truncated_stream() {
    assert_eq!(decode(&stream(2, 1, 4, &[255, 1, 2, 3, 4])).unwrap_err(), QOIError::TruncatedStream);
    assert_eq!(decode(&stream(1, 1, 4, &[255, 1, 2])).unwrap_err(), QOIError::TruncatedStream);
    assert_eq!(decode(&stream(2, 1, 4, &[0x41])).unwrap_err(), QOIError::TruncatedStream);
}

#[test]
fn decode_ignores_trailing_bytes_and_cuts_runs() {
    let (_, out) = decode(&stream(1, 1, 4, &[255, 1, 2, 3, 4, 9, 9, 9])).unwrap();
    assert_eq!(out, vec![1, 2, 3, 4]);
    let (_, out) = decode(&stream(3, 1, 3, &[0xC0 | 9])).unwrap();
    assert_eq!(out, vec![0, 0, 0, 0, 0, 0, 0, 0, 0]);
}
