//! A lossless image codec in the "quite OK" style: a flat RGB or RGBA byte
//! buffer becomes a fixed header followed by a stream of self-delimiting
//! chunks, and back.
//!
//! Every executable function is verified against a mathematical model: the
//! encoder against a pixel-by-pixel classification machine, the decoder
//! against a chunk-by-chunk replay of the stream, and the two are tied
//! together by the laws in `laws`.

pub mod pixel;
pub mod qoi_types;
pub mod qoi_encode;
pub mod qoi_decode;
pub mod laws;

pub use pixel::{hash, Pixel, PixelCache};
pub use qoi_types::{
    QOIError, QOIHeader, QOIType, QOITypeDiff, QOITypeIndex, QOITypeLuma, QOITypeRGB,
    QOITypeRGBA, QOITypeRun,
};
pub use qoi_encode::{encode, QOIEncoder};
pub use qoi_decode::{decode, decode_header};



