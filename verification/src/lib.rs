//! The PRISM image format: container, lossless raster payload, resolution
//! independent vector payload, reconstruction scaler and encryption wrapper.

pub mod error;
pub mod crc;
pub mod pixel;
pub mod tile;
pub mod le;
pub mod raster;
pub mod varint;
pub mod vector;
pub mod container;
pub mod reconstruct;
pub mod render;
pub mod crypto;
pub mod preview;
pub mod corpus;
pub mod viewer;
pub mod bench;

pub use error::Error;
pub use pixel::Rgba;

pub use container::{
    decode_file, decode_payload, encode_file, encode_vector_file, FilePayload, Header, Image,
    PayloadKind,
};
