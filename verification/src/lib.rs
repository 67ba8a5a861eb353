//! An LZ77-family byte compression engine: a single forward pass turns raw
//! bytes into a stream of literal and back-reference tokens, and a validating
//! replay pass rebuilds the bytes, rejecting corrupt or oversized streams.

pub mod lz77;
pub mod matchmap;
