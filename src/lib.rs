//! Open Sound Control wire format: encoding packets to bytes and decoding
//! bytes back to packets, with the framing rules proved.
pub mod types;
pub mod encoder;
pub mod osc_decoder;
pub mod be;
pub mod laws;
