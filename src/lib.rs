pub mod value;
pub mod encode;
pub mod decode;
pub mod handshake;
pub mod text;
pub mod metainfo;
pub mod tracker;
pub mod round_trip;
