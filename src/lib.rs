//! Server-side state engine for a chunked voxel world: spatial addressing,
//! packed chunk storage, regions and the operations applied to them, the
//! snapshot and wire codecs, and the per-session decisions of the fan-out.

pub mod chunk;
pub mod codec;
pub mod consts;
pub mod entity;
pub mod laws;
pub mod net;
pub mod packed;
pub mod position;
pub mod region;
pub mod session;
pub mod table;
pub mod world;
