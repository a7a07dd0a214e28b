//! Client-side chunk synchronization for a streamed voxel world: the packet
//! codec, the chunk cache with its request/retry state machine, the
//! face-culling mesh builder, and the per-frame dispatch that ties them
//! together.

pub mod blocks;
pub mod bytes;
pub mod cache;
pub mod chunk;
pub mod client;
pub mod instance;
pub mod packet;
pub mod players;
