//! Core of an entity-component game server: entity identities and component sets, shards of
//! entities with the same components, transaction contexts and the game state they are applied
//! to, a message bus, pools, locks, and the framing and buffering of the network layer.

pub mod sentinel;
pub mod identity;
pub mod pool;
pub mod networking;
pub mod messagebus;
pub mod net;
pub mod sync;
pub mod index;
pub mod shard;
pub mod world;
pub mod transaction;
pub mod sysdef;
pub mod registry;
pub mod system;
mod keyset;
pub mod column;
