//! Encoder and decoder for packed batches of timestamped MIDI packets.
//!
//! A [`PacketBuffer`] appends timestamped events to a batch held in a
//! [`FixedStorage`] or a [`DynStorage`]; a [`PacketListRef`] reads a batch,
//! built here or handed in as bytes, back record by record.
pub mod devices;
pub mod layout;
pub mod packets;
pub mod render;
pub mod storage;

pub use devices::{status_result, DevicesIterator};
pub use layout::{LayoutPolicy, MAX_PAYLOAD};
pub use packets::{
    DynPacketBuffer, FixedPacketBuffer, PacketBuffer, PacketError, PacketListIterator,
    PacketListRef, PacketRef,
};
pub use storage::{DynStorage, FixedStorage, PacketBufferStorage};
