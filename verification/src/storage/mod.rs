//! Buffers and containers that the sockets are built on.
pub mod assembler;
pub mod packet_buffer;
pub mod packet_laws;
pub mod packet_rules;
pub mod packet_model;
pub mod ring_buffer;
pub mod slab;
pub mod slices;

pub use self::assembler::{Assembler, TooManyHolesError};
pub use self::packet_buffer::{PacketBuffer, PacketMetadata};
pub use self::ring_buffer::{Empty, Full, RingBuffer, RingView};
pub use self::slab::Slab;
