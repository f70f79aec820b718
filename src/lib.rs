//! A software Ethernet switching core: link-layer addresses, zero-copy frames,
//! a port table keyed by address, the per-frame forwarding decision, and the
//! node-registration protocol that seeds the table from a directory service.

pub mod ether;
pub mod forward;
pub mod frame;
pub mod mac;
pub mod meta;
pub mod table;
