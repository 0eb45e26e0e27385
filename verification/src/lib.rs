//! Reassembles files delivered as an unordered stream of fixed-format
//! binary packets.
//!
//! A transfer arrives as datagrams, each decoding to either a `Header`
//! packet (carrying the file's name) or a `Data` packet (carrying one
//! numbered fragment of the file's bytes plus a last-fragment flag).
//! Fragments may arrive out of order or more than once; the expected
//! fragment count is inferred from the fragment flagged as last.  A
//! [`packet_group::PacketGroup`] accumulates the packets of one file id,
//! and a [`file_manager::FileManager`] routes packets to the group for
//! their id and reports when every transfer is complete.  The reassembled
//! bytes are produced in ascending fragment-number order, independent of
//! arrival order; persisting them is left to the caller.

pub mod errors;
pub mod file_manager;
pub mod packet;
pub mod packet_group;
