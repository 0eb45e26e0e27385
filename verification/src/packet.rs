//! The wire codec: decoding raw datagrams into typed packets.
//!
//! Frame layout (big-endian multi-byte fields):
//! byte 0 is the status byte (bit 0: 0 for Header, 1 for Data; bit 1: the
//! last-fragment flag, meaningful for Data only; all remaining bits are
//! reserved and must be zero), byte 1 is the file id, and the rest is the
//! variant body.  A Header's body is the file name in UTF-8; a Data's body
//! is the fragment number in bytes 2 and 3 followed by the payload.

use vstd::prelude::*;
use vstd::slice::{slice_subrange, slice_to_vec};
use vstd::utf8::{decode_utf8, valid_utf8};

use crate::errors::PacketParseError;

verus! {

/// Minimum length of a Header frame: status byte, file id, empty name.
pub const HEADER_PACKET_SIZE: usize = 3;

/// Minimum length of a Data frame: status byte, file id, fragment number.
pub const DATA_PACKET_SIZE: usize = 4;

/// A decoded datagram: either a transfer's name announcement or one
/// numbered fragment of its bytes.
#[derive(Debug)]
pub enum Packet {
    Header(Header),
    Data(Data),
}

/// Announces the logical name of the file transfer with this id.
#[derive(Debug, PartialEq)]
pub struct Header {
    pub file_id: u8,
    pub file_name: String,
}

/// One fragment of file content, with its zero-based position and a flag
/// marking the final fragment in sequence order.
#[derive(Debug, PartialEq)]
pub struct Data {
    pub file_id: u8,
    pub packet_number: u16,
    pub is_last_packet: bool,
    pub payload: Vec<u8>,
}

/// The ghost value of a packet: plain views of its fields.
pub enum PacketModel {
    Header { file_id: u8, file_name: Seq<char> },
    Data { file_id: u8, packet_number: u16, is_last_packet: bool, payload: Seq<u8> },
}

impl View for Packet {
    type V = PacketModel;

    open spec fn view(&self) -> PacketModel {
        match self {
            Packet::Header(h) => PacketModel::Header {
                file_id: h.file_id,
                file_name: h.file_name@,
            },
            Packet::Data(d) => PacketModel::Data {
                file_id: d.file_id,
                packet_number: d.packet_number,
                is_last_packet: d.is_last_packet,
                payload: d.payload@,
            },
        }
    }
}

/// The file id a packet carries, whichever variant it is.
pub open spec fn packet_file_id(p: PacketModel) -> u8 {
    match p {
        PacketModel::Header { file_id, .. } => file_id,
        PacketModel::Data { file_id, .. } => file_id,
    }
}

/// The name a Header packet announces (unused for a Data packet).
pub open spec fn header_name(p: PacketModel) -> Seq<char> {
    match p {
        PacketModel::Header { file_name, .. } => file_name,
        PacketModel::Data { .. } => Seq::empty(),
    }
}

/// The fragment number a Data packet carries (unused for a Header).
pub open spec fn data_number(p: PacketModel) -> u16 {
    match p {
        PacketModel::Data { packet_number, .. } => packet_number,
        PacketModel::Header { .. } => 0,
    }
}

/// The payload a Data packet carries (unused for a Header).
pub open spec fn data_payload(p: PacketModel) -> Seq<u8> {
    match p {
        PacketModel::Data { payload, .. } => payload,
        PacketModel::Header { .. } => Seq::empty(),
    }
}

/// Whether a packet is a Data packet flagged as the last fragment.
pub open spec fn is_last_data(p: PacketModel) -> bool {
    match p {
        PacketModel::Data { is_last_packet, .. } => is_last_packet,
        PacketModel::Header { .. } => false,
    }
}

/// What decoding a raw buffer yields: the typed packet, or the error the
/// validation rules assign to it.  Checks run in this order: minimum
/// length, reserved status bits, then the variant's own body rules.
pub open spec fn spec_decode(bytes: Seq<u8>) -> Result<PacketModel, PacketParseError> {
    if bytes.len() < HEADER_PACKET_SIZE {
        Err(PacketParseError::TooShort)
    } else if bytes[0] & 0xFC != 0 {
        Err(PacketParseError::InvalidPacketFormat)
    } else if bytes[0] & 0x01 == 0 {
        if valid_utf8(bytes.skip(2)) {
            Ok(PacketModel::Header { file_id: bytes[1], file_name: decode_utf8(bytes.skip(2)) })
        } else {
            Err(PacketParseError::InvalidPacketFormat)
        }
    } else if bytes.len() < DATA_PACKET_SIZE {
        Err(PacketParseError::TooShort)
    } else {
        Ok(PacketModel::Data {
            file_id: bytes[1],
            packet_number: ((bytes[2] as u16) * 256 + (bytes[3] as u16)) as u16,
            is_last_packet: bytes[0] & 0x02 != 0,
            payload: bytes.skip(4),
        })
    }
}

/// Relies on `String::from_utf8`: it returns the string decoded from the
/// given bytes exactly when they are valid UTF-8, and fails otherwise.
#[verifier::external_body]
fn vec_to_string(bytes: Vec<u8>) -> (r: Option<String>)
    ensures
        match r {
            Some(s) => valid_utf8(bytes@) && s@ == decode_utf8(bytes@),
            None => !valid_utf8(bytes@),
        },
{
    String::from_utf8(bytes).ok()
}

impl Packet {
    /// Decodes one raw datagram, dispatching on bit 0 of the status byte
    /// after the shared length and reserved-bit checks.
    pub fn try_from(value: &[u8]) -> (r: Result<Packet, PacketParseError>)
        ensures
            match r {
                Ok(p) => spec_decode(value@) is Ok && p@ == spec_decode(value@)->Ok_0,
                Err(e) => spec_decode(value@) == Err::<PacketModel, PacketParseError>(e),
            },
    {
        if value.len() < HEADER_PACKET_SIZE {
            return Err(PacketParseError::TooShort);
        }

        let status_byte = value[0];

        if status_byte & 0xFC != 0 {
            return Err(PacketParseError::InvalidPacketFormat);
        }

        if status_byte & 0x01 == 0 {
            match Header::try_from(value) {
                Ok(header) => Ok(Packet::Header(header)),
                Err(e) => Err(e),
            }
        } else {
            match Data::try_from(value) {
                Ok(data) => Ok(Packet::Data(data)),
                Err(e) => Err(e),
            }
        }
    }
}

impl Header {
    /// Decodes a Header frame body.  The status byte is not examined
    /// here; callers dispatch on it first.
    pub fn try_from(value: &[u8]) -> (r: Result<Header, PacketParseError>)
        ensures
            match r {
                Ok(h) => value@.len() >= HEADER_PACKET_SIZE && valid_utf8(value@.skip(2))
                    && h.file_id == value@[1] && h.file_name@ == decode_utf8(value@.skip(2)),
                Err(PacketParseError::TooShort) => value@.len() < HEADER_PACKET_SIZE,
                Err(PacketParseError::InvalidPacketFormat) => value@.len() >= HEADER_PACKET_SIZE
                    && !valid_utf8(value@.skip(2)),
            },
    {
        if value.len() < HEADER_PACKET_SIZE {
            return Err(PacketParseError::TooShort);
        }

        let file_id = value[1];
        let name_bytes = slice_to_vec(slice_subrange(value, 2, value.len()));
        match vec_to_string(name_bytes) {
            Some(file_name) => Ok(Header { file_id, file_name }),
            None => Err(PacketParseError::InvalidPacketFormat),
        }
    }
}

impl Data {
    /// Decodes a Data frame body.  The status byte's bit 1 is the
    /// last-fragment flag; no validation applies beyond the length, and
    /// an empty payload is a valid zero-byte fragment.
    pub fn try_from(value: &[u8]) -> (r: Result<Data, PacketParseError>)
        ensures
            match r {
                Ok(d) => value@.len() >= DATA_PACKET_SIZE && d.file_id == value@[1]
                    && d.packet_number == (value@[2] as u16) * 256 + (value@[3] as u16)
                    && d.is_last_packet == (value@[0] & 0x02 != 0) && d.payload@ == value@.skip(4),
                Err(PacketParseError::TooShort) => value@.len() < DATA_PACKET_SIZE,
                Err(PacketParseError::InvalidPacketFormat) => false,
            },
    {
        if value.len() < DATA_PACKET_SIZE {
            return Err(PacketParseError::TooShort);
        }

        let file_id = value[1];
        let packet_number = (value[2] as u16) * 256 + (value[3] as u16);
        let is_last_packet = value[0] & 0x02 != 0;
        let payload = slice_to_vec(slice_subrange(value, 4, value.len()));

        Ok(Data { file_id, packet_number, is_last_packet, payload })
    }
}

} // verus!
