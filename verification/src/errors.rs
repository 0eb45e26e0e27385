//! Error types for packet decoding and file reassembly.

use vstd::prelude::*;
use vstd::string::StringExecFns;

verus! {

/// Ways a raw datagram can fail to decode into a packet.
#[derive(Debug)]
pub enum PacketParseError {
    /// The buffer is shorter than the minimum frame size.
    TooShort,
    /// A reserved status bit is set, or a header's name is not valid UTF-8.
    InvalidPacketFormat,
}

/// Declares `std::io::Error` so that the error enums below can carry one;
/// nothing is assumed about its values.
#[verifier::external_type_specification]
#[verifier::external_body]
pub struct ExIoError(std::io::Error);

/// Errors a receive session can surface: transport failures and
/// undecodable datagrams.
#[derive(Debug)]
pub enum ClientError {
    IoError(std::io::Error),
    PacketParseError(PacketParseError),
}

impl From<std::io::Error> for ClientError {
    fn from(e: std::io::Error) -> (r: Self) {
        ClientError::IoError(e)
    }
}

impl vstd::std_specs::convert::FromSpecImpl<std::io::Error> for ClientError {
    open spec fn obeys_from_spec() -> bool {
        true
    }

    open spec fn from_spec(e: std::io::Error) -> Self {
        ClientError::IoError(e)
    }
}

impl From<PacketParseError> for ClientError {
    fn from(e: PacketParseError) -> (r: Self) {
        ClientError::PacketParseError(e)
    }
}

impl vstd::std_specs::convert::FromSpecImpl<PacketParseError> for ClientError {
    open spec fn obeys_from_spec() -> bool {
        true
    }

    open spec fn from_spec(e: PacketParseError) -> Self {
        ClientError::PacketParseError(e)
    }
}

/// Ways finalizing a reassembly state can fail.
#[derive(Debug)]
pub enum PacketGroupError {
    /// The fragment with this number was never received; the lowest
    /// missing number is reported.
    MissingPacket(u16),
    /// Persisting an artifact failed; produced only by unverified callers
    /// that perform the actual writes.
    IoError(std::io::Error),
    /// No header packet has arrived, so the group has no file name.
    MissingFileName,
    /// No data packet flagged as last has arrived, so the expected
    /// fragment count is unknown (also reported when the recorded count
    /// exceeds what any last fragment's number could announce).
    MissingPacketCount,
}

/// The character of one decimal digit.
pub open spec fn digit_char(d: int) -> char {
    if d == 0 {
        '0'
    } else if d == 1 {
        '1'
    } else if d == 2 {
        '2'
    } else if d == 3 {
        '3'
    } else if d == 4 {
        '4'
    } else if d == 5 {
        '5'
    } else if d == 6 {
        '6'
    } else if d == 7 {
        '7'
    } else if d == 8 {
        '8'
    } else {
        '9'
    }
}

/// The decimal digits of `n`, most significant first.
pub open spec fn decimal_digits(n: int) -> Seq<char>
    recommends
        n >= 0,
    decreases n,
{
    if n < 10 {
        seq![digit_char(n)]
    } else {
        decimal_digits(n / 10).push(digit_char(n % 10))
    }
}

/// Appends the decimal digits of `n`.
fn push_decimal(out: &mut String, n: u16)
    ensures
        final(out)@ == old(out)@ + decimal_digits(n as int),
    decreases n,
{
    if n >= 10 {
        push_decimal(out, n / 10);
    }
    let d: u16 = n % 10;
    let digit: &str = if d == 0 {
        "0"
    } else if d == 1 {
        "1"
    } else if d == 2 {
        "2"
    } else if d == 3 {
        "3"
    } else if d == 4 {
        "4"
    } else if d == 5 {
        "5"
    } else if d == 6 {
        "6"
    } else if d == 7 {
        "7"
    } else if d == 8 {
        "8"
    } else {
        "9"
    };
    proof {
        reveal_strlit("0");
        reveal_strlit("1");
        reveal_strlit("2");
        reveal_strlit("3");
        reveal_strlit("4");
        reveal_strlit("5");
        reveal_strlit("6");
        reveal_strlit("7");
        reveal_strlit("8");
        reveal_strlit("9");
        assert(digit@ =~= seq![digit_char(d as int)]);
    }
    out.append(digit);
}

/// The display text of a finalization error; for `IoError` this is the
/// prefix that precedes the carried error's own rendering.
pub open spec fn spec_group_error_message(e: PacketGroupError) -> Seq<char> {
    match e {
        PacketGroupError::MissingPacket(n) => "Missing packet: "@ + decimal_digits(n as int),
        PacketGroupError::IoError(_) => "IO error: "@,
        PacketGroupError::MissingFileName => "Missing file name"@,
        PacketGroupError::MissingPacketCount => "Missing packet count"@,
    }
}

impl PacketGroupError {
    /// The error's display text, standing in for `Display`.  For
    /// `IoError` the prefix is followed by the carried error's own
    /// rendering, of which nothing can be stated, so the contract pins
    /// the prefix alone; every other variant's text is pinned exactly.
    pub fn message(&self) -> (r: String)
        ensures
            *self is IoError ==> spec_group_error_message(*self).is_prefix_of(r@),
            !(*self is IoError) ==> r@ == spec_group_error_message(*self),
    {
        match self {
            PacketGroupError::MissingPacket(packet_number) => {
                let mut s = String::from_str("Missing packet: ");
                push_decimal(&mut s, *packet_number);
                s
            }
            PacketGroupError::IoError(io_err) => {
                let mut s = String::from_str("IO error: ");
                let detail = io_err.to_string();
                s.append(detail.as_str());
                proof {
                    assert(s@.subrange(0, "IO error: "@.len() as int) =~= "IO error: "@);
                }
                s
            }
            PacketGroupError::MissingFileName => String::from_str("Missing file name"),
            PacketGroupError::MissingPacketCount => String::from_str("Missing packet count"),
        }
    }
}

impl From<std::io::Error> for PacketGroupError {
    fn from(err: std::io::Error) -> (r: Self) {
        PacketGroupError::IoError(err)
    }
}

impl vstd::std_specs::convert::FromSpecImpl<std::io::Error> for PacketGroupError {
    open spec fn obeys_from_spec() -> bool {
        true
    }

    open spec fn from_spec(err: std::io::Error) -> Self {
        PacketGroupError::IoError(err)
    }
}

} // verus!
