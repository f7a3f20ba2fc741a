//! Timestamps: the extension that the wire format reserves under type code -1.

use vstd::prelude::*;
use crate::bytes::{be32, be64, get_u32, get_u64, put_u32, put_u64, u32_at, u64_at};
use crate::codes::TIMESTAMP_TYPE;
use crate::decode::{decode_ext, parse_ext};
use crate::error::{DecodeError, EncodeError};
use crate::ext::{encode_ext, ext_wire};
use crate::numeral::{decimal, format_integer, integer_text};
use crate::value::{members_of, Doc, Value};

verus! {

/// A point in time: seconds since the epoch, and nanoseconds within the
/// second.
#[derive(Debug, Clone, Copy, PartialEq, Eq, Structural)]
pub struct Timestamp {
    pub seconds: i64,
    pub nanoseconds: u32,
}

/// The nanoseconds that a second holds.
pub const NANOS_PER_SECOND: u32 = 1_000_000_000;

/// The 64-bit pattern of a signed number, in two's complement.
pub open spec fn unsigned64(n: int) -> u64
    recommends
        -0x8000_0000_0000_0000 <= n <= 0x7fff_ffff_ffff_ffff,
{
    if n < 0 {
        (n + 0x1_0000_0000_0000_0000) as u64
    } else {
        n as u64
    }
}

/// The signed number that a 64-bit pattern stands for, in two's complement.
pub open spec fn signed64(v: u64) -> int {
    if v >= 0x8000_0000_0000_0000 {
        v - 0x1_0000_0000_0000_0000
    } else {
        v as int
    }
}

/// The payload of a timestamp, in the shortest of the three forms that
/// holds it: four bytes of seconds where there are no nanoseconds and the
/// seconds fit 32 bits unsigned; eight bytes, nanoseconds above 34 bits of
/// seconds, where the seconds fit those; else four bytes of nanoseconds and
/// eight of signed seconds.
pub open spec fn timestamp_payload(seconds: int, nanos: nat) -> Seq<u8>
    recommends
        -0x8000_0000_0000_0000 <= seconds <= 0x7fff_ffff_ffff_ffff,
        nanos < 1_000_000_000,
{
    if nanos == 0 && 0 <= seconds <= 0xffff_ffff {
        be32(seconds as u32)
    } else if 0 <= seconds < 0x4_0000_0000 {
        be64((nanos * 0x4_0000_0000 + seconds) as u64)
    } else {
        be32(nanos as u32) + be64(unsigned64(seconds))
    }
}

/// The wire form of a timestamp.
pub open spec fn timestamp_wire(seconds: int, nanos: nat) -> Seq<u8> {
    ext_wire(-1, timestamp_payload(seconds, nanos))
}

/// The seconds and nanoseconds that a payload holds, where it has one of
/// the three lengths and its nanoseconds are less than a second.
pub open spec fn read_timestamp(data: Seq<u8>) -> Option<(int, nat)> {
    if data.len() == 4 {
        Some((u32_at(data, 0) as int, 0nat))
    } else if data.len() == 8 {
        let packed = u64_at(data, 0);
        let nanos = (packed / 0x4_0000_0000) as nat;
        if nanos < 1_000_000_000 {
            Some(((packed % 0x4_0000_0000) as int, nanos))
        } else {
            None
        }
    } else if data.len() == 12 {
        let nanos = u32_at(data, 0) as nat;
        if nanos < 1_000_000_000 {
            Some((signed64(u64_at(data, 4)), nanos))
        } else {
            None
        }
    } else {
        None
    }
}

/// A timestamp as a value tree: the object of its seconds and nanoseconds.
pub open spec fn timestamp_doc(seconds: int, nanos: nat) -> Doc {
    Doc::Object(
        seq![
            ("seconds"@, Doc::Number(integer_text(seconds))),
            ("nanoseconds"@, Doc::Number(decimal(nanos))),
        ],
    )
}

impl Timestamp {
    /// The nanoseconds are less than a second.
    pub open spec fn valid(self) -> bool {
        self.nanoseconds < 1_000_000_000
    }

    /// Tests whether the nanoseconds are less than a second.
    pub fn is_valid(&self) -> (b: bool)
        ensures
            b == self.valid(),
    {
        self.nanoseconds < NANOS_PER_SECOND
    }
}

/// The payload of a timestamp.
fn payload_of(ts: &Timestamp) -> (payload: Vec<u8>)
    requires
        ts.valid(),
    ensures
        payload@ == timestamp_payload(ts.seconds as int, ts.nanoseconds as nat),
{
    let mut payload: Vec<u8> = Vec::new();
    if ts.nanoseconds == 0 && ts.seconds >= 0 && ts.seconds <= 0xffff_ffff {
        put_u32(&mut payload, ts.seconds as u32);
    } else if ts.seconds >= 0 && ts.seconds < 0x4_0000_0000 {
        put_u64(&mut payload, (ts.nanoseconds as u64) * 0x4_0000_0000 + (ts.seconds as u64));
    } else {
        put_u32(&mut payload, ts.nanoseconds);
        let pattern: u64 = if ts.seconds < 0 {
            ((ts.seconds as i128) + 0x1_0000_0000_0000_0000) as u64
        } else {
            ts.seconds as u64
        };
        put_u64(&mut payload, pattern);
    }
    assert(payload@ =~= timestamp_payload(ts.seconds as int, ts.nanoseconds as nat));
    payload
}

/// The timestamp that a payload holds, where it holds one.
pub fn timestamp_from_payload(data: &[u8]) -> (r: Option<Timestamp>)
    ensures
        match r {
            Some(ts) => ts.valid() && read_timestamp(data@) == Some(
                (ts.seconds as int, ts.nanoseconds as nat),
            ),
            None => read_timestamp(data@) is None,
        },
{
    if data.len() == 4 {
        match get_u32(data, 0) {
            Ok(seconds) => Some(Timestamp { seconds: seconds as i64, nanoseconds: 0 }),
            Err(_) => None,
        }
    } else if data.len() == 8 {
        match get_u64(data, 0) {
            Ok(packed) => {
                let nanos = packed / 0x4_0000_0000;
                if nanos < 1_000_000_000 {
                    Some(
                        Timestamp {
                            seconds: (packed % 0x4_0000_0000) as i64,
                            nanoseconds: nanos as u32,
                        },
                    )
                } else {
                    None
                }
            },
            Err(_) => None,
        }
    } else if data.len() == 12 {
        match (get_u32(data, 0), get_u64(data, 4)) {
            (Ok(nanos), Ok(pattern)) => {
                if nanos < 1_000_000_000 {
                    let seconds: i64 = if pattern >= 0x8000_0000_0000_0000 {
                        ((pattern as i128) - 0x1_0000_0000_0000_0000) as i64
                    } else {
                        pattern as i64
                    };
                    Some(Timestamp { seconds, nanoseconds: nanos })
                } else {
                    None
                }
            },
            _ => None,
        }
    } else {
        None
    }
}

/// Appends a timestamp in the shortest of its three forms, unless its
/// nanoseconds are a second or more: no form holds those.
pub fn encode_timestamp(out: &mut Vec<u8>, ts: &Timestamp) -> (r: Result<(), EncodeError>)
    ensures
        ts.valid() ==> r is Ok && final(out)@ == old(out)@ + timestamp_wire(
            ts.seconds as int,
            ts.nanoseconds as nat,
        ),
        !ts.valid() ==> r == Err::<(), EncodeError>(EncodeError::ValueTooLarge) && final(out)@
            == old(out)@,
{
    if !ts.is_valid() {
        return Err(EncodeError::ValueTooLarge);
    }
    let payload = payload_of(ts);
    encode_ext(out, TIMESTAMP_TYPE, payload.as_slice())
}

/// The object that stands for a timestamp.
pub fn timestamp_value(ts: &Timestamp) -> (v: Value)
    ensures
        v@ == timestamp_doc(ts.seconds as int, ts.nanoseconds as nat),
{
    let mut members: Vec<(String, Value)> = Vec::new();
    members.push(("seconds".to_string(), Value::Number(format_integer(ts.seconds as i128))));
    members.push(
        ("nanoseconds".to_string(), Value::Number(format_integer(ts.nanoseconds as i128))),
    );
    assert(members_of(members@) =~= timestamp_doc(
        ts.seconds as int,
        ts.nanoseconds as nat,
    )->Object_0);
    Value::Object(members)
}

/// The timestamp item at `pos`: its seconds and nanoseconds and the
/// position behind it. An extension item of another type, or one whose
/// payload holds no timestamp, is no timestamp item.
pub open spec fn parse_timestamp(bytes: Seq<u8>, pos: int) -> Result<
    ((int, nat), int),
    DecodeError,
> {
    match parse_ext(bytes, pos) {
        Err(e) => Err(e),
        Ok(((code, data), next)) => if code == -1 {
            match read_timestamp(data) {
                Some(stamp) => Ok((stamp, next)),
                None => Err(DecodeError::InvalidTypeTag),
            }
        } else {
            Err(DecodeError::InvalidTypeTag)
        },
    }
}

/// Decodes the timestamp item at `pos`.
pub fn decode_timestamp(buf: &[u8], pos: usize) -> (r: Result<(Timestamp, usize), DecodeError>)
    ensures
        match r {
            Ok((ts, next)) => ts.valid() && parse_timestamp(buf@, pos as int) == Ok::<
                ((int, nat), int),
                DecodeError,
            >(((ts.seconds as int, ts.nanoseconds as nat), next as int)),
            Err(e) => parse_timestamp(buf@, pos as int) == Err::<((int, nat), int), DecodeError>(
                e,
            ),
        },
{
    match decode_ext(buf, pos) {
        Err(e) => Err(e),
        Ok((ext, next)) => {
            if ext.code != TIMESTAMP_TYPE {
                return Err(DecodeError::InvalidTypeTag);
            }
            match timestamp_from_payload(ext.data.as_slice()) {
                Some(ts) => Ok((ts, next)),
                None => Err(DecodeError::InvalidTypeTag),
            }
        },
    }
}

/// Timestamp round trip: decoding the wire form of a timestamp gives the
/// timestamp back.
pub proof fn law_timestamp_wire_round_trip(seconds: int, nanos: nat, bytes: Seq<u8>, pos: int)
    requires
        -0x8000_0000_0000_0000 <= seconds <= 0x7fff_ffff_ffff_ffff,
        nanos < 1_000_000_000,
        crate::bytes::occurs_at(bytes, pos, timestamp_wire(seconds, nanos)),
    ensures
        parse_timestamp(bytes, pos) == Ok::<((int, nat), int), DecodeError>(
            ((seconds, nanos), pos + timestamp_wire(seconds, nanos).len()),
        ),
{
    law_timestamp_form(seconds, nanos);
    law_timestamp_round_trip(seconds, nanos);
    crate::round_trip::law_ext_round_trip(-1, timestamp_payload(seconds, nanos), bytes, pos);
}

/// The length of a timestamp's payload says which form was chosen: four
/// bytes exactly where there are no nanoseconds and the seconds fit 32 bits
/// unsigned; with nanoseconds, or with larger seconds, eight bytes where
/// the seconds fit 34 bits unsigned, twelve where they do not.
pub proof fn law_timestamp_form(seconds: int, nanos: nat)
    requires
        -0x8000_0000_0000_0000 <= seconds <= 0x7fff_ffff_ffff_ffff,
        nanos < 1_000_000_000,
    ensures
        timestamp_payload(seconds, nanos).len() == (if nanos == 0 && 0 <= seconds
            <= 0xffff_ffff {
            4nat
        } else if 0 <= seconds < 0x4_0000_0000 {
            8nat
        } else {
            12nat
        }),
{
}

/// Reading the payload of a timestamp gives the timestamp back.
pub proof fn law_timestamp_round_trip(seconds: int, nanos: nat)
    requires
        -0x8000_0000_0000_0000 <= seconds <= 0x7fff_ffff_ffff_ffff,
        nanos < 1_000_000_000,
    ensures
        read_timestamp(timestamp_payload(seconds, nanos)) == Some((seconds, nanos)),
{
    let data = timestamp_payload(seconds, nanos);
    if nanos == 0 && 0 <= seconds <= 0xffff_ffff {
        assert(data.len() == 4);
        assert(data.subrange(0, 4) =~= data);
        crate::bytes::law_be32_round_trip(data, 0, seconds as u32);
    } else if 0 <= seconds < 0x4_0000_0000 {
        let packed = (nanos * 0x4_0000_0000 + seconds) as u64;
        assert(data.len() == 8);
        assert(data.subrange(0, 8) =~= data);
        crate::bytes::law_be64_round_trip(data, 0, packed);
        assert(u64_at(data, 0) == packed);
        assert(packed / 0x4_0000_0000 == nanos && packed % 0x4_0000_0000 == seconds);
    } else {
        let pattern = unsigned64(seconds);
        assert(data.len() == 12);
        assert(data.subrange(0, 4) =~= be32(nanos as u32));
        assert(data.subrange(4, 12) =~= be64(pattern));
        crate::bytes::law_be32_round_trip(data, 0, nanos as u32);
        crate::bytes::law_be64_round_trip(data, 4, pattern);
        assert(u32_at(data, 0) == nanos);
        assert(u64_at(data, 4) == pattern);
        assert(signed64(pattern) == seconds);
    }
}

} // verus!
