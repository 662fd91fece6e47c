//! Liveness packets: a ping and the pong that echoes it.
//!
//! A liveness datagram is sixteen bytes: the magic `TBDH`, one byte that
//! tells ping from pong, three reserved bytes, and a big-endian timestamp.

use vstd::prelude::*;
use crate::big_endian::{
    be_bytes,
    be_value,
    lemma_be_bytes_len,
    lemma_be_bytes_of_value,
    lemma_be_value_bound,
    lemma_be_value_of_bytes,
    lemma_radix_values,
    load_be,
    store_be,
};

verus! {

/// Length in bytes of a liveness datagram.
pub const HEALTHCHECK_LENGTH: usize = 16;

#[derive(Debug, Clone, Copy, PartialEq, Eq, Structural)]
pub enum HealthcheckKind {
    Ping,
    Pong,
}

#[derive(Debug, Clone, Copy, PartialEq, Eq, Structural)]
pub struct HealthcheckPacket {
    pub kind: HealthcheckKind,
    /// Set by the sender of a ping; a pong repeats it unchanged.
    pub timestamp_nanos: u64,
}

#[derive(Debug, Clone, Copy, PartialEq, Eq, Structural)]
pub enum HealthcheckError {
    BufferTooSmall,
    InvalidMagic,
    InvalidKind,
}

/// The four bytes that open every liveness datagram: ASCII `TBDH`.
pub open spec fn magic() -> Seq<u8> {
    seq![0x54u8, 0x42u8, 0x44u8, 0x48u8]
}

impl HealthcheckKind {
    /// The byte that stands for this kind on the wire.
    pub open spec fn wire_byte(self) -> u8 {
        match self {
            HealthcheckKind::Ping => 1,
            HealthcheckKind::Pong => 2,
        }
    }
}

/// Whether `buffer` opens with the magic.
fn starts_with_magic(buffer: &[u8]) -> (found: bool)
    requires
        buffer@.len() >= 4,
    ensures
        found == (buffer@.subrange(0, 4) == magic()),
{
    let found = buffer[0] == 0x54 && buffer[1] == 0x42 && buffer[2] == 0x44 && buffer[3] == 0x48;
    proof {
        let head = buffer@.subrange(0, 4);
        if found {
            assert(head =~= magic());
        } else {
            assert(head[0] == buffer@[0] && head[1] == buffer@[1] && head[2] == buffer@[2]
                && head[3] == buffer@[3]);
            assert(magic()[0] == 0x54 && magic()[1] == 0x42 && magic()[2] == 0x44 && magic()[3]
                == 0x48);
        }
    }
    found
}

impl HealthcheckPacket {
    /// The sixteen bytes that carry this packet; the reserved bytes are zero.
    pub open spec fn wire_bytes(self) -> Seq<u8> {
        magic() + seq![self.kind.wire_byte(), 0u8, 0u8, 0u8] + be_bytes(
            self.timestamp_nanos as nat,
            8,
        )
    }

    /// What a receiver makes of `bytes`: the checks in the order in which
    /// they are made, then the packet. The reserved bytes and anything past
    /// the sixteenth byte are not looked at.
    pub open spec fn decoded(bytes: Seq<u8>) -> Result<Self, HealthcheckError> {
        if bytes.len() < HEALTHCHECK_LENGTH {
            Err(HealthcheckError::BufferTooSmall)
        } else if bytes.subrange(0, 4) != magic() {
            Err(HealthcheckError::InvalidMagic)
        } else if bytes[4] == 1 {
            Ok(
                HealthcheckPacket {
                    kind: HealthcheckKind::Ping,
                    timestamp_nanos: be_value(bytes.subrange(8, 16)) as u64,
                },
            )
        } else if bytes[4] == 2 {
            Ok(
                HealthcheckPacket {
                    kind: HealthcheckKind::Pong,
                    timestamp_nanos: be_value(bytes.subrange(8, 16)) as u64,
                },
            )
        } else {
            Err(HealthcheckError::InvalidKind)
        }
    }

    /// Lays the packet out as the sixteen bytes that carry it.
    pub fn encode(self) -> (buffer: [u8; 16])
        ensures
            buffer@ == self.wire_bytes(),
    {
        let mut buffer = [0u8; 16];
        buffer[0] = 0x54;
        buffer[1] = 0x42;
        buffer[2] = 0x44;
        buffer[3] = 0x48;
        buffer[4] = match self.kind {
            HealthcheckKind::Ping => 1,
            HealthcheckKind::Pong => 2,
        };
        store_be(&mut buffer, 8, 8, self.timestamp_nanos);
        proof {
            lemma_be_bytes_len(self.timestamp_nanos as nat, 8);
            assert(buffer@ =~= self.wire_bytes());
        }
        buffer
    }

    /// Reads a packet from the first sixteen bytes of `buffer`, or says why
    /// they are none.
    pub fn decode(buffer: &[u8]) -> (result: Result<Self, HealthcheckError>)
        ensures
            result == Self::decoded(buffer@),
    {
        if buffer.len() < HEALTHCHECK_LENGTH {
            return Err(HealthcheckError::BufferTooSmall);
        }
        if !starts_with_magic(buffer) {
            return Err(HealthcheckError::InvalidMagic);
        }
        let kind = match buffer[4] {
            1 => HealthcheckKind::Ping,
            2 => HealthcheckKind::Pong,
            _ => {
                return Err(HealthcheckError::InvalidKind);
            },
        };
        let timestamp_nanos = load_be(buffer, 8, 8);
        proof {
            lemma_radix_values();
            lemma_be_value_bound(buffer@.subrange(8, 16));
        }
        Ok(Self { kind, timestamp_nanos })
    }

    /// Tells a liveness datagram from a video datagram by its length and its
    /// first four bytes.
    pub fn is_healthcheck_packet(buffer: &[u8]) -> (found: bool)
        ensures
            found == (buffer@.len() >= HEALTHCHECK_LENGTH && buffer@.subrange(0, 4) == magic()),
    {
        buffer.len() >= HEALTHCHECK_LENGTH && starts_with_magic(buffer)
    }

    /// What a listener sends back: to a ping, the pong with the ping's
    /// timestamp; to anything else, nothing.
    pub open spec fn answer(bytes: Seq<u8>) -> Option<Seq<u8>> {
        match Self::decoded(bytes) {
            Ok(packet) => if packet.kind == HealthcheckKind::Ping {
                Some(
                    (HealthcheckPacket {
                        kind: HealthcheckKind::Pong,
                        timestamp_nanos: packet.timestamp_nanos,
                    }).wire_bytes(),
                )
            } else {
                None
            },
            Err(_) => None,
        }
    }

    /// The datagram to answer `datagram` with, if it is to be answered.
    pub fn pong_for(datagram: &[u8]) -> (reply: Option<[u8; 16]>)
        ensures
            match Self::answer(datagram@) {
                Some(bytes) => reply is Some && reply->Some_0@ == bytes,
                None => reply is None,
            },
    {
        match Self::decode(datagram) {
            Ok(packet) => {
                if packet.kind == HealthcheckKind::Ping {
                    let response = HealthcheckPacket {
                        kind: HealthcheckKind::Pong,
                        timestamp_nanos: packet.timestamp_nanos,
                    };
                    Some(response.encode())
                } else {
                    None
                }
            },
            Err(_) => None,
        }
    }

    /// How long the round trip took that `datagram` ends, in nanoseconds:
    /// the time from the timestamp that a pong echoes to `now_nanos`, or zero
    /// where the timestamp lies after `now_nanos`. Anything but a pong ends
    /// no round trip.
    pub open spec fn round_trip(bytes: Seq<u8>, now_nanos: u64) -> Option<u64> {
        match Self::decoded(bytes) {
            Ok(packet) => if packet.kind == HealthcheckKind::Pong {
                Some(
                    if now_nanos >= packet.timestamp_nanos {
                        (now_nanos - packet.timestamp_nanos) as u64
                    } else {
                        0u64
                    },
                )
            } else {
                None
            },
            Err(_) => None,
        }
    }

    /// Measures the round trip that `datagram` ends, if it ends one.
    pub fn round_trip_nanos(datagram: &[u8], now_nanos: u64) -> (elapsed: Option<u64>)
        ensures
            elapsed == Self::round_trip(datagram@, now_nanos),
    {
        match Self::decode(datagram) {
            Ok(packet) => {
                if packet.kind == HealthcheckKind::Pong {
                    Some(now_nanos.saturating_sub(packet.timestamp_nanos))
                } else {
                    None
                }
            },
            Err(_) => None,
        }
    }

    /// A round trip ends where it began: the pong that answers a ping sent
    /// at `sent_nanos` measures, at `now_nanos`, the time since `sent_nanos`.
    pub proof fn lemma_ping_pong(sent_nanos: u64, now_nanos: u64)
        requires
            sent_nanos <= now_nanos,
        ensures
            ({
                let ping = HealthcheckPacket {
                    kind: HealthcheckKind::Ping,
                    timestamp_nanos: sent_nanos,
                };
                &&& Self::answer(ping.wire_bytes()) is Some
                &&& Self::round_trip(Self::answer(ping.wire_bytes())->Some_0, now_nanos) == Some(
                    (now_nanos - sent_nanos) as u64,
                )
                &&& Self::answer(Self::answer(ping.wire_bytes())->Some_0) is None
            }),
    {
        let ping = HealthcheckPacket { kind: HealthcheckKind::Ping, timestamp_nanos: sent_nanos };
        let pong = HealthcheckPacket { kind: HealthcheckKind::Pong, timestamp_nanos: sent_nanos };
        ping.lemma_decode_of_encode();
        pong.lemma_decode_of_encode();
    }

    /// Decoding an encoded packet gives the packet back, ping or pong.
    pub proof fn lemma_decode_of_encode(self)
        ensures
            self.wire_bytes().len() == HEALTHCHECK_LENGTH,
            Self::decoded(self.wire_bytes()) == Ok::<Self, HealthcheckError>(self),
    {
        let bytes = self.wire_bytes();
        lemma_be_bytes_len(self.timestamp_nanos as nat, 8);
        lemma_radix_values();
        lemma_be_value_of_bytes(self.timestamp_nanos as nat, 8);
        assert(bytes.subrange(0, 4) =~= magic());
        assert(bytes.subrange(8, 16) =~= be_bytes(self.timestamp_nanos as nat, 8));
        assert(bytes[4] == self.kind.wire_byte());
    }

    /// A datagram of sixteen bytes whose reserved bytes are zero is the
    /// encoding of the packet that it decodes to.
    pub proof fn lemma_encode_of_decode(bytes: Seq<u8>)
        requires
            bytes.len() == HEALTHCHECK_LENGTH,
            bytes[5] == 0 && bytes[6] == 0 && bytes[7] == 0,
            Self::decoded(bytes) is Ok,
        ensures
            Self::decoded(bytes)->Ok_0.wire_bytes() == bytes,
    {
        let packet = Self::decoded(bytes)->Ok_0;
        lemma_radix_values();
        lemma_be_value_bound(bytes.subrange(8, 16));
        lemma_be_bytes_of_value(bytes.subrange(8, 16));
        assert(bytes.subrange(0, 4) == magic());
        assert(packet.wire_bytes() =~= bytes) by {
            assert forall|i: int| 0 <= i < 16 implies packet.wire_bytes()[i] == bytes[i] by {
                if i < 4 {
                    assert(bytes.subrange(0, 4)[i] == bytes[i]);
                } else if i >= 8 {
                    assert(bytes.subrange(8, 16)[i - 8] == bytes[i]);
                }
            }
        }
    }

    /// A datagram with the wrong magic is rejected, whatever else it holds,
    /// and so is one whose kind byte is neither ping nor pong.
    pub proof fn lemma_rejects(bytes: Seq<u8>)
        requires
            bytes.len() >= HEALTHCHECK_LENGTH,
        ensures
            bytes.subrange(0, 4) != magic() ==> Self::decoded(bytes) == Err::<
                Self,
                HealthcheckError,
            >(HealthcheckError::InvalidMagic),
            bytes.subrange(0, 4) == magic() && bytes[4] != 1 && bytes[4] != 2 ==> Self::decoded(
                bytes,
            ) == Err::<Self, HealthcheckError>(HealthcheckError::InvalidKind),
    {
    }
}

} // verus!
