//! The DNS message header: twelve octets holding the transaction id, the
//! packed flag fields, and the four section counts, in network byte order.

use vstd::prelude::*;
use crate::serialization::{spec_u16_bytes, spec_u16_of, push_u16, read_u16, FromBytes, ToBytes};

verus! {

/// A resource-record type code. An unsupported code decodes to `Unused`,
/// which carries it, so the record re-encodes with the code it arrived
/// with.
#[derive(Debug, PartialEq, Eq, Structural, Hash, Clone, Copy)]
pub enum ResourceType {
    A,
    NS,
    CName,
    StartOfAuthority,
    MX,
    AAAA,
    Unused(u16),
}

impl ResourceType {
    /// The wire code of this record type; `Unused` is written as the code
    /// it carries.
    pub open spec fn spec_u16(self) -> u16 {
        match self {
            ResourceType::A => 1,
            ResourceType::NS => 2,
            ResourceType::CName => 5,
            ResourceType::StartOfAuthority => 6,
            ResourceType::MX => 15,
            ResourceType::AAAA => 28,
            ResourceType::Unused(c) => c,
        }
    }

    /// The record type a wire code names; codes outside the supported set
    /// fall back to `Unused`.
    pub open spec fn spec_from_u16(v: u16) -> ResourceType {
        if v == 1 {
            ResourceType::A
        } else if v == 2 {
            ResourceType::NS
        } else if v == 5 {
            ResourceType::CName
        } else if v == 6 {
            ResourceType::StartOfAuthority
        } else if v == 15 {
            ResourceType::MX
        } else if v == 28 {
            ResourceType::AAAA
        } else {
            ResourceType::Unused(v)
        }
    }

    /// The type writes back as the code it decodes from.
    pub open spec fn spec_canonical(self) -> bool {
        ResourceType::spec_from_u16(self.spec_u16()) == self
    }

    pub fn as_u16(&self) -> (r: u16)
        ensures
            r == self.spec_u16(),
    {
        match self {
            ResourceType::A => 1,
            ResourceType::NS => 2,
            ResourceType::CName => 5,
            ResourceType::StartOfAuthority => 6,
            ResourceType::MX => 15,
            ResourceType::AAAA => 28,
            ResourceType::Unused(c) => *c,
        }
    }

    pub fn from_u16(v: u16) -> (r: ResourceType)
        ensures
            r == Self::spec_from_u16(v),
    {
        if v == 1 {
            ResourceType::A
        } else if v == 2 {
            ResourceType::NS
        } else if v == 5 {
            ResourceType::CName
        } else if v == 6 {
            ResourceType::StartOfAuthority
        } else if v == 15 {
            ResourceType::MX
        } else if v == 28 {
            ResourceType::AAAA
        } else {
            ResourceType::Unused(v)
        }
    }
}

/// A response code. Codes past `Refused` have no enumerant and decode to
/// `FormatError` as a catch-all.
#[derive(Debug, PartialEq, Eq, Structural, Hash, Clone, Copy)]
pub enum ResponseCode {
    NoError,
    FormatError,
    ServerError,
    NameError,
    NotImplemented,
    Refused,
}

impl ResponseCode {
    /// The wire value of this response code.
    pub open spec fn spec_u8(self) -> u8 {
        match self {
            ResponseCode::NoError => 0,
            ResponseCode::FormatError => 1,
            ResponseCode::ServerError => 2,
            ResponseCode::NameError => 3,
            ResponseCode::NotImplemented => 4,
            ResponseCode::Refused => 5,
        }
    }

    /// The response code a wire value names; values past `Refused` fall
    /// back to `FormatError`.
    pub open spec fn spec_from_u8(v: u8) -> ResponseCode {
        if v == 0 {
            ResponseCode::NoError
        } else if v == 1 {
            ResponseCode::FormatError
        } else if v == 2 {
            ResponseCode::ServerError
        } else if v == 3 {
            ResponseCode::NameError
        } else if v == 4 {
            ResponseCode::NotImplemented
        } else if v == 5 {
            ResponseCode::Refused
        } else {
            ResponseCode::FormatError
        }
    }

    pub fn to_u8(&self) -> (r: u8)
        ensures
            r == self.spec_u8(),
    {
        match self {
            ResponseCode::NoError => 0,
            ResponseCode::FormatError => 1,
            ResponseCode::ServerError => 2,
            ResponseCode::NameError => 3,
            ResponseCode::NotImplemented => 4,
            ResponseCode::Refused => 5,
        }
    }

    pub fn from_u8(v: u8) -> (r: ResponseCode)
        ensures
            r == Self::spec_from_u8(v),
    {
        if v == 0 {
            ResponseCode::NoError
        } else if v == 1 {
            ResponseCode::FormatError
        } else if v == 2 {
            ResponseCode::ServerError
        } else if v == 3 {
            ResponseCode::NameError
        } else if v == 4 {
            ResponseCode::NotImplemented
        } else if v == 5 {
            ResponseCode::Refused
        } else {
            ResponseCode::FormatError
        }
    }
}

impl ToBytes for ResponseCode {
    fn to_bytes(&self) -> (r: Vec<u8>)
        ensures
            r@ == seq![self.spec_u8()],
    {
        let mut v: Vec<u8> = Vec::new();
        v.push(self.to_u8());
        proof {
            assert(v@ =~= seq![self.spec_u8()]);
        }
        v
    }
}

/// The decoded header. `opcode` carries four wire bits and `z` three; stored
/// values outside those widths are masked when written back.
#[derive(Debug, PartialEq, Eq, Structural, Clone, Copy)]
pub struct DnsHeader {
    pub tx_id: u16,
    pub is_response: bool,
    /// Four wire bits: 0 standard, 1 inverse, 2 status.
    pub opcode: u8,
    pub authoritative: bool,
    pub truncated: bool,
    pub recursion_desired: bool,
    pub recursion_available: bool,
    /// The three reserved wire bits.
    pub z: u8,
    pub response_code: ResponseCode,
    pub questions_count: u16,
    pub answers_count: u16,
    pub authority_count: u16,
    pub additional_count: u16,
}

/// The header whose fields are all zero.
pub open spec fn spec_default_header() -> DnsHeader {
    DnsHeader {
        tx_id: 0,
        is_response: false,
        opcode: 0,
        authoritative: false,
        truncated: false,
        recursion_desired: false,
        recursion_available: false,
        z: 0,
        response_code: ResponseCode::NoError,
        questions_count: 0,
        answers_count: 0,
        authority_count: 0,
        additional_count: 0,
    }
}

/// The first flags octet: response bit, four opcode bits, authoritative,
/// truncated and recursion-desired bits, high to low.
pub open spec fn spec_flags_hi(h: DnsHeader) -> u8 {
    ((if h.is_response {
        128int
    } else {
        0int
    }) + (h.opcode % 16) * 8 + (if h.authoritative {
        4int
    } else {
        0int
    }) + (if h.truncated {
        2int
    } else {
        0int
    }) + (if h.recursion_desired {
        1int
    } else {
        0int
    })) as u8
}

/// The second flags octet: recursion-available bit, three reserved bits,
/// four response-code bits, high to low.
pub open spec fn spec_flags_lo(h: DnsHeader) -> u8 {
    ((if h.recursion_available {
        128int
    } else {
        0int
    }) + (h.z % 8) * 16 + h.response_code.spec_u8() % 16) as u8
}

/// The twelve wire octets of a header: transaction id, the two flag octets,
/// and the four section counts.
pub open spec fn spec_header_bytes(h: DnsHeader) -> Seq<u8> {
    spec_u16_bytes(h.tx_id) + seq![spec_flags_hi(h), spec_flags_lo(h)] + spec_u16_bytes(
        h.questions_count,
    ) + spec_u16_bytes(h.answers_count) + spec_u16_bytes(h.authority_count) + spec_u16_bytes(
        h.additional_count,
    )
}

/// The header held by the first twelve octets of `b`.
pub open spec fn spec_header_of(b: Seq<u8>) -> DnsHeader {
    let f0 = b[2];
    let f1 = b[3];
    DnsHeader {
        tx_id: spec_u16_of(b[0], b[1]),
        is_response: f0 / 128 % 2 == 1,
        opcode: (f0 / 8 % 16) as u8,
        authoritative: f0 / 4 % 2 == 1,
        truncated: f0 / 2 % 2 == 1,
        recursion_desired: f0 % 2 == 1,
        recursion_available: f1 / 128 % 2 == 1,
        z: (f1 / 16 % 8) as u8,
        response_code: ResponseCode::spec_from_u8((f1 % 16) as u8),
        questions_count: spec_u16_of(b[4], b[5]),
        answers_count: spec_u16_of(b[6], b[7]),
        authority_count: spec_u16_of(b[8], b[9]),
        additional_count: spec_u16_of(b[10], b[11]),
    }
}

impl DnsHeader {
    /// A header whose fields are all zero.
    pub fn new() -> (r: Self)
        ensures
            r == spec_default_header(),
    {
        DnsHeader {
            tx_id: 0,
            is_response: false,
            opcode: 0,
            authoritative: false,
            truncated: false,
            recursion_desired: false,
            recursion_available: false,
            z: 0,
            response_code: ResponseCode::NoError,
            questions_count: 0,
            answers_count: 0,
            authority_count: 0,
            additional_count: 0,
        }
    }
}

impl FromBytes for DnsHeader {
    /// Decodes the twelve-octet header at the head of `bytes`. Fails only
    /// when fewer than twelve octets are there.
    fn from_bytes(bytes: &[u8]) -> (r: Result<(Self, usize), ()>)
        ensures
            (r is Ok) == (bytes@.len() >= 12),
            r matches Ok((h, n)) ==> h == spec_header_of(bytes@) && n == 12,
    {
        if bytes.len() < 12 {
            return Err(());
        }
        let f0 = bytes[2];
        let f1 = bytes[3];
        proof {
            assert((f0 & 0x80 > 0) == (f0 / 128 % 2 == 1)) by (bit_vector);
            assert(((f0 & 0x78) >> 3) == f0 / 8 % 16) by (bit_vector);
            assert((f0 & 0x04 > 0) == (f0 / 4 % 2 == 1)) by (bit_vector);
            assert((f0 & 0x02 > 0) == (f0 / 2 % 2 == 1)) by (bit_vector);
            assert((f0 & 0x01 > 0) == (f0 % 2 == 1)) by (bit_vector);
            assert((f1 & 0x80 > 0) == (f1 / 128 % 2 == 1)) by (bit_vector);
            assert(((f1 & 0x70) >> 4) == f1 / 16 % 8) by (bit_vector);
            assert((f1 & 0x0f) == f1 % 16) by (bit_vector);
        }
        let header = DnsHeader {
            tx_id: read_u16(bytes, 0),
            is_response: f0 & 0x80 > 0,
            opcode: (f0 & 0x78) >> 3,
            authoritative: f0 & 0x04 > 0,
            truncated: f0 & 0x02 > 0,
            recursion_desired: f0 & 0x01 > 0,
            recursion_available: f1 & 0x80 > 0,
            z: (f1 & 0x70) >> 4,
            response_code: ResponseCode::from_u8(f1 & 0x0f),
            questions_count: read_u16(bytes, 4),
            answers_count: read_u16(bytes, 6),
            authority_count: read_u16(bytes, 8),
            additional_count: read_u16(bytes, 10),
        };
        Ok((header, 12))
    }
}

impl ToBytes for DnsHeader {
    /// Writes the twelve wire octets; the opcode and reserved fields are
    /// masked to their wire widths.
    fn to_bytes(&self) -> (r: Vec<u8>)
        ensures
            r@ == spec_header_bytes(*self),
    {
        let mut out: Vec<u8> = Vec::new();
        push_u16(&mut out, self.tx_id);
        let mut hi: u8 = (self.opcode % 16) * 8;
        if self.is_response {
            hi = hi + 128;
        }
        if self.authoritative {
            hi = hi + 4;
        }
        if self.truncated {
            hi = hi + 2;
        }
        if self.recursion_desired {
            hi = hi + 1;
        }
        let mut lo: u8 = (self.z % 8) * 16 + self.response_code.to_u8() % 16;
        if self.recursion_available {
            lo = lo + 128;
        }
        out.push(hi);
        out.push(lo);
        push_u16(&mut out, self.questions_count);
        push_u16(&mut out, self.answers_count);
        push_u16(&mut out, self.authority_count);
        push_u16(&mut out, self.additional_count);
        proof {
            assert(out@ =~= spec_header_bytes(*self));
        }
        out
    }
}

/// Encoding masks the opcode and reserved fields to their wire widths: a
/// header writes the same octets as the same header with those fields
/// reduced modulo their width, and no other octet moves.
pub proof fn lemma_header_bit_width_safety(h: DnsHeader)
    ensures
        spec_header_bytes(h) == spec_header_bytes(
            (DnsHeader { opcode: (h.opcode % 16) as u8, z: (h.z % 8) as u8, ..h }),
        ),
{
}

/// The twelve octets of a header with in-range fields decode back to it.
#[verifier::rlimit(100)]
pub proof fn lemma_header_round_trip(h: DnsHeader)
    requires
        h.opcode < 16,
        h.z < 8,
    ensures
        spec_header_of(spec_header_bytes(h)) == h,
{
    let b = spec_header_bytes(h);
    let f0 = spec_flags_hi(h);
    let f1 = spec_flags_lo(h);
    assert(b[2] == f0 && b[3] == f1);
    let r = (if h.is_response {
        128int
    } else {
        0int
    });
    let a = (if h.authoritative {
        4int
    } else {
        0int
    });
    let t = (if h.truncated {
        2int
    } else {
        0int
    });
    let rd = (if h.recursion_desired {
        1int
    } else {
        0int
    });
    let ra = (if h.recursion_available {
        128int
    } else {
        0int
    });
    let rc = h.response_code.spec_u8() as int;
    assert(f0 == r + h.opcode * 8 + a + t + rd);
    assert(f1 == ra + h.z * 16 + rc);
    assert(f0 / 128 % 2 == (if h.is_response {
        1int
    } else {
        0int
    }));
    assert(f0 / 8 % 16 == h.opcode);
    assert(f0 / 4 % 2 == (if h.authoritative {
        1int
    } else {
        0int
    }));
    assert(f0 / 2 % 2 == (if h.truncated {
        1int
    } else {
        0int
    }));
    assert(f0 % 2 == rd);
    assert(f1 / 128 % 2 == (if h.recursion_available {
        1int
    } else {
        0int
    }));
    assert(f1 / 16 % 8 == h.z);
    assert(f1 % 16 == rc);
    assert(spec_u16_of(b[0], b[1]) == h.tx_id);
    assert(spec_u16_of(b[4], b[5]) == h.questions_count);
    assert(spec_u16_of(b[6], b[7]) == h.answers_count);
    assert(spec_u16_of(b[8], b[9]) == h.authority_count);
    assert(spec_u16_of(b[10], b[11]) == h.additional_count);
}

} // verus!
