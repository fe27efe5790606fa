//! Authoritative zone records as configured: owner name, class, time to
//! live, type, and the typed data the rdata is synthesised from.

use vstd::prelude::*;
use vstd::string::{StrSliceExecFns, StringExecFns};
use crate::header::ResourceType;
use crate::serialization::{
    chars_in_byte_range, chars_to_octets, deserialize_ipv4_from_str, name_sendable, push_u16,
    push_u32, serialize_domain_to_bytes, serialize_name_octets, spec_ipv4, spec_name_wire,
    spec_u16_bytes, spec_u32_bytes, str_bytes,
};

verus! {

/// The typed data of a zone record. An address record holds its dotted-quad
/// text; a quad-A record holds its sixteen octets; name-bearing records hold
/// the domain text.
#[derive(Debug, PartialEq, Eq)]
pub enum RecordInformation {
    A(String),
    AAAA(Vec<u8>),
    NS(String),
    CName(String),
    Soa(SoaInformation),
    MX(MxInformation),
}

/// The start-of-authority data: the primary name server, the responsible
/// mailbox, and the five 32-bit timers.
#[derive(Debug, PartialEq, Eq)]
pub struct SoaInformation {
    pub domain_name: String,
    pub fqdn: String,
    pub email: String,
    pub serial: u32,
    pub refresh: u32,
    pub retry: u32,
    pub expire: u32,
    pub minimum: u32,
}

/// The mail-exchange data: a preference and the exchange domain.
#[derive(Debug, PartialEq, Eq)]
pub struct MxInformation {
    pub preference: u16,
    pub exchange: String,
}

/// One configured zone record.
#[derive(Debug, PartialEq, Eq)]
pub struct Record {
    pub name: String,
    pub ttl: u32,
    pub rec_type: ResourceType,
    /// Always the IN class.
    pub rec_class: String,
    pub data: RecordInformation,
}

/// A domain text the wire encoder accepts.
pub open spec fn domain_text_ok(s: Seq<char>) -> bool {
    chars_in_byte_range(s) && name_sendable(str_bytes(s))
}

/// The primary name server's text with one trailing dot stripped.
pub open spec fn spec_stripped_fqdn(s: Seq<char>) -> Seq<char> {
    if s.len() > 0 && s.last() == '.' {
        s.drop_last()
    } else {
        s
    }
}

/// The start-of-authority rdata: the stripped primary name server, the
/// responsible mailbox, then the five timers as 32-bit values.
pub open spec fn spec_soa_rdata(s: SoaInformation) -> Seq<u8> {
    spec_name_wire(str_bytes(spec_stripped_fqdn(s.fqdn@))) + spec_name_wire(str_bytes(s.email@))
        + spec_u32_bytes(s.serial) + spec_u32_bytes(s.refresh) + spec_u32_bytes(s.retry)
        + spec_u32_bytes(s.expire) + spec_u32_bytes(s.minimum)
}

/// Whether the start-of-authority names can be written on the wire.
pub open spec fn soa_text_ok(s: SoaInformation) -> bool {
    domain_text_ok(spec_stripped_fqdn(s.fqdn@)) && domain_text_ok(s.email@)
}

/// The rdata a record's data synthesises, when every name and address in it
/// is well formed.
pub open spec fn spec_record_rdata(data: RecordInformation) -> Option<Seq<u8>> {
    match data {
        RecordInformation::A(s) => if vstd::utf8::is_ascii_chars(s@) {
            spec_ipv4(str_bytes(s@))
        } else {
            None
        },
        RecordInformation::AAAA(v) => Some(v@),
        RecordInformation::NS(s) => if domain_text_ok(s@) {
            Some(spec_name_wire(str_bytes(s@)))
        } else {
            None
        },
        RecordInformation::CName(s) => if domain_text_ok(s@) {
            Some(spec_name_wire(str_bytes(s@)))
        } else {
            None
        },
        RecordInformation::Soa(i) => if soa_text_ok(i) {
            Some(spec_soa_rdata(i))
        } else {
            None
        },
        RecordInformation::MX(m) => if domain_text_ok(m.exchange@) {
            Some(spec_u16_bytes(m.preference) + spec_name_wire(str_bytes(m.exchange@)))
        } else {
            None
        },
    }
}

/// The record's data carries the tag its type names.
pub open spec fn record_tag_ok(r: Record) -> bool {
    match r.data {
        RecordInformation::A(_) => r.rec_type == ResourceType::A,
        RecordInformation::AAAA(_) => r.rec_type == ResourceType::AAAA,
        RecordInformation::NS(_) => r.rec_type == ResourceType::NS,
        RecordInformation::CName(_) => r.rec_type == ResourceType::CName,
        RecordInformation::Soa(_) => r.rec_type == ResourceType::StartOfAuthority,
        RecordInformation::MX(_) => r.rec_type == ResourceType::MX,
    }
}

/// A well-formed zone record: the tag matches the type, the rdata can be
/// synthesised and fits a 16-bit length, and a quad-A address is sixteen
/// octets.
pub open spec fn record_wf(r: Record) -> bool {
    &&& record_tag_ok(r)
    &&& spec_record_rdata(r.data) is Some
    &&& spec_record_rdata(r.data)->Some_0.len() <= 0xffff
    &&& (r.data matches RecordInformation::AAAA(v) ==> v@.len() == 16)
}

impl SoaInformation {
    /// Start-of-authority data with empty names and zero timers.
    pub fn new() -> (r: Self)
        ensures
            r.domain_name@ == Seq::<char>::empty(),
            r.fqdn@ == Seq::<char>::empty(),
            r.email@ == Seq::<char>::empty(),
            r.serial == 0,
            r.refresh == 0,
            r.retry == 0,
            r.expire == 0,
            r.minimum == 0,
    {
        SoaInformation {
            domain_name: String::new(),
            fqdn: String::new(),
            email: String::new(),
            serial: 0,
            refresh: 0,
            retry: 0,
            expire: 0,
            minimum: 0,
        }
    }

    /// Writes the start-of-authority rdata: the primary name server with a
    /// trailing dot stripped, the responsible mailbox, then the five timers
    /// as 32-bit values. Fails if either name cannot be written.
    pub fn rdata_bytes(&self) -> (r: Result<Vec<u8>, ()>)
        ensures
            (r is Ok) == soa_text_ok(*self),
            r matches Ok(v) ==> v@ == spec_soa_rdata(*self),
    {
        let ghost stripped = spec_stripped_fqdn(self.fqdn@);
        let fq: &str = self.fqdn.as_str();
        let n = fq.unicode_len();
        let ends_with_dot = n > 0 && fq.get_char(n - 1) == '.';
        let mut fqb = match chars_to_octets(fq) {
            Ok(v) => v,
            Err(()) => {
                // a character past the octet range survives the stripping of
                // a trailing dot, which itself is in range
                proof {
                    let s = self.fqdn@;
                    let i = choose|i: int| 0 <= i < s.len() && !((s[i] as int) < 256);
                    if s.len() > 0 && s.last() == '.' {
                        assert(i != s.len() - 1);
                        assert(stripped[i] == s[i]);
                    }
                    assert(!chars_in_byte_range(stripped));
                }
                return Err(());
            },
        };
        // strip one trailing dot
        if ends_with_dot {
            proof {
                assert(fqb@.drop_last() =~= str_bytes(stripped));
            }
            fqb.pop();
        } else {
            proof {
                assert(fqb@ =~= str_bytes(stripped));
            }
        }
        let mut out = match serialize_name_octets(fqb.as_slice()) {
            Ok(v) => v,
            Err(()) => {
                return Err(());
            },
        };
        proof {
            let s = self.fqdn@;
            assert(chars_in_byte_range(stripped)) by {
                if s.len() > 0 && s.last() == '.' {
                    assert(forall|k: int|
                        0 <= k < stripped.len() ==> #[trigger] stripped[k] == s[k]);
                }
            }
        }
        let mut email_bytes = match serialize_domain_to_bytes(self.email.as_str()) {
            Ok(v) => v,
            Err(()) => {
                return Err(());
            },
        };
        out.append(&mut email_bytes);
        push_u32(&mut out, self.serial);
        push_u32(&mut out, self.refresh);
        push_u32(&mut out, self.retry);
        push_u32(&mut out, self.expire);
        push_u32(&mut out, self.minimum);
        proof {
            assert(out@ =~= spec_soa_rdata(*self));
        }
        Ok(out)
    }
}

impl MxInformation {
    /// Writes the mail-exchange rdata: the preference, then the exchange
    /// domain. Fails if the exchange name cannot be written.
    pub fn rdata_bytes(&self) -> (r: Result<Vec<u8>, ()>)
        ensures
            (r is Ok) == domain_text_ok(self.exchange@),
            r matches Ok(v) ==> v@ == spec_u16_bytes(self.preference) + spec_name_wire(
                str_bytes(self.exchange@),
            ),
    {
        let mut out: Vec<u8> = Vec::new();
        push_u16(&mut out, self.preference);
        let mut name_bytes = match serialize_domain_to_bytes(self.exchange.as_str()) {
            Ok(v) => v,
            Err(()) => {
                return Err(());
            },
        };
        out.append(&mut name_bytes);
        proof {
            assert(out@ =~= spec_u16_bytes(self.preference) + spec_name_wire(
                str_bytes(self.exchange@),
            ));
        }
        Ok(out)
    }
}

impl Record {
    /// A record with the empty owner name, the A type, the IN class, and
    /// the zero address.
    pub fn new() -> (r: Self)
        ensures
            r.name@ == Seq::<char>::empty(),
            r.ttl == 0,
            r.rec_type == ResourceType::A,
            r.data matches RecordInformation::A(s) && s@ == "0.0.0.0"@,
    {
        Record {
            name: String::new(),
            ttl: 0,
            rec_type: ResourceType::A,
            rec_class: String::from_str("IN"),
            data: RecordInformation::A(String::from_str("0.0.0.0")),
        }
    }

    /// Synthesises the rdata this record answers with, by its data's type.
    /// Fails if a name or address in the data cannot be written.
    pub fn rdata_bytes(&self) -> (r: Result<Vec<u8>, ()>)
        ensures
            (r is Ok) == (spec_record_rdata(self.data) is Some),
            r matches Ok(v) ==> Some(v@) == spec_record_rdata(self.data),
    {
        match &self.data {
            RecordInformation::A(s) => deserialize_ipv4_from_str(s.as_str()),
            RecordInformation::AAAA(v) => {
                let mut out: Vec<u8> = Vec::new();
                let mut i: usize = 0;
                while i < v.len()
                    invariant
                        i <= v@.len(),
                        out@ == v@.take(i as int),
                    decreases v@.len() - i,
                {
                    out.push(v[i]);
                    assert(out@ =~= v@.take(i + 1));
                    i = i + 1;
                }
                assert(v@.take(v@.len() as int) =~= v@);
                Ok(out)
            },
            RecordInformation::NS(s) => serialize_domain_to_bytes(s.as_str()),
            RecordInformation::CName(s) => serialize_domain_to_bytes(s.as_str()),
            RecordInformation::Soa(i) => i.rdata_bytes(),
            RecordInformation::MX(m) => m.rdata_bytes(),
        }
    }

    /// Whether this record is well formed: its data carries the tag its
    /// type names, and its rdata can be synthesised and fits a 16-bit
    /// length.
    pub fn check_wf(&self) -> (r: bool)
        ensures
            r == record_wf(*self),
    {
        let tag_ok = match (&self.data, &self.rec_type) {
            (RecordInformation::A(_), ResourceType::A) => true,
            (RecordInformation::AAAA(_), ResourceType::AAAA) => true,
            (RecordInformation::NS(_), ResourceType::NS) => true,
            (RecordInformation::CName(_), ResourceType::CName) => true,
            (RecordInformation::Soa(_), ResourceType::StartOfAuthority) => true,
            (RecordInformation::MX(_), ResourceType::MX) => true,
            _ => false,
        };
        if !tag_ok {
            return false;
        }
        if let RecordInformation::AAAA(v) = &self.data {
            if v.len() != 16 {
                return false;
            }
        }
        match self.rdata_bytes() {
            Ok(v) => v.len() <= 0xffff,
            Err(()) => false,
        }
    }
}

} // verus!
