//! The resource record as it stands in the answer, authority and additional
//! sections: owner name, type, class, time to live, data length and rdata.

use vstd::prelude::*;
use crate::header::ResourceType;
use crate::serialization::{
    ascii_chars, chars_in_byte_range, deserialize_domain_at, name_sendable, push_u16, push_u32,
    read_u16, read_u32, serialize_domain_to_bytes, spec_name_parse_at, spec_name_wire,
    spec_u16_bytes, spec_u16_of, spec_u32_bytes, spec_u32_of, str_bytes,
};

verus! {

/// The mathematical content of a resource record.
pub struct AnswerView {
    pub name: Seq<u8>,
    pub qtype: ResourceType,
    pub class: u16,
    pub ttl: u32,
    pub data_length: u16,
    pub rdata: Seq<u8>,
}

/// One resource record.
#[derive(Debug, PartialEq, Eq, Hash, Clone)]
pub struct DnsAnswer {
    pub name: String,
    pub qtype: ResourceType,
    pub class: u16,
    pub ttl: u32,
    pub data_length: u16,
    pub rdata: Vec<u8>,
}

impl View for DnsAnswer {
    type V = AnswerView;

    open spec fn view(&self) -> AnswerView {
        AnswerView {
            name: str_bytes(self.name@),
            qtype: self.qtype,
            class: self.class,
            ttl: self.ttl,
            data_length: self.data_length,
            rdata: self.rdata@,
        }
    }
}

/// The wire form of a record: the owner name uncompressed, type, class,
/// time to live, the stored data length, then the rdata octets verbatim.
pub open spec fn spec_answer_bytes(v: AnswerView) -> Seq<u8> {
    spec_name_wire(v.name) + spec_u16_bytes(v.qtype.spec_u16()) + spec_u16_bytes(v.class)
        + spec_u32_bytes(v.ttl) + spec_u16_bytes(v.data_length) + v.rdata
}

/// What decoding a resource record at offset `cur` of `bytes` within
/// `packet` yields: the record and the octets consumed from `cur` on. For
/// the NS and CNAME types the rdata is a domain name, decoded with
/// compression and retained in its uncompressed form, with the data length
/// set to that form's length; for every other type the rdata is the stored
/// data length's worth of raw octets.
pub open spec fn spec_answer_parse(packet: Seq<u8>, b: Seq<u8>, cur: int) -> Option<
    (AnswerView, int),
> {
    match spec_name_parse_at(packet, b, cur) {
        None => None,
        Some((nm, c)) => {
            let p = cur + c;
            if p + 10 > b.len() {
                None
            } else {
                let qt = ResourceType::spec_from_u16(spec_u16_of(b[p], b[p + 1]));
                let class = spec_u16_of(b[p + 2], b[p + 3]);
                let ttl = spec_u32_of(b[p + 4], b[p + 5], b[p + 6], b[p + 7]);
                let dl = spec_u16_of(b[p + 8], b[p + 9]);
                let q = p + 10;
                if qt == ResourceType::NS || qt == ResourceType::CName {
                    match spec_name_parse_at(packet, b, q) {
                        None => None,
                        Some((nm2, c2)) => if name_sendable(nm2) {
                            Some(
                                (
                                    AnswerView {
                                        name: nm,
                                        qtype: qt,
                                        class: class,
                                        ttl: ttl,
                                        data_length: spec_name_wire(nm2).len() as u16,
                                        rdata: spec_name_wire(nm2),
                                    },
                                    c + 10 + c2,
                                ),
                            )
                        } else {
                            None
                        },
                    }
                } else {
                    if q + dl <= b.len() {
                        Some(
                            (
                                AnswerView {
                                    name: nm,
                                    qtype: qt,
                                    class: class,
                                    ttl: ttl,
                                    data_length: dl,
                                    rdata: b.subrange(q, q + dl),
                                },
                                c + 10 + dl,
                            ),
                        )
                    } else {
                        None
                    }
                }
            }
        },
    }
}

/// Octets read as characters always fit back into octets.
pub proof fn lemma_ascii_chars_byte_range(b: Seq<u8>)
    ensures
        chars_in_byte_range(ascii_chars(b)),
{
    let cs = ascii_chars(b);
    assert forall|i: int| 0 <= i < cs.len() implies ((#[trigger] cs[i]) as int) < 256 by {
        assert(cs[i] == b[i] as char);
    }
}

impl DnsAnswer {
    /// A record with the empty name, the zero-coded `Unused` type, the IN
    /// class, and no rdata.
    pub fn new() -> (r: Self)
        ensures
            r@.name == Seq::<u8>::empty(),
            r@.qtype == ResourceType::Unused(0),
            r@.class == 1,
            r@.ttl == 0,
            r@.data_length == 0,
            r@.rdata == Seq::<u8>::empty(),
            r.name@ == Seq::<char>::empty(),
    {
        let r = DnsAnswer {
            name: String::new(),
            qtype: ResourceType::Unused(0),
            class: 1,
            ttl: 0,
            data_length: 0,
            rdata: Vec::new(),
        };
        proof {
            assert(r@.name =~= Seq::<u8>::empty());
        }
        r
    }

    /// An exact copy, with the same view.
    pub fn duplicate(&self) -> (r: Self)
        ensures
            r@ == self@,
            r.name@ == self.name@,
    {
        let mut rdata: Vec<u8> = Vec::new();
        let mut i: usize = 0;
        while i < self.rdata.len()
            invariant
                i <= self.rdata@.len(),
                rdata@ == self.rdata@.take(i as int),
            decreases self.rdata@.len() - i,
        {
            rdata.push(self.rdata[i]);
            assert(rdata@ =~= self.rdata@.take(i + 1));
            i = i + 1;
        }
        assert(self.rdata@.take(self.rdata@.len() as int) =~= self.rdata@);
        DnsAnswer {
            name: self.name.clone(),
            qtype: self.qtype,
            class: self.class,
            ttl: self.ttl,
            data_length: self.data_length,
            rdata,
        }
    }

    /// Decodes the record at the head of `bytes` within the whole message
    /// `packet_bytes`.
    pub fn from_bytes(packet_bytes: &[u8], bytes: &[u8]) -> (r: Result<(Self, usize), ()>)
        ensures
            (r is Ok) == (spec_answer_parse(packet_bytes@, bytes@, 0) is Some),
            r matches Ok((a, n)) ==> spec_answer_parse(packet_bytes@, bytes@, 0) == Some(
                (a@, n as int),
            ) && a.name@ == ascii_chars(a@.name) && n <= bytes@.len(),
    {
        Self::from_bytes_at(packet_bytes, bytes, 0)
    }

    /// Decodes the record at offset `cur` of `bytes` within the whole
    /// message `packet_bytes`; the consumed count is from `cur` on.
    pub fn from_bytes_at(packet_bytes: &[u8], bytes: &[u8], cur: usize) -> (r: Result<
        (Self, usize),
        (),
    >)
        ensures
            (r is Ok) == (spec_answer_parse(packet_bytes@, bytes@, cur as int) is Some),
            r matches Ok((a, n)) ==> spec_answer_parse(packet_bytes@, bytes@, cur as int) == Some(
                (a@, n as int),
            ) && a.name@ == ascii_chars(a@.name) && cur + n <= bytes@.len(),
    {
        let blen = bytes.len();
        let (name, c) = match deserialize_domain_at(packet_bytes, bytes, cur) {
            Ok(t) => t,
            Err(()) => {
                return Err(());
            },
        };
        let p = cur + c;
        if blen - p < 10 {
            return Err(());
        }
        let qtype_code = read_u16(bytes, p);
        let qtype = ResourceType::from_u16(qtype_code);
        let class = read_u16(bytes, p + 2);
        let ttl = read_u32(bytes, p + 4);
        let dl = read_u16(bytes, p + 8);
        let q = p + 10;
        match qtype {
            ResourceType::NS | ResourceType::CName => {
                let (name2, c2) = match deserialize_domain_at(packet_bytes, bytes, q) {
                    Ok(t) => t,
                    Err(()) => {
                        return Err(());
                    },
                };
                proof {
                    lemma_ascii_chars_byte_range(str_bytes(name2@));
                }
                let rdata = match serialize_domain_to_bytes(name2.as_str()) {
                    Ok(v) => v,
                    Err(()) => {
                        return Err(());
                    },
                };
                if rdata.len() > 65535 {
                    // cannot happen: a name's wire form is at most 255 octets
                    proof {
                        assert(name_sendable(str_bytes(name2@)) ==> rdata@.len() <= 255);
                    }
                    return Err(());
                }
                let a = DnsAnswer {
                    name,
                    qtype,
                    class,
                    ttl,
                    data_length: rdata.len() as u16,
                    rdata,
                };
                Ok((a, c + 10 + c2))
            },
            _ => {
                if dl as usize > blen - q {
                    return Err(());
                }
                let end = q + dl as usize;
                let mut rdata: Vec<u8> = Vec::new();
                let mut j = q;
                while j < end
                    invariant
                        q <= j <= end <= bytes@.len(),
                        rdata@ == bytes@.subrange(q as int, j as int),
                    decreases end - j,
                {
                    rdata.push(bytes[j]);
                    assert(rdata@ =~= bytes@.subrange(q as int, j + 1));
                    j = j + 1;
                }
                let a = DnsAnswer { name, qtype, class, ttl, data_length: dl, rdata };
                Ok((a, c + 10 + dl as usize))
            },
        }
    }

    /// Writes the record in its wire form, the owner name uncompressed and
    /// the stored data length written as it is. Fails if the owner name has
    /// a character past the octet range or cannot be written on the wire.
    pub fn to_bytes(&self) -> (r: Result<Vec<u8>, ()>)
        ensures
            (r is Ok) == (chars_in_byte_range(self.name@) && name_sendable(self@.name)),
            r matches Ok(v) ==> v@ == spec_answer_bytes(self@),
    {
        let mut out = match serialize_domain_to_bytes(self.name.as_str()) {
            Ok(v) => v,
            Err(()) => {
                return Err(());
            },
        };
        push_u16(&mut out, self.qtype.as_u16());
        push_u16(&mut out, self.class);
        push_u32(&mut out, self.ttl);
        push_u16(&mut out, self.data_length);
        let ghost before = out@;
        let mut j: usize = 0;
        while j < self.rdata.len()
            invariant
                j <= self.rdata@.len(),
                out@ == before + self.rdata@.take(j as int),
            decreases self.rdata@.len() - j,
        {
            out.push(self.rdata[j]);
            assert(out@ =~= before + self.rdata@.take(j + 1));
            j = j + 1;
        }
        proof {
            assert(self.rdata@.take(self.rdata@.len() as int) =~= self.rdata@);
            assert(out@ =~= spec_answer_bytes(self@));
        }
        Ok(out)
    }
}

/// A record whose wire form decodes back to it: the name is sendable, the
/// stored data length is the rdata's length, and a name-bearing record's
/// rdata is itself the uncompressed wire form of a well-formed name.
pub open spec fn answer_view_wf(v: AnswerView) -> bool {
    &&& name_sendable(v.name)
    &&& v.qtype.spec_canonical()
    &&& v.data_length == v.rdata.len()
    &&& (v.qtype == ResourceType::NS || v.qtype == ResourceType::CName) ==> exists|m: Seq<u8>|
        #[trigger] name_sendable(m) && v.rdata == spec_name_wire(m)
}

/// Round trip: the wire form of a well-formed record, standing at offset
/// `cur` of the buffer, decodes back to exactly that record.
pub proof fn lemma_answer_round_trip(packet: Seq<u8>, b: Seq<u8>, cur: int, v: AnswerView)
    requires
        answer_view_wf(v),
        0 <= cur,
        cur + spec_answer_bytes(v).len() <= b.len(),
        b.subrange(cur, cur + spec_answer_bytes(v).len() as int) == spec_answer_bytes(v),
    ensures
        spec_answer_parse(packet, b, cur) == Some((v, spec_answer_bytes(v).len() as int)),
{
    let w = spec_answer_bytes(v);
    let nw = spec_name_wire(v.name);
    assert(forall|k: int| 0 <= k < w.len() ==> b[cur + k] == #[trigger] w[k]) by {
        assert(forall|k: int|
            0 <= k < w.len() ==> b.subrange(cur, cur + w.len() as int)[k] == #[trigger] w[k]);
    }
    assert(b.subrange(cur, cur + nw.len() as int) =~= nw);
    crate::serialization::lemma_name_round_trip(packet, b, cur, v.name);
    let p = cur + nw.len() as int;
    let h = nw.len() as int;
    let tb = spec_u16_bytes(v.qtype.spec_u16());
    let cb = spec_u16_bytes(v.class);
    let lb = spec_u32_bytes(v.ttl);
    let db = spec_u16_bytes(v.data_length);
    assert(w[h] == tb[0] && w[h + 1] == tb[1]);
    assert(w[h + 2] == cb[0] && w[h + 3] == cb[1]);
    assert(w[h + 4] == lb[0] && w[h + 5] == lb[1] && w[h + 6] == lb[2] && w[h + 7] == lb[3]);
    assert(w[h + 8] == db[0] && w[h + 9] == db[1]);
    crate::serialization::lemma_u16_round_trip(v.qtype.spec_u16());
    crate::serialization::lemma_u16_round_trip(v.class);
    crate::serialization::lemma_u16_round_trip(v.data_length);
    crate::serialization::lemma_u32_round_trip(v.ttl);
    assert(ResourceType::spec_from_u16(v.qtype.spec_u16()) == v.qtype);
    let q = p + 10;
    assert(forall|k: int| 0 <= k < v.rdata.len() ==> b[q + k] == #[trigger] v.rdata[k]) by {
        assert(forall|k: int| 0 <= k < v.rdata.len() ==> w[h + 10 + k] == #[trigger] v.rdata[k]);
    }
    if v.qtype == ResourceType::NS || v.qtype == ResourceType::CName {
        let m = choose|m: Seq<u8>| #[trigger] name_sendable(m) && v.rdata == spec_name_wire(m);
        assert(b.subrange(q, q + spec_name_wire(m).len() as int) =~= spec_name_wire(m));
        crate::serialization::lemma_name_round_trip(packet, b, q, m);
        assert(spec_answer_parse(packet, b, cur)->Some_0.0 == v);
        assert(spec_answer_parse(packet, b, cur)->Some_0.1 == w.len() as int);
    } else {
        assert(b.subrange(q, q + v.data_length as int) =~= v.rdata);
        assert(spec_answer_parse(packet, b, cur)->Some_0.0 == v);
    }
}

} // verus!
