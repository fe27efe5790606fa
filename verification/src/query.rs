//! The question section entry: a domain name, a record type and a class.

use vstd::prelude::*;
use crate::header::ResourceType;
use crate::serialization::{
    ascii_chars, chars_in_byte_range, deserialize_domain_at, label_read_bound,
    lemma_pointer_decodes_target, lemma_rel_is_at, name_sendable, push_u16, read_u16,
    serialize_domain_to_bytes, spec_name_at, spec_name_parse_at, spec_name_wire, spec_u16_bytes,
    spec_u16_of, str_bytes,
};

verus! {

/// The mathematical content of a question: its name as the octets of its
/// dotted text, the record type, and the class.
pub struct QueryView {
    pub name: Seq<u8>,
    pub qtype: ResourceType,
    pub class: u16,
}

/// One entry of the question section.
#[derive(Debug, PartialEq, Eq, Hash, Clone)]
pub struct DnsQuery {
    pub name: String,
    pub qtype: ResourceType,
    pub class: u16,
}

impl View for DnsQuery {
    type V = QueryView;

    open spec fn view(&self) -> QueryView {
        QueryView { name: str_bytes(self.name@), qtype: self.qtype, class: self.class }
    }
}

/// The wire form of a question: the name uncompressed, then the type and
/// class in network byte order.
pub open spec fn spec_query_bytes(v: QueryView) -> Seq<u8> {
    spec_name_wire(v.name) + spec_u16_bytes(v.qtype.spec_u16()) + spec_u16_bytes(v.class)
}

/// What decoding a question at offset `cur` of `bytes` within `packet`
/// yields: the question and the octets consumed from `cur` on.
pub open spec fn spec_query_parse(packet: Seq<u8>, b: Seq<u8>, cur: int) -> Option<
    (QueryView, int),
> {
    match spec_name_parse_at(packet, b, cur) {
        None => None,
        Some((nm, c)) => {
            let p = cur + c;
            if p + 4 <= b.len() {
                Some(
                    (
                        QueryView {
                            name: nm,
                            qtype: ResourceType::spec_from_u16(spec_u16_of(b[p], b[p + 1])),
                            class: spec_u16_of(b[p + 2], b[p + 3]),
                        },
                        c + 4,
                    ),
                )
            } else {
                None
            }
        },
    }
}

impl DnsQuery {
    /// A question with the empty name, the zero-coded `Unused` type and the
    /// IN class.
    pub fn new() -> (r: Self)
        ensures
            r@.name == Seq::<u8>::empty(),
            r@.qtype == ResourceType::Unused(0),
            r@.class == 1,
            r.name@ == Seq::<char>::empty(),
    {
        let r = DnsQuery { name: String::new(), qtype: ResourceType::Unused(0), class: 1 };
        proof {
            assert(r@.name =~= Seq::<u8>::empty());
        }
        r
    }

    /// Decodes the question at the head of `bytes` within the whole message
    /// `packet_bytes`.
    pub fn from_bytes(packet_bytes: &[u8], bytes: &[u8]) -> (r: Result<(Self, usize), ()>)
        ensures
            (r is Ok) == (spec_query_parse(packet_bytes@, bytes@, 0) is Some),
            r matches Ok((q, n)) ==> spec_query_parse(packet_bytes@, bytes@, 0) == Some(
                (q@, n as int),
            ) && q.name@ == ascii_chars(q@.name) && n <= bytes@.len(),
    {
        Self::from_bytes_at(packet_bytes, bytes, 0)
    }

    /// Decodes the question at offset `cur` of `bytes` within the whole
    /// message `packet_bytes`; the consumed count is from `cur` on.
    pub fn from_bytes_at(packet_bytes: &[u8], bytes: &[u8], cur: usize) -> (r: Result<
        (Self, usize),
        (),
    >)
        ensures
            (r is Ok) == (spec_query_parse(packet_bytes@, bytes@, cur as int) is Some),
            r matches Ok((q, n)) ==> spec_query_parse(packet_bytes@, bytes@, cur as int) == Some(
                (q@, n as int),
            ) && q.name@ == ascii_chars(q@.name) && cur + n <= bytes@.len(),
    {
        let blen = bytes.len();
        let (name, c) = match deserialize_domain_at(packet_bytes, bytes, cur) {
            Ok(t) => t,
            Err(()) => {
                return Err(());
            },
        };
        let p = cur + c;
        if blen - p < 4 {
            return Err(());
        }
        let qtype_code = read_u16(bytes, p);
        let class = read_u16(bytes, p + 2);
        let q = DnsQuery { name, qtype: ResourceType::from_u16(qtype_code), class };
        Ok((q, c + 4))
    }

    /// An exact copy, with the same view.
    pub fn duplicate(&self) -> (r: Self)
        ensures
            r@ == self@,
            r.name@ == self.name@,
            r.qtype == self.qtype,
            r.class == self.class,
    {
        DnsQuery { name: self.name.clone(), qtype: self.qtype, class: self.class }
    }

    /// Writes the question in its wire form, the name uncompressed. Fails if
    /// the name has a character past the octet range or cannot be written on
    /// the wire.
    pub fn to_bytes(&self) -> (r: Result<Vec<u8>, ()>)
        ensures
            (r is Ok) == (chars_in_byte_range(self.name@) && name_sendable(self@.name)),
            r matches Ok(v) ==> v@ == spec_query_bytes(self@),
    {
        let mut out = match serialize_domain_to_bytes(self.name.as_str()) {
            Ok(v) => v,
            Err(()) => {
                return Err(());
            },
        };
        push_u16(&mut out, self.qtype.as_u16());
        push_u16(&mut out, self.class);
        proof {
            assert(out@ =~= spec_query_bytes(self@));
        }
        Ok(out)
    }
}

/// Round trip: the wire form of a question with a sendable name, standing
/// at offset `cur` of the buffer, decodes back to exactly that question.
pub proof fn lemma_query_round_trip(packet: Seq<u8>, b: Seq<u8>, cur: int, v: QueryView)
    requires
        name_sendable(v.name),
        v.qtype.spec_canonical(),
        0 <= cur,
        cur + spec_query_bytes(v).len() <= b.len(),
        b.subrange(cur, cur + spec_query_bytes(v).len() as int) == spec_query_bytes(v),
    ensures
        spec_query_parse(packet, b, cur) == Some((v, spec_query_bytes(v).len() as int)),
{
    let w = spec_query_bytes(v);
    let nw = spec_name_wire(v.name);
    assert(forall|k: int| 0 <= k < w.len() ==> b[cur + k] == #[trigger] w[k]) by {
        assert(forall|k: int|
            0 <= k < w.len() ==> b.subrange(cur, cur + w.len() as int)[k] == #[trigger] w[k]);
    }
    assert(b.subrange(cur, cur + nw.len() as int) =~= nw);
    crate::serialization::lemma_name_round_trip(packet, b, cur, v.name);
    let p = cur + nw.len() as int;
    let tb = crate::serialization::spec_u16_bytes(v.qtype.spec_u16());
    let cb = crate::serialization::spec_u16_bytes(v.class);
    assert(w[nw.len() as int] == tb[0]);
    assert(w[nw.len() as int + 1] == tb[1]);
    assert(w[nw.len() as int + 2] == cb[0]);
    assert(w[nw.len() as int + 3] == cb[1]);
    assert(b[p] == tb[0] && b[p + 1] == tb[1]);
    assert(b[p + 2] == cb[0] && b[p + 3] == cb[1]);
    crate::serialization::lemma_u16_round_trip(v.qtype.spec_u16());
    crate::serialization::lemma_u16_round_trip(v.class);
    assert(ResourceType::spec_from_u16(v.qtype.spec_u16()) == v.qtype);
    assert(spec_query_parse(packet, b, cur)->Some_0.0 == v);
}

/// A question whose name field is a two-octet pointer to an earlier offset
/// decodes to the very name that decodes at that offset: replacing a later
/// spelling of a name with a pointer to an earlier one preserves the
/// question, which then takes six octets.
pub proof fn lemma_query_with_pointer_name(msg: Seq<u8>, p: int, o: int)
    requires
        0 <= o < p,
        p + 6 <= msg.len(),
        o < 0x4000,
        msg[p] == (0xc0 + o / 256) as u8,
        msg[p + 1] == (o % 256) as u8,
        spec_name_at(msg, o, label_read_bound(), 0) is Some,
    ensures
        spec_query_parse(msg, msg, p) == Some(
            (
                QueryView {
                    name: spec_name_at(msg, o, label_read_bound(), 0)->Some_0.0,
                    qtype: ResourceType::spec_from_u16(spec_u16_of(msg[p + 2], msg[p + 3])),
                    class: spec_u16_of(msg[p + 4], msg[p + 5]),
                },
                6int,
            ),
        ),
{
    lemma_pointer_decodes_target(msg, p, o, label_read_bound(), 0);
    lemma_rel_is_at(msg, p, label_read_bound(), 0);
}

} // verus!
