//! The whole DNS message: a header, the question section, and the answer,
//! authority and additional record sections.

use vstd::prelude::*;
use crate::answer::{answer_view_wf, spec_answer_bytes, spec_answer_parse, AnswerView, DnsAnswer};
use crate::header::{spec_header_bytes, spec_header_of, DnsHeader, ResponseCode};
use crate::query::{spec_query_bytes, spec_query_parse, DnsQuery, QueryView};
use crate::serialization::{chars_in_byte_range, name_sendable, FromBytes, ToBytes};

verus! {

/// The mathematical content of a message.
#[verifier::ext_equal]
pub struct PacketView {
    pub header: DnsHeader,
    pub queries: Seq<QueryView>,
    pub answers: Seq<AnswerView>,
    pub authority: Seq<AnswerView>,
    pub additional: Seq<AnswerView>,
}

/// One message.
#[derive(Debug, PartialEq, Eq, Clone)]
pub struct DnsPacket {
    pub header: DnsHeader,
    pub queries: Vec<DnsQuery>,
    pub answers: Vec<DnsAnswer>,
    /// The answer, authority, and additional sections all share the same
    /// format: a run of resource records, whose number stands in the
    /// corresponding count field of the header.
    pub authority: Vec<DnsAnswer>,
    pub additional: Vec<DnsAnswer>,
}

impl View for DnsPacket {
    type V = PacketView;

    open spec fn view(&self) -> PacketView {
        PacketView {
            header: self.header,
            queries: self.queries@.map_values(|q: DnsQuery| q@),
            answers: self.answers@.map_values(|a: DnsAnswer| a@),
            authority: self.authority@.map_values(|a: DnsAnswer| a@),
            additional: self.additional@.map_values(|a: DnsAnswer| a@),
        }
    }
}

// ---------------------------------------------------------------------------
// Decoding
// ---------------------------------------------------------------------------

/// What decoding `n` questions one after the other from offset `cur` of the
/// message yields: the questions and the offset just past them.
pub open spec fn spec_queries_at(pkt: Seq<u8>, cur: int, n: nat) -> Option<(Seq<QueryView>, int)>
    decreases n,
{
    if n == 0 {
        Some((Seq::<QueryView>::empty(), cur))
    } else {
        match spec_query_parse(pkt, pkt, cur) {
            None => None,
            Some((q, c)) => match spec_queries_at(pkt, cur + c, (n - 1) as nat) {
                None => None,
                Some((qs, end)) => Some((seq![q] + qs, end)),
            },
        }
    }
}

/// What decoding `n` resource records one after the other from offset `cur`
/// of the message yields: the records and the offset just past them.
pub open spec fn spec_answers_at(pkt: Seq<u8>, cur: int, n: nat) -> Option<(Seq<AnswerView>, int)>
    decreases n,
{
    if n == 0 {
        Some((Seq::<AnswerView>::empty(), cur))
    } else {
        match spec_answer_parse(pkt, pkt, cur) {
            None => None,
            Some((a, c)) => match spec_answers_at(pkt, cur + c, (n - 1) as nat) {
                None => None,
                Some((as_, end)) => Some((seq![a] + as_, end)),
            },
        }
    }
}

/// What decoding a whole message yields: the header, then exactly as many
/// questions and records as its four counts say, and the offset just past
/// the last record.
pub open spec fn spec_packet_parse(b: Seq<u8>) -> Option<(PacketView, int)> {
    if b.len() < 12 {
        None
    } else {
        let h = spec_header_of(b);
        match spec_queries_at(b, 12, h.questions_count as nat) {
            None => None,
            Some((qs, p1)) => match spec_answers_at(b, p1, h.answers_count as nat) {
                None => None,
                Some((ans, p2)) => match spec_answers_at(b, p2, h.authority_count as nat) {
                    None => None,
                    Some((auth, p3)) => match spec_answers_at(b, p3, h.additional_count as nat) {
                        None => None,
                        Some((add, p4)) => Some(
                            (
                                PacketView {
                                    header: h,
                                    queries: qs,
                                    answers: ans,
                                    authority: auth,
                                    additional: add,
                                },
                                p4,
                            ),
                        ),
                    },
                },
            },
        }
    }
}

// ---------------------------------------------------------------------------
// Encoding
// ---------------------------------------------------------------------------

/// The wire form of a run of questions, one after the other.
pub open spec fn spec_queries_bytes(qs: Seq<QueryView>) -> Seq<u8>
    decreases qs.len(),
{
    if qs.len() == 0 {
        Seq::<u8>::empty()
    } else {
        spec_query_bytes(qs[0]) + spec_queries_bytes(qs.drop_first())
    }
}

/// The wire form of a run of resource records, one after the other.
pub open spec fn spec_answers_bytes(as_: Seq<AnswerView>) -> Seq<u8>
    decreases as_.len(),
{
    if as_.len() == 0 {
        Seq::<u8>::empty()
    } else {
        spec_answer_bytes(as_[0]) + spec_answers_bytes(as_.drop_first())
    }
}

/// The header as written: its four counts forced to the section lengths.
pub open spec fn spec_normalized_header(v: PacketView) -> DnsHeader {
    DnsHeader {
        questions_count: v.queries.len() as u16,
        answers_count: v.answers.len() as u16,
        authority_count: v.authority.len() as u16,
        additional_count: v.additional.len() as u16,
        ..v.header
    }
}

/// The wire form of a whole message: the header with its counts forced to
/// the section lengths, then each section in order, names uncompressed.
pub open spec fn spec_packet_bytes(v: PacketView) -> Seq<u8> {
    spec_header_bytes(spec_normalized_header(v)) + spec_queries_bytes(v.queries)
        + spec_answers_bytes(v.answers) + spec_answers_bytes(v.authority) + spec_answers_bytes(
        v.additional,
    )
}

/// A question whose name the encoder accepts.
pub open spec fn query_text_ok(q: DnsQuery) -> bool {
    chars_in_byte_range(q.name@) && name_sendable(q@.name)
}

/// A record whose owner name the encoder accepts.
pub open spec fn answer_text_ok(a: DnsAnswer) -> bool {
    chars_in_byte_range(a.name@) && name_sendable(a@.name)
}

/// A message the encoder accepts: each section fits its 16-bit count and
/// every name in it can be written on the wire.
pub open spec fn packet_sendable(p: DnsPacket) -> bool {
    &&& p.queries@.len() <= 0xffff
    &&& p.answers@.len() <= 0xffff
    &&& p.authority@.len() <= 0xffff
    &&& p.additional@.len() <= 0xffff
    &&& forall|i: int| 0 <= i < p.queries@.len() ==> query_text_ok(#[trigger] p.queries@[i])
    &&& forall|i: int| 0 <= i < p.answers@.len() ==> answer_text_ok(#[trigger] p.answers@[i])
    &&& forall|i: int| 0 <= i < p.authority@.len() ==> answer_text_ok(#[trigger] p.authority@[i])
    &&& forall|i: int|
        0 <= i < p.additional@.len() ==> answer_text_ok(#[trigger] p.additional@[i])
}

/// Appending one question extends the section's wire form at its end.
pub proof fn lemma_queries_bytes_snoc(qs: Seq<QueryView>, q: QueryView)
    ensures
        spec_queries_bytes(qs + seq![q]) =~= spec_queries_bytes(qs) + spec_query_bytes(q),
    decreases qs.len(),
{
    let w = qs + seq![q];
    if qs.len() == 0 {
        assert(w.drop_first() =~= Seq::<QueryView>::empty());
        assert(w[0] == q);
        assert(spec_queries_bytes(w.drop_first()) =~= Seq::<u8>::empty());
        assert(spec_queries_bytes(w) =~= spec_query_bytes(q) + Seq::<u8>::empty());
        assert(spec_queries_bytes(w) =~= spec_query_bytes(q));
        assert(spec_queries_bytes(qs) =~= Seq::<u8>::empty());
        assert(spec_queries_bytes(qs) + spec_query_bytes(q) =~= spec_query_bytes(q));
    } else {
        lemma_queries_bytes_snoc(qs.drop_first(), q);
        assert(w.drop_first() =~= qs.drop_first() + seq![q]);
        assert(w[0] == qs[0]);
        assert(spec_queries_bytes(w) =~= spec_query_bytes(qs[0]) + (spec_queries_bytes(
            qs.drop_first(),
        ) + spec_query_bytes(q)));
        assert(spec_queries_bytes(w) =~= spec_queries_bytes(qs) + spec_query_bytes(q));
    }
}

/// Appending one record extends the section's wire form at its end.
pub proof fn lemma_answers_bytes_snoc(as_: Seq<AnswerView>, a: AnswerView)
    ensures
        spec_answers_bytes(as_ + seq![a]) =~= spec_answers_bytes(as_) + spec_answer_bytes(a),
    decreases as_.len(),
{
    let w = as_ + seq![a];
    if as_.len() == 0 {
        assert(w.drop_first() =~= Seq::<AnswerView>::empty());
        assert(w[0] == a);
        assert(spec_answers_bytes(w.drop_first()) =~= Seq::<u8>::empty());
        assert(spec_answers_bytes(w) =~= spec_answer_bytes(a) + Seq::<u8>::empty());
        assert(spec_answers_bytes(w) =~= spec_answer_bytes(a));
        assert(spec_answers_bytes(as_) =~= Seq::<u8>::empty());
        assert(spec_answers_bytes(as_) + spec_answer_bytes(a) =~= spec_answer_bytes(a));
    } else {
        lemma_answers_bytes_snoc(as_.drop_first(), a);
        assert(w.drop_first() =~= as_.drop_first() + seq![a]);
        assert(w[0] == as_[0]);
        assert(spec_answers_bytes(w) =~= spec_answer_bytes(as_[0]) + (spec_answers_bytes(
            as_.drop_first(),
        ) + spec_answer_bytes(a)));
        assert(spec_answers_bytes(w) =~= spec_answers_bytes(as_) + spec_answer_bytes(a));
    }
}

impl DnsPacket {
    /// A message whose header fields are all zero and whose sections are
    /// empty.
    pub fn new() -> (r: Self)
        ensures
            r@.header == crate::header::spec_default_header(),
            r@.queries == Seq::<QueryView>::empty(),
            r@.answers == Seq::<AnswerView>::empty(),
            r@.authority == Seq::<AnswerView>::empty(),
            r@.additional == Seq::<AnswerView>::empty(),
    {
        let r = DnsPacket {
            header: DnsHeader::new(),
            queries: Vec::new(),
            answers: Vec::new(),
            authority: Vec::new(),
            additional: Vec::new(),
        };
        proof {
            assert(r@.queries =~= Seq::<QueryView>::empty());
            assert(r@.answers =~= Seq::<AnswerView>::empty());
            assert(r@.authority =~= Seq::<AnswerView>::empty());
            assert(r@.additional =~= Seq::<AnswerView>::empty());
        }
        r
    }

    /// An empty message marked as a response.
    pub fn new_response() -> (r: Self)
        ensures
            r@.header == (DnsHeader { is_response: true, ..crate::header::spec_default_header() }),
            r@.queries == Seq::<QueryView>::empty(),
            r@.answers == Seq::<AnswerView>::empty(),
            r@.authority == Seq::<AnswerView>::empty(),
            r@.additional == Seq::<AnswerView>::empty(),
    {
        let mut packet = DnsPacket::new();
        packet.header.is_response = true;
        packet
    }

    /// An empty response carrying the given response code.
    pub fn new_error(err: ResponseCode) -> (r: Self)
        ensures
            r@.header == (DnsHeader {
                is_response: true,
                response_code: err,
                ..crate::header::spec_default_header()
            }),
            r@.queries == Seq::<QueryView>::empty(),
            r@.answers == Seq::<AnswerView>::empty(),
            r@.authority == Seq::<AnswerView>::empty(),
            r@.additional == Seq::<AnswerView>::empty(),
    {
        let mut packet = DnsPacket::new_response();
        packet.header.response_code = err;
        packet
    }
}

impl DnsPacket {
    /// The response to a datagram that would not decode: an empty response
    /// with the format-error code, echoing the transaction id when its two
    /// octets are there to read.
    pub fn format_error_response(bytes: &[u8]) -> (r: DnsPacket)
        ensures
            r@.header == (DnsHeader {
                is_response: true,
                response_code: ResponseCode::FormatError,
                tx_id: if bytes@.len() >= 2 {
                    crate::serialization::spec_u16_of(bytes@[0], bytes@[1])
                } else {
                    0
                },
                ..crate::header::spec_default_header()
            }),
            r@.queries.len() == 0,
            r@.answers.len() == 0,
            r@.authority.len() == 0,
            r@.additional.len() == 0,
    {
        let mut packet = DnsPacket::new_error(ResponseCode::FormatError);
        if bytes.len() >= 2 {
            packet.header.tx_id = crate::serialization::read_u16(bytes, 0);
        }
        packet
    }
}

impl FromBytes for DnsPacket {
    /// Decodes a whole message: the header, then exactly as many questions
    /// and records as the header's counts say. Fails on a short buffer or
    /// any malformed name or record.
    fn from_bytes(bytes: &[u8]) -> (r: Result<(Self, usize), ()>)
        ensures
            (r is Ok) == (spec_packet_parse(bytes@) is Some),
            r matches Ok((p, n)) ==> spec_packet_parse(bytes@) == Some((p@, n as int)),
    {
        let ghost buf = bytes@;
        let blen = bytes.len();
        let (header, _) = match DnsHeader::from_bytes(bytes) {
            Ok(t) => t,
            Err(()) => {
                return Err(());
            },
        };
        let mut pos: usize = 12;
        let mut queries: Vec<DnsQuery> = Vec::new();
        let mut k: u16 = 0;
        let ghost total = header.questions_count as nat;
        proof {
            assert(queries@.map_values(|q: DnsQuery| q@) =~= Seq::<QueryView>::empty());
            assert(Seq::<QueryView>::empty() + spec_queries_at(buf, 12, total)->Some_0.0
                =~= spec_queries_at(buf, 12, total)->Some_0.0);
        }
        while k < header.questions_count
            invariant
                buf == bytes@,
                blen == buf.len(),
                blen >= 12,
                header == spec_header_of(buf),
                total == header.questions_count as nat,
                k <= header.questions_count,
                pos <= blen,
                queries@.len() == k as int,
                spec_queries_at(buf, 12, total) == match spec_queries_at(
                    buf,
                    pos as int,
                    (total - k as nat) as nat,
                ) {
                    Some((rest, end)) => Some(
                        (queries@.map_values(|q: DnsQuery| q@) + rest, end),
                    ),
                    None => None::<(Seq<QueryView>, int)>,
                },
            decreases header.questions_count - k,
        {
            let (q, c) = match DnsQuery::from_bytes_at(bytes, bytes, pos) {
                Ok(t) => t,
                Err(()) => {
                    return Err(());
                },
            };
            let ghost old_views = queries@.map_values(|q: DnsQuery| q@);
            queries.push(q);
            proof {
                let views = queries@.map_values(|q: DnsQuery| q@);
                assert(views =~= old_views + seq![queries@.last()@]);
                let next = spec_queries_at(buf, pos + c, (total - k as nat - 1) as nat);
                if next is Some {
                    assert(old_views + (seq![queries@.last()@] + next->Some_0.0) =~= views
                        + next->Some_0.0);
                }
            }
            pos = pos + c;
            k = k + 1;
        }
        proof {
            assert(spec_queries_at(buf, pos as int, 0) == Some(
                (Seq::<QueryView>::empty(), pos as int),
            ));
            assert(queries@.map_values(|q: DnsQuery| q@) + Seq::<QueryView>::empty()
                =~= queries@.map_values(|q: DnsQuery| q@));
        }
        let (answers, pos2) = match Self::read_records(bytes, pos, header.answers_count) {
            Ok(t) => t,
            Err(()) => {
                return Err(());
            },
        };
        let (authority, pos3) = match Self::read_records(bytes, pos2, header.authority_count) {
            Ok(t) => t,
            Err(()) => {
                return Err(());
            },
        };
        let (additional, pos4) = match Self::read_records(bytes, pos3, header.additional_count) {
            Ok(t) => t,
            Err(()) => {
                return Err(());
            },
        };
        let packet = DnsPacket { header, queries, answers, authority, additional };
        Ok((packet, pos4))
    }
}

impl DnsPacket {
    /// Decodes `count` records one after the other from offset `pos` of the
    /// message, returning them and the offset just past them.
    fn read_records(bytes: &[u8], pos: usize, count: u16) -> (r: Result<(Vec<DnsAnswer>, usize), ()>)
        requires
            pos <= bytes@.len(),
        ensures
            (r is Ok) == (spec_answers_at(bytes@, pos as int, count as nat) is Some),
            r matches Ok((v, end)) ==> spec_answers_at(bytes@, pos as int, count as nat) == Some(
                (v@.map_values(|a: DnsAnswer| a@), end as int),
            ) && end <= bytes@.len(),
    {
        let ghost buf = bytes@;
        let blen = bytes.len();
        let mut records: Vec<DnsAnswer> = Vec::new();
        let mut p = pos;
        let mut k: u16 = 0;
        let ghost total = count as nat;
        proof {
            assert(records@.map_values(|a: DnsAnswer| a@) =~= Seq::<AnswerView>::empty());
            if spec_answers_at(buf, pos as int, total) is Some {
                assert(Seq::<AnswerView>::empty() + spec_answers_at(buf, pos as int, total)->Some_0.0
                    =~= spec_answers_at(buf, pos as int, total)->Some_0.0);
            }
        }
        while k < count
            invariant
                buf == bytes@,
                blen == buf.len(),
                total == count as nat,
                k <= count,
                p <= blen,
                spec_answers_at(buf, pos as int, total) == match spec_answers_at(
                    buf,
                    p as int,
                    (total - k as nat) as nat,
                ) {
                    Some((rest, end)) => Some(
                        (records@.map_values(|a: DnsAnswer| a@) + rest, end),
                    ),
                    None => None::<(Seq<AnswerView>, int)>,
                },
            decreases count - k,
        {
            let (a, c) = match DnsAnswer::from_bytes_at(bytes, bytes, p) {
                Ok(t) => t,
                Err(()) => {
                    return Err(());
                },
            };
            let ghost old_views = records@.map_values(|a: DnsAnswer| a@);
            records.push(a);
            proof {
                let views = records@.map_values(|a: DnsAnswer| a@);
                assert(views =~= old_views + seq![records@.last()@]);
                let next = spec_answers_at(buf, p + c, (total - k as nat - 1) as nat);
                if next is Some {
                    assert(old_views + (seq![records@.last()@] + next->Some_0.0) =~= views
                        + next->Some_0.0);
                }
            }
            p = p + c;
            k = k + 1;
        }
        proof {
            assert(spec_answers_at(buf, p as int, 0) == Some(
                (Seq::<AnswerView>::empty(), p as int),
            ));
            assert(records@.map_values(|a: DnsAnswer| a@) + Seq::<AnswerView>::empty()
                =~= records@.map_values(|a: DnsAnswer| a@));
        }
        Ok((records, p))
    }

    /// Writes one record section after `out`.
    fn write_records(out: &mut Vec<u8>, records: &Vec<DnsAnswer>) -> (r: Result<(), ()>)
        ensures
            (r is Ok) == (forall|i: int|
                0 <= i < records@.len() ==> answer_text_ok(#[trigger] records@[i])),
            r is Ok ==> final(out)@ == old(out)@ + spec_answers_bytes(
                records@.map_values(|a: DnsAnswer| a@),
            ),
    {
        let ghost base = out@;
        let mut i: usize = 0;
        proof {
            assert(records@.take(0).map_values(|a: DnsAnswer| a@) =~= Seq::<AnswerView>::empty());
            assert(base + Seq::<u8>::empty() =~= base);
            assert(spec_answers_bytes(Seq::<AnswerView>::empty()) == Seq::<u8>::empty());
        }
        while i < records.len()
            invariant
                base == old(out)@,
                i <= records@.len(),
                forall|j: int| 0 <= j < i ==> answer_text_ok(#[trigger] records@[j]),
                out@ == base + spec_answers_bytes(records@.take(i as int).map_values(|a: DnsAnswer| a@)),
            decreases records@.len() - i,
        {
            let mut part = match records[i].to_bytes() {
                Ok(v) => v,
                Err(()) => {
                    return Err(());
                },
            };
            out.append(&mut part);
            proof {
                let prev = records@.take(i as int).map_values(|a: DnsAnswer| a@);
                let now = records@.take(i + 1).map_values(|a: DnsAnswer| a@);
                assert(now =~= prev + seq![records@[i as int]@]);
                lemma_answers_bytes_snoc(prev, records@[i as int]@);
                assert(out@ =~= base + spec_answers_bytes(now));
            }
            i = i + 1;
        }
        proof {
            assert(records@.take(records@.len() as int) =~= records@);
        }
        Ok(())
    }

    /// Writes the whole message: the header with its counts forced to the
    /// section lengths, then each section in order, names uncompressed.
    /// Fails if a section outgrows its 16-bit count or a name cannot be
    /// written.
    pub fn to_bytes(&self) -> (r: Result<Vec<u8>, ()>)
        ensures
            (r is Ok) == packet_sendable(*self),
            r matches Ok(v) ==> v@ == spec_packet_bytes(self@),
    {
        if self.queries.len() > 0xffff || self.answers.len() > 0xffff || self.authority.len()
            > 0xffff || self.additional.len() > 0xffff {
            return Err(());
        }
        let header = DnsHeader {
            questions_count: self.queries.len() as u16,
            answers_count: self.answers.len() as u16,
            authority_count: self.authority.len() as u16,
            additional_count: self.additional.len() as u16,
            ..self.header
        };
        let mut out = header.to_bytes();
        let ghost after_header = out@;
        proof {
            assert(header == spec_normalized_header(self@));
        }
        let mut i: usize = 0;
        proof {
            assert(self.queries@.take(0).map_values(|q: DnsQuery| q@) =~= Seq::<
                QueryView,
            >::empty());
            assert(after_header + Seq::<u8>::empty() =~= after_header);
            assert(spec_queries_bytes(Seq::<QueryView>::empty()) == Seq::<u8>::empty());
        }
        while i < self.queries.len()
            invariant
                after_header == spec_header_bytes(spec_normalized_header(self@)),
                i <= self.queries@.len(),
                forall|j: int| 0 <= j < i ==> query_text_ok(#[trigger] self.queries@[j]),
                out@ == after_header + spec_queries_bytes(
                    self.queries@.take(i as int).map_values(|q: DnsQuery| q@),
                ),
            decreases self.queries@.len() - i,
        {
            let mut part = match self.queries[i].to_bytes() {
                Ok(v) => v,
                Err(()) => {
                    return Err(());
                },
            };
            out.append(&mut part);
            proof {
                let prev = self.queries@.take(i as int).map_values(|q: DnsQuery| q@);
                let now = self.queries@.take(i + 1).map_values(|q: DnsQuery| q@);
                assert(now =~= prev + seq![self.queries@[i as int]@]);
                lemma_queries_bytes_snoc(prev, self.queries@[i as int]@);
                assert(out@ =~= after_header + spec_queries_bytes(now));
            }
            i = i + 1;
        }
        proof {
            assert(self.queries@.take(self.queries@.len() as int) =~= self.queries@);
        }
        match Self::write_records(&mut out, &self.answers) {
            Ok(()) => (),
            Err(()) => {
                return Err(());
            },
        }
        match Self::write_records(&mut out, &self.authority) {
            Ok(()) => (),
            Err(()) => {
                return Err(());
            },
        }
        match Self::write_records(&mut out, &self.additional) {
            Ok(()) => (),
            Err(()) => {
                return Err(());
            },
        }
        proof {
            assert(out@ =~= spec_packet_bytes(self@));
        }
        Ok(out)
    }
}

/// A decoded question section holds exactly as many questions as asked for.
proof fn lemma_queries_at_len(pkt: Seq<u8>, cur: int, n: nat)
    ensures
        spec_queries_at(pkt, cur, n) matches Some((qs, _)) ==> qs.len() == n,
    decreases n,
{
    if n > 0 {
        match spec_query_parse(pkt, pkt, cur) {
            None => {},
            Some((q, c)) => {
                lemma_queries_at_len(pkt, cur + c, (n - 1) as nat);
            },
        }
    }
}

/// A decoded record section holds exactly as many records as asked for.
proof fn lemma_answers_at_len(pkt: Seq<u8>, cur: int, n: nat)
    ensures
        spec_answers_at(pkt, cur, n) matches Some((as_, _)) ==> as_.len() == n,
    decreases n,
{
    if n > 0 {
        match spec_answer_parse(pkt, pkt, cur) {
            None => {},
            Some((a, c)) => {
                lemma_answers_at_len(pkt, cur + c, (n - 1) as nat);
            },
        }
    }
}

/// A decoded message's four header counts equal its section lengths.
pub proof fn lemma_decoded_counts_match(b: Seq<u8>)
    ensures
        spec_packet_parse(b) matches Some((v, _)) ==> v.queries.len()
            == v.header.questions_count && v.answers.len() == v.header.answers_count
            && v.authority.len() == v.header.authority_count && v.additional.len()
            == v.header.additional_count,
{
    if b.len() >= 12 {
        let h = spec_header_of(b);
        lemma_queries_at_len(b, 12, h.questions_count as nat);
        match spec_queries_at(b, 12, h.questions_count as nat) {
            None => {},
            Some((_, p1)) => {
                lemma_answers_at_len(b, p1, h.answers_count as nat);
                match spec_answers_at(b, p1, h.answers_count as nat) {
                    None => {},
                    Some((_, p2)) => {
                        lemma_answers_at_len(b, p2, h.authority_count as nat);
                        match spec_answers_at(b, p2, h.authority_count as nat) {
                            None => {},
                            Some((_, p3)) => {
                                lemma_answers_at_len(b, p3, h.additional_count as nat);
                            },
                        }
                    },
                }
            },
        }
    }
}

/// A message whose wire form decodes back to it: in-range header fields,
/// counts that equal the section lengths, sendable question names, and
/// well-formed records throughout.
pub open spec fn packet_view_wf(v: PacketView) -> bool {
    &&& v.header.opcode < 16
    &&& v.header.z < 8
    &&& v.header.questions_count == v.queries.len()
    &&& v.header.answers_count == v.answers.len()
    &&& v.header.authority_count == v.authority.len()
    &&& v.header.additional_count == v.additional.len()
    &&& forall|i: int|
        0 <= i < v.queries.len() ==> name_sendable((#[trigger] v.queries[i]).name) && v.queries[
            i
        ].qtype.spec_canonical()
    &&& forall|i: int| 0 <= i < v.answers.len() ==> answer_view_wf(#[trigger] v.answers[i])
    &&& forall|i: int| 0 <= i < v.authority.len() ==> answer_view_wf(#[trigger] v.authority[i])
    &&& forall|i: int| 0 <= i < v.additional.len() ==> answer_view_wf(#[trigger] v.additional[i])
}

/// Round trip for a question section standing at offset `cur`.
proof fn lemma_queries_section_round_trip(b: Seq<u8>, cur: int, qs: Seq<QueryView>)
    requires
        forall|i: int|
            0 <= i < qs.len() ==> name_sendable((#[trigger] qs[i]).name)
                && qs[i].qtype.spec_canonical(),
        0 <= cur,
        cur + spec_queries_bytes(qs).len() <= b.len(),
        b.subrange(cur, cur + spec_queries_bytes(qs).len() as int) == spec_queries_bytes(qs),
    ensures
        spec_queries_at(b, cur, qs.len() as nat) == Some(
            (qs, cur + spec_queries_bytes(qs).len() as int),
        ),
    decreases qs.len(),
{
    if qs.len() == 0 {
        assert(spec_queries_at(b, cur, 0) == Some((Seq::<QueryView>::empty(), cur)));
        assert(qs =~= Seq::<QueryView>::empty());
    } else {
        let w = spec_queries_bytes(qs);
        let w0 = spec_query_bytes(qs[0]);
        let wr = spec_queries_bytes(qs.drop_first());
        assert(w =~= w0 + wr);
        assert(forall|k: int| 0 <= k < w.len() ==> b[cur + k] == #[trigger] w[k]) by {
            assert(forall|k: int|
                0 <= k < w.len() ==> b.subrange(cur, cur + w.len() as int)[k] == #[trigger] w[k]);
        }
        assert(b.subrange(cur, cur + w0.len() as int) =~= w0);
        crate::query::lemma_query_round_trip(b, b, cur, qs[0]);
        assert(forall|i: int|
            0 <= i < qs.drop_first().len() ==> name_sendable((#[trigger] qs.drop_first()[i]).name)
                && qs.drop_first()[i].qtype.spec_canonical()) by {
            assert(forall|i: int|
                0 <= i < qs.drop_first().len() ==> #[trigger] qs.drop_first()[i] == qs[i + 1]);
        }
        assert(b.subrange(cur + w0.len() as int, cur + w0.len() as int + wr.len() as int)
            =~= wr) by {
            assert forall|k: int|
                0 <= k < wr.len() implies b[cur + w0.len() + k] == #[trigger] wr[k] by {
                assert(w[w0.len() + k] == wr[k]);
                assert(b[cur + (w0.len() + k)] == w[w0.len() + k]);
            }
        }
        lemma_queries_section_round_trip(b, cur + w0.len() as int, qs.drop_first());
        assert(seq![qs[0]] + qs.drop_first() =~= qs);
    }
}

/// Round trip for a record section standing at offset `cur`.
proof fn lemma_answers_section_round_trip(b: Seq<u8>, cur: int, as_: Seq<AnswerView>)
    requires
        forall|i: int| 0 <= i < as_.len() ==> answer_view_wf(#[trigger] as_[i]),
        0 <= cur,
        cur + spec_answers_bytes(as_).len() <= b.len(),
        b.subrange(cur, cur + spec_answers_bytes(as_).len() as int) == spec_answers_bytes(as_),
    ensures
        spec_answers_at(b, cur, as_.len() as nat) == Some(
            (as_, cur + spec_answers_bytes(as_).len() as int),
        ),
    decreases as_.len(),
{
    if as_.len() == 0 {
        assert(spec_answers_at(b, cur, 0) == Some((Seq::<AnswerView>::empty(), cur)));
        assert(as_ =~= Seq::<AnswerView>::empty());
    } else {
        let w = spec_answers_bytes(as_);
        let w0 = spec_answer_bytes(as_[0]);
        let wr = spec_answers_bytes(as_.drop_first());
        assert(w =~= w0 + wr);
        assert(forall|k: int| 0 <= k < w.len() ==> b[cur + k] == #[trigger] w[k]) by {
            assert(forall|k: int|
                0 <= k < w.len() ==> b.subrange(cur, cur + w.len() as int)[k] == #[trigger] w[k]);
        }
        assert(b.subrange(cur, cur + w0.len() as int) =~= w0);
        crate::answer::lemma_answer_round_trip(b, b, cur, as_[0]);
        assert(forall|i: int|
            0 <= i < as_.drop_first().len() ==> answer_view_wf(#[trigger] as_.drop_first()[i])) by {
            assert(forall|i: int|
                0 <= i < as_.drop_first().len() ==> #[trigger] as_.drop_first()[i] == as_[i + 1]);
        }
        assert(b.subrange(cur + w0.len() as int, cur + w0.len() as int + wr.len() as int)
            =~= wr) by {
            assert forall|k: int|
                0 <= k < wr.len() implies b[cur + w0.len() + k] == #[trigger] wr[k] by {
                assert(w[w0.len() + k] == wr[k]);
                assert(b[cur + (w0.len() + k)] == w[w0.len() + k]);
            }
        }
        lemma_answers_section_round_trip(b, cur + w0.len() as int, as_.drop_first());
        assert(seq![as_[0]] + as_.drop_first() =~= as_);
    }
}

/// The wire form of a message splits at the section boundaries: its first
/// twelve octets are the written header's, and each section's octets stand
/// in order after them.
#[verifier::rlimit(100)]
proof fn lemma_packet_bytes_sections(v: PacketView)
    ensures
        ({
            let b = spec_packet_bytes(v);
            let hb = spec_header_bytes(spec_normalized_header(v));
            let qw = spec_queries_bytes(v.queries);
            let aw = spec_answers_bytes(v.answers);
            let uw = spec_answers_bytes(v.authority);
            let dw = spec_answers_bytes(v.additional);
            let p1 = 12 + qw.len() as int;
            let p2 = p1 + aw.len() as int;
            let p3 = p2 + uw.len() as int;
            let p4 = p3 + dw.len() as int;
            &&& b.len() == p4
            &&& b.subrange(0, 12) == hb
            &&& b.subrange(12, p1) == qw
            &&& b.subrange(p1, p2) == aw
            &&& b.subrange(p2, p3) == uw
            &&& b.subrange(p3, p4) == dw
        }),
{
    let b = spec_packet_bytes(v);
    let hb = spec_header_bytes(spec_normalized_header(v));
    let qw = spec_queries_bytes(v.queries);
    let aw = spec_answers_bytes(v.answers);
    let uw = spec_answers_bytes(v.authority);
    let dw = spec_answers_bytes(v.additional);
    assert(hb.len() == 12);
    let p1 = 12 + qw.len() as int;
    let p2 = p1 + aw.len() as int;
    let p3 = p2 + uw.len() as int;
    let p4 = p3 + dw.len() as int;
    assert(b.subrange(0, 12) =~= hb);
    assert(b.subrange(12, p1) =~= qw);
    assert(b.subrange(p1, p2) =~= aw);
    assert(b.subrange(p2, p3) =~= uw);
    assert(b.subrange(p3, p4) =~= dw);
}

/// Round trip: a well-formed message decodes from its own wire form back to
/// itself, names re-emitted uncompressed, consuming the whole form.
#[verifier::rlimit(100)]
pub proof fn lemma_packet_round_trip(v: PacketView)
    requires
        packet_view_wf(v),
    ensures
        spec_packet_parse(spec_packet_bytes(v)) == Some((v, spec_packet_bytes(v).len() as int)),
{
    let b = spec_packet_bytes(v);
    let h = spec_normalized_header(v);
    let hb = spec_header_bytes(h);
    assert(h == v.header);
    let qw = spec_queries_bytes(v.queries);
    let aw = spec_answers_bytes(v.answers);
    let uw = spec_answers_bytes(v.authority);
    let dw = spec_answers_bytes(v.additional);
    assert(hb.len() == 12);
    lemma_packet_bytes_sections(v);
    crate::header::lemma_header_round_trip(h);
    assert(spec_header_of(b) == h) by {
        assert(forall|k: int| 0 <= k < 12 ==> b[k] == #[trigger] b.subrange(0, 12)[k]);
        assert(b[0] == hb[0] && b[1] == hb[1] && b[2] == hb[2] && b[3] == hb[3] && b[4] == hb[4]
            && b[5] == hb[5] && b[6] == hb[6] && b[7] == hb[7] && b[8] == hb[8] && b[9] == hb[9]
            && b[10] == hb[10] && b[11] == hb[11]);
        assert(spec_header_of(hb) == h);
    }
    let p1 = 12 + qw.len() as int;
    let p2 = p1 + aw.len() as int;
    let p3 = p2 + uw.len() as int;
    lemma_queries_section_round_trip(b, 12, v.queries);
    lemma_answers_section_round_trip(b, p1, v.answers);
    lemma_answers_section_round_trip(b, p2, v.authority);
    lemma_answers_section_round_trip(b, p3, v.additional);
    assert(spec_packet_parse(b)->Some_0.0 =~~= v);
}

} // verus!
