//! The query pipeline: classifies a decoded request by opcode and question
//! count, then answers from the cache, rejects too-short names, drops
//! blocked names, answers from the authoritative zones, or hands the
//! request out for recursion.

use vstd::prelude::*;
use vstd::string::StrSliceExecFns;
use crate::answer::{AnswerView, DnsAnswer};
use crate::authority::{authority_wf, record_matches, Authority};
use crate::blocklist::{is_blocked, spec_blocked};
use crate::cache::{cache_capacity, cache_entries, cache_get, cache_insert, cache_new, Cache};
use crate::header::{spec_default_header, DnsHeader, ResourceType, ResponseCode};
use crate::packet::{DnsPacket, PacketView};
use crate::query::DnsQuery;
use crate::record::{record_wf, spec_record_rdata, Record};
use crate::serialization::str_bytes;

verus! {

/// What the pipeline decides for one request.
#[derive(Debug)]
pub enum Resolution {
    /// Send this response back.
    Answer(DnsPacket),
    /// No local source answers: resolve this request iteratively, starting
    /// from the configured root, and send back the result with the
    /// request's transaction id.
    Recurse(DnsPacket),
}

/// The pipeline's state: the answer cache, the blocklist as validated
/// entries of a stripped domain and a wildcard mark, and the authoritative
/// zones.
pub struct DnsClient {
    pub cache: Cache,
    pub blocklist: Vec<(String, bool)>,
    pub authorities: Vec<Authority>,
}

/// Every configured zone is well formed.
pub open spec fn client_wf(c: DnsClient) -> bool {
    forall|i: int| 0 <= i < c.authorities@.len() ==> authority_wf(#[trigger] c.authorities@[i])
}

/// An empty not-implemented response: marked as a response, the
/// not-implemented code, all sections empty.
pub open spec fn not_implemented_view(p: PacketView) -> bool {
    &&& p.header == (DnsHeader {
        is_response: true,
        response_code: ResponseCode::NotImplemented,
        ..spec_default_header()
    })
    &&& p.queries.len() == 0
    &&& p.answers.len() == 0
    &&& p.authority.len() == 0
    &&& p.additional.len() == 0
}

/// The request echoed as a response with the not-implemented code.
pub open spec fn notimpl_echo_view(reqv: PacketView) -> PacketView {
    PacketView {
        header: DnsHeader {
            is_response: true,
            response_code: ResponseCode::NotImplemented,
            ..reqv.header
        },
        ..reqv
    }
}

/// The request echoed as a response with the name-error code.
pub open spec fn name_error_view(reqv: PacketView) -> PacketView {
    PacketView {
        header: DnsHeader {
            is_response: true,
            response_code: ResponseCode::NameError,
            ..reqv.header
        },
        ..reqv
    }
}

/// The request echoed as a response whose answer section holds the cached
/// record.
pub open spec fn cached_response_view(reqv: PacketView, a: DnsAnswer) -> PacketView {
    PacketView {
        header: DnsHeader { is_response: true, answers_count: 1, ..reqv.header },
        answers: seq![a@],
        ..reqv
    }
}

/// The answer record synthesised from a zone record: the question's name
/// and type, the IN class, the record's time to live, and the rdata its
/// data yields.
pub open spec fn zone_answer_view(q: DnsQuery, rec: Record) -> AnswerView {
    AnswerView {
        name: str_bytes(q.name@),
        qtype: q.qtype,
        class: 1,
        ttl: rec.ttl,
        data_length: spec_record_rdata(rec.data)->Some_0.len() as u16,
        rdata: spec_record_rdata(rec.data)->Some_0,
    }
}

/// The authoritative response: a fresh response carrying the request's
/// transaction id and question, marked authoritative, with the one
/// synthesised answer.
pub open spec fn zone_response_view(reqv: PacketView, q: DnsQuery, rec: Record) -> PacketView {
    PacketView {
        header: DnsHeader {
            is_response: true,
            authoritative: true,
            answers_count: 1,
            questions_count: 1,
            tx_id: reqv.header.tx_id,
            ..spec_default_header()
        },
        queries: reqv.queries,
        answers: seq![zone_answer_view(q, rec)],
        authority: Seq::<AnswerView>::empty(),
        additional: Seq::<AnswerView>::empty(),
    }
}

/// The record at `(i, j)` of the zones answers the question.
pub open spec fn zone_match_at(c: DnsClient, q: DnsQuery, i: int, j: int) -> bool {
    &&& 0 <= i < c.authorities@.len()
    &&& 0 <= j < c.authorities@[i].records@.len()
    &&& record_matches(c.authorities@[i].records@[j], c.authorities@[i].origin@, q.name@, q.qtype)
}

/// Some zone record answers the question.
pub open spec fn zone_has_match(c: DnsClient, q: DnsQuery) -> bool {
    exists|i: int, j: int| zone_match_at(c, q, i, j)
}

/// The record at `(i, j)` is the first match in zone order, then record
/// order.
pub open spec fn zone_first_match(c: DnsClient, q: DnsQuery, i: int, j: int) -> bool {
    &&& zone_match_at(c, q, i, j)
    &&& forall|i2: int, j2: int| i2 < i ==> !zone_match_at(c, q, i2, j2)
    &&& forall|j2: int| j2 < j ==> !zone_match_at(c, q, i, j2)
}

/// The name holds a dot, so it has at least two labels.
pub open spec fn spec_name_has_dot(s: Seq<char>) -> bool {
    exists|i: int| 0 <= i < s.len() && s[i] == '.'
}

/// What the pipeline owes for a standard query of one question: a cache hit
/// is answered from the cache; otherwise a name of fewer than two labels is
/// a name error, a blocked name is dropped, a zone match is answered
/// authoritatively from the first matching record, and anything else goes
/// to recursion unchanged.
pub open spec fn standard_post(
    c: DnsClient,
    req: DnsPacket,
    q: DnsQuery,
    r: Result<Resolution, ()>,
) -> bool {
    ||| (cache_entries(c.cache).dom().contains(q) && (r matches Ok(Resolution::Answer(p)) && p@
        == cached_response_view(req@, cache_entries(c.cache)[q])))
    ||| if !spec_name_has_dot(q.name@) {
        r matches Ok(Resolution::Answer(p)) && p@ == name_error_view(req@)
    } else if spec_blocked(c.blocklist@, q.name@) {
        r is Err
    } else if zone_has_match(c, q) {
        r matches Ok(Resolution::Answer(p)) && exists|i: int, j: int|
            #[trigger] zone_first_match(c, q, i, j) && p@ == zone_response_view(
                req@,
                q,
                c.authorities@[i].records@[j],
            )
    } else {
        r matches Ok(Resolution::Recurse(p)) && p@ == req@
    }
}

/// What the pipeline owes for any request: a non-standard opcode is not
/// implemented, as is a question count other than one; a standard request
/// with one question follows the dispatch chain.
pub open spec fn results_post(c: DnsClient, req: DnsPacket, r: Result<Resolution, ()>) -> bool {
    if req.header.opcode != 0 {
        r matches Ok(Resolution::Answer(p)) && not_implemented_view(p@)
    } else if req.header.questions_count != 1 {
        r matches Ok(Resolution::Answer(p)) && p@ == notimpl_echo_view(req@)
    } else {
        standard_post(c, req, req.queries@[0], r)
    }
}

/// Whether the name holds a dot.
fn name_has_dot(s: &str) -> (r: bool)
    ensures
        r == spec_name_has_dot(s@),
{
    let n = s.unicode_len();
    let mut i: usize = 0;
    while i < n
        invariant
            i <= n,
            n == s@.len(),
            forall|k: int| 0 <= k < i ==> s@[k] != '.',
        decreases n - i,
    {
        if s.get_char(i) == '.' {
            return true;
        }
        i = i + 1;
    }
    false
}

impl DnsClient {
    /// A pipeline over a fresh cache of the given capacity, the blocklist
    /// and the zones. Fails if any zone is not well formed: without one
    /// start-of-authority record each, or with a record whose data cannot
    /// be synthesised.
    pub fn new(capacity: usize, blocklist: Vec<(String, bool)>, authorities: Vec<
        Authority,
    >) -> (r: Result<DnsClient, ()>)
        ensures
            (r is Ok) == (forall|i: int|
                0 <= i < authorities@.len() ==> authority_wf(#[trigger] authorities@[i])),
            r matches Ok(c) ==> client_wf(c) && c.blocklist == blocklist && c.authorities
                == authorities && (forall|q: DnsQuery| !cache_entries(c.cache).dom().contains(q))
                && cache_capacity(c.cache) == capacity,
    {
        let mut i: usize = 0;
        while i < authorities.len()
            invariant
                i <= authorities@.len(),
                forall|j: int| 0 <= j < i ==> authority_wf(#[trigger] authorities@[j]),
            decreases authorities@.len() - i,
        {
            if !authorities[i].check_wf() {
                return Err(());
            }
            i = i + 1;
        }
        Ok(DnsClient { cache: cache_new(capacity), blocklist, authorities })
    }

    /// Stores an answer record in the cache under its question, to live for
    /// at most the given seconds, capped at 32 bits. The zones and the
    /// blocklist do not change; when the cache can hold anything at all the
    /// question now maps to the record, and any other cache entry either
    /// keeps its value or leaves.
    pub fn cache_put(&mut self, q: DnsQuery, a: DnsAnswer, ttl_secs: u64)
        requires
            ttl_secs <= 0xFFFF_FFFF,
        ensures
            final(self).blocklist == old(self).blocklist,
            final(self).authorities == old(self).authorities,
            cache_capacity(final(self).cache) == cache_capacity(old(self).cache),
            cache_capacity(old(self).cache) >= 1 ==> cache_entries(
                final(self).cache,
            ).dom().contains(q) && cache_entries(final(self).cache)[q] == a,
            forall|k: DnsQuery| #[trigger]
                cache_entries(final(self).cache).dom().contains(k) ==> (k == q && cache_entries(
                    final(self).cache,
                )[k] == a) || (cache_entries(old(self).cache).dom().contains(k) && cache_entries(
                    final(self).cache,
                )[k] == cache_entries(old(self).cache)[k]),
    {
        cache_insert(&mut self.cache, q, a, ttl_secs);
    }

    /// The first zone record answering the question, in zone order then
    /// record order.
    fn find_zone_match(&self, q: &DnsQuery) -> (r: Option<(usize, usize)>)
        ensures
            r matches Some((i, j)) ==> zone_first_match(*self, *q, i as int, j as int),
            r is None ==> !zone_has_match(*self, *q),
    {
        let mut i: usize = 0;
        while i < self.authorities.len()
            invariant
                i <= self.authorities@.len(),
                forall|i2: int, j2: int| 0 <= i2 < i ==> !zone_match_at(*self, *q, i2, j2),
            decreases self.authorities@.len() - i,
        {
            let auth = &self.authorities[i];
            let mut j: usize = 0;
            while j < auth.records.len()
                invariant
                    i < self.authorities@.len(),
                    auth == self.authorities@[i as int],
                    j <= auth.records@.len(),
                    forall|i2: int, j2: int| 0 <= i2 < i ==> !zone_match_at(*self, *q, i2, j2),
                    forall|j2: int| 0 <= j2 < j ==> !zone_match_at(*self, *q, i as int, j2),
                decreases auth.records@.len() - j,
            {
                if auth.record_matches_query(j, &q.name, &q.qtype) {
                    proof {
                        assert(zone_match_at(*self, *q, i as int, j as int));
                        assert forall|i2: int, j2: int| i2 < i as int implies !zone_match_at(
                            *self,
                            *q,
                            i2,
                            j2,
                        ) by {
                            if 0 <= i2 {
                                assert(!zone_match_at(*self, *q, i2, j2));
                            }
                        }
                        assert forall|j2: int| j2 < j as int implies !zone_match_at(
                            *self,
                            *q,
                            i as int,
                            j2,
                        ) by {
                            if 0 <= j2 {
                                assert(!zone_match_at(*self, *q, i as int, j2));
                            }
                        }
                    }
                    return Some((i, j));
                }
                j = j + 1;
            }
            proof {
                assert forall|j2: int| !zone_match_at(*self, *q, i as int, j2) by {
                    if 0 <= j2 < self.authorities@[i as int].records@.len() {
                    }
                }
            }
            i = i + 1;
        }
        proof {
            assert forall|i2: int, j2: int| !zone_match_at(*self, *q, i2, j2) by {
                if 0 <= i2 < self.authorities@.len() {
                }
            }
        }
        None
    }

    /// Decides one request: see `results_post`.
    pub fn results(&self, req: DnsPacket) -> (r: Result<Resolution, ()>)
        requires
            client_wf(*self),
            req.header.questions_count == 1 ==> req.queries@.len() >= 1,
        ensures
            results_post(*self, req, r),
    {
        if req.header.opcode != 0 {
            return Ok(Resolution::Answer(DnsPacket::new_error(ResponseCode::NotImplemented)));
        }
        self.standard_query(req)
    }

    /// Handles a standard query: see `standard_post`.
    fn standard_query(&self, req: DnsPacket) -> (r: Result<Resolution, ()>)
        requires
            client_wf(*self),
            req.header.questions_count == 1 ==> req.queries@.len() >= 1,
        ensures
            req.header.questions_count != 1 ==> (r matches Ok(Resolution::Answer(p)) && p@
                == notimpl_echo_view(req@)),
            req.header.questions_count == 1 ==> standard_post(*self, req, req.queries@[0], r),
    {
        let ghost reqv = req@;
        let mut res = req;
        if res.header.questions_count != 1 {
            res.header.response_code = ResponseCode::NotImplemented;
            res.header.is_response = true;
            proof {
                assert(res@ =~~= notimpl_echo_view(reqv));
            }
            return Ok(Resolution::Answer(res));
        }
        match cache_get(&self.cache, &res.queries[0]) {
            Some(a) => {
                let ghost av = a;
                res.header.is_response = true;
                res.header.answers_count = 1;
                res.answers = vec![a];
                proof {
                    assert(res@.answers =~= seq![av@]);
                    assert(res@ =~~= cached_response_view(reqv, av));
                }
                return Ok(Resolution::Answer(res));
            },
            None => {},
        }
        if !name_has_dot(res.queries[0].name.as_str()) {
            res.header.response_code = ResponseCode::NameError;
            res.header.is_response = true;
            proof {
                assert(res@ =~~= name_error_view(reqv));
            }
            return Ok(Resolution::Answer(res));
        }
        if is_blocked(&self.blocklist, &res.queries[0].name) {
            return Err(());
        }
        let found = self.find_zone_match(&res.queries[0]);
        match found {
            Some((i, j)) => {
                let rec = &self.authorities[i].records[j];
                proof {
                    assert(zone_match_at(*self, req.queries@[0], i as int, j as int));
                    assert(record_wf(self.authorities@[i as int].records@[j as int]));
                }
                let rdata = match rec.rdata_bytes() {
                    Ok(v) => v,
                    Err(()) => {
                        proof {
                            assert(false);
                        }
                        Vec::new()
                    },
                };
                let mut ans = DnsAnswer::new();
                ans.ttl = rec.ttl;
                ans.name = res.queries[0].name.clone();
                ans.qtype = res.queries[0].qtype;
                ans.data_length = rdata.len() as u16;
                ans.rdata = rdata;
                let ghost av = ans@;
                let mut out = DnsPacket::new_response();
                out.header.authoritative = true;
                out.header.answers_count = 1;
                out.header.questions_count = 1;
                out.header.tx_id = res.header.tx_id;
                out.answers = vec![ans];
                out.queries = res.queries;
                proof {
                    assert(out@.answers =~= seq![av]);
                    assert(av =~~= zone_answer_view(
                        req.queries@[0],
                        self.authorities@[i as int].records@[j as int],
                    ));
                    assert(out@ =~~= zone_response_view(
                        reqv,
                        req.queries@[0],
                        self.authorities@[i as int].records@[j as int],
                    ));
                    assert(zone_first_match(*self, req.queries@[0], i as int, j as int));
                }
                Ok(Resolution::Answer(out))
            },
            None => {
                proof {
                    assert(!zone_has_match(*self, req.queries@[0]));
                    assert(res@ =~~= reqv);
                }
                Ok(Resolution::Recurse(res))
            },
        }
    }
}

} // verus!
