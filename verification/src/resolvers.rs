//! The iterative resolver's per-hop decision: whether a response is
//! terminal, names the next server through an NS referral with glue, or
//! fails the resolution. The network loop around it performs the sending.

use vstd::prelude::*;
use crate::answer::{AnswerView, DnsAnswer};
use crate::header::ResourceType;
use crate::packet::DnsPacket;
use crate::query::DnsQuery;
use crate::serialization::{
    chars_in_byte_range, name_sendable, serialize_domain_to_bytes, spec_name_wire, str_bytes,
};

verus! {

/// What one resolver hop decides.
#[derive(Debug, PartialEq, Eq, Clone)]
pub enum ResolverStep {
    /// The response answers the question: return it.
    Answer,
    /// Follow the referral: query the server at this address next, the four
    /// or sixteen address octets of the glue record.
    Referral(Vec<u8>),
    /// No answer and no usable glue: the resolution fails.
    Fail,
}

/// A record answers the question: the same owner name and type.
pub open spec fn answers_question(a: DnsAnswer, q: DnsQuery) -> bool {
    a.name@ == q.name@ && a.qtype == q.qtype
}

/// The response carries an answer record matching the question.
pub open spec fn spec_has_matching_answer(p: DnsPacket, q: DnsQuery) -> bool {
    exists|i: int| 0 <= i < p.answers@.len() && answers_question(#[trigger] p.answers@[i], q)
}

/// A glue record for an NS record: an address record of full length whose
/// owner name, written on the wire, is the NS record's target.
pub open spec fn glue_matches(ns: DnsAnswer, g: DnsAnswer) -> bool {
    &&& (g.qtype == ResourceType::A && g.rdata@.len() == 4) || (g.qtype == ResourceType::AAAA
        && g.rdata@.len() == 16)
    &&& chars_in_byte_range(g.name@)
    &&& name_sendable(str_bytes(g.name@))
    &&& ns.rdata@ == spec_name_wire(str_bytes(g.name@))
}

/// The authority record at `i` is an NS record with glue at `j` of the
/// additional section.
pub open spec fn referral_at(p: DnsPacket, i: int, j: int) -> bool {
    &&& 0 <= i < p.authority@.len()
    &&& p.authority@[i].qtype == ResourceType::NS
    &&& 0 <= j < p.additional@.len()
    &&& glue_matches(p.authority@[i], p.additional@[j])
}

/// Some NS record of the response has glue.
pub open spec fn spec_has_referral(p: DnsPacket) -> bool {
    exists|i: int, j: int| referral_at(p, i, j)
}

/// The pair at `(i, j)` is the first referral: the first NS record in
/// authority order that has glue, with its first glue record in additional
/// order.
pub open spec fn first_referral(p: DnsPacket, i: int, j: int) -> bool {
    &&& referral_at(p, i, j)
    &&& forall|i2: int, j2: int| i2 < i ==> !referral_at(p, i2, j2)
    &&& forall|j2: int| j2 < j ==> !referral_at(p, i, j2)
}

/// Whether two octet runs hold the same octets.
fn bytes_eq(a: &Vec<u8>, b: &Vec<u8>) -> (r: bool)
    ensures
        r == (a@ == b@),
{
    if a.len() != b.len() {
        return false;
    }
    let mut i: usize = 0;
    while i < a.len()
        invariant
            i <= a@.len(),
            a@.len() == b@.len(),
            forall|k: int| 0 <= k < i ==> a@[k] == b@[k],
        decreases a@.len() - i,
    {
        if a[i] != b[i] {
            return false;
        }
        i = i + 1;
    }
    proof {
        assert(a@ =~= b@);
    }
    true
}

/// Whether `g` is a glue record for the NS record `ns`: an address record of
/// full length whose owner name writes to exactly the NS record's target.
fn is_glue_for(ns: &DnsAnswer, g: &DnsAnswer) -> (r: bool)
    ensures
        r == glue_matches(*ns, *g),
{
    let type_len_ok = (g.qtype == ResourceType::A && g.rdata.len() == 4) || (g.qtype
        == ResourceType::AAAA && g.rdata.len() == 16);
    if !type_len_ok {
        return false;
    }
    match serialize_domain_to_bytes(g.name.as_str()) {
        Ok(w) => bytes_eq(&w, &ns.rdata),
        Err(()) => false,
    }
}

/// Decides one resolver hop from a response to the question: terminal when
/// an answer record matches the question; otherwise the address of the first
/// glue record of the first NS record that has one; otherwise the hop fails.
pub fn resolver_step(res: &DnsPacket, question: &DnsQuery) -> (r: ResolverStep)
    ensures
        (r == ResolverStep::Answer) == spec_has_matching_answer(*res, *question),
        !spec_has_matching_answer(*res, *question) ==> if spec_has_referral(*res) {
            r matches ResolverStep::Referral(addr) && exists|i: int, j: int|
                #[trigger] first_referral(*res, i, j) && addr@ == res.additional@[j].rdata@
        } else {
            r == ResolverStep::Fail
        },
{
    // terminal: an answer record matches the question
    let mut i: usize = 0;
    while i < res.answers.len()
        invariant
            i <= res.answers@.len(),
            forall|k: int|
                0 <= k < i ==> !answers_question(#[trigger] res.answers@[k], *question),
        decreases res.answers@.len() - i,
    {
        let a = &res.answers[i];
        if a.qtype == question.qtype && a.name.eq(&question.name) {
            proof {
                assert(answers_question(res.answers@[i as int], *question));
            }
            return ResolverStep::Answer;
        }
        i = i + 1;
    }
    // a referral: the first NS record of the authority section that has a
    // glue record in the additional section
    let mut i: usize = 0;
    while i < res.authority.len()
        invariant
            i <= res.authority@.len(),
            !spec_has_matching_answer(*res, *question),
            forall|i2: int, j2: int| 0 <= i2 < i ==> !referral_at(*res, i2, j2),
        decreases res.authority@.len() - i,
    {
        let ns = &res.authority[i];
        if ns.qtype == ResourceType::NS {
            let mut j: usize = 0;
            while j < res.additional.len()
                invariant
                    i < res.authority@.len(),
                    ns == res.authority@[i as int],
                    ns.qtype == ResourceType::NS,
                    j <= res.additional@.len(),
                    !spec_has_matching_answer(*res, *question),
                    forall|i2: int, j2: int| 0 <= i2 < i ==> !referral_at(*res, i2, j2),
                    forall|j2: int| 0 <= j2 < j ==> !referral_at(*res, i as int, j2),
                decreases res.additional@.len() - j,
            {
                let g = &res.additional[j];
                if is_glue_for(ns, g) {
                    let mut addr: Vec<u8> = Vec::new();
                    let mut k: usize = 0;
                    while k < g.rdata.len()
                        invariant
                            k <= g.rdata@.len(),
                            g == res.additional@[j as int],
                            j < res.additional@.len(),
                            addr@ == g.rdata@.take(k as int),
                        decreases g.rdata@.len() - k,
                    {
                        addr.push(g.rdata[k]);
                        assert(addr@ =~= g.rdata@.take(k + 1));
                        k = k + 1;
                    }
                    proof {
                        assert(addr@ =~= res.additional@[j as int].rdata@);
                        assert(referral_at(*res, i as int, j as int));
                        assert forall|i2: int, j2: int| i2 < i as int implies !referral_at(
                            *res,
                            i2,
                            j2,
                        ) by {
                            if 0 <= i2 {
                                assert(!referral_at(*res, i2, j2));
                            }
                        }
                        assert forall|j2: int| j2 < j as int implies !referral_at(
                            *res,
                            i as int,
                            j2,
                        ) by {
                            if 0 <= j2 {
                                assert(!referral_at(*res, i as int, j2));
                            }
                        }
                        assert(first_referral(*res, i as int, j as int));
                    }
                    return ResolverStep::Referral(addr);
                }
                j = j + 1;
            }
        } else {
            proof {
                assert forall|j2: int| !referral_at(*res, i as int, j2) by {
                    assert(res.authority@[i as int].qtype != ResourceType::NS);
                }
            }
        }
        i = i + 1;
    }
    proof {
        assert forall|i2: int, j2: int| !referral_at(*res, i2, j2) by {
            if 0 <= i2 < res.authority@.len() {
            }
        }
    }
    ResolverStep::Fail
}

/// A canned response: echoes the header marked as a response with one
/// answer, and answers the question with a fixed address record.
pub fn stub_resolver(_host: &str, req: DnsPacket) -> (r: DnsPacket)
    requires
        req.queries@.len() >= 1,
    ensures
        r@.header == (crate::header::DnsHeader {
            is_response: true,
            answers_count: 1,
            authority_count: 0,
            additional_count: 0,
            ..req@.header
        }),
        r@.queries == req@.queries,
        r@.answers.len() == 1,
        r@.answers[0] == (AnswerView {
            name: req@.queries[0].name,
            qtype: req@.queries[0].qtype,
            class: 1,
            ttl: 0,
            data_length: 4,
            rdata: seq![0xdeu8, 0xca, 0xfb, 0xad],
        }),
        r@.authority == Seq::<AnswerView>::empty(),
        r@.additional == Seq::<AnswerView>::empty(),
{
    let mut res = DnsPacket::new();
    res.header = req.header;
    res.header.is_response = true;
    res.header.answers_count = 1;
    res.header.additional_count = 0;
    res.header.authority_count = 0;
    let mut answer = DnsAnswer::new();
    answer.rdata = vec![0xdeu8, 0xca, 0xfb, 0xad];
    answer.name = req.queries[0].name.clone();
    answer.class = 1;
    answer.data_length = 4;
    answer.qtype = req.queries[0].qtype;
    let ghost av = answer@;
    res.answers = vec![answer];
    res.queries = req.queries;
    proof {
        assert(res@.answers =~= seq![av]);
        assert(av.rdata =~= seq![0xdeu8, 0xca, 0xfb, 0xad]);
        assert(res@.queries =~= req@.queries);
        assert(res@.authority =~= Seq::<AnswerView>::empty());
        assert(res@.additional =~= Seq::<AnswerView>::empty());
    }
    res
}

} // verus!
