//! The authoritative zone store: a zone's origin, default time to live, and
//! configured records, with exact-match lookup by owner name and type.

use vstd::prelude::*;
use vstd::string::{StrSliceExecFns, StringExecFns};
use crate::header::ResourceType;
use crate::record::{record_wf, Record};

verus! {

/// One authoritative zone.
#[derive(Debug, PartialEq, Eq)]
pub struct Authority {
    pub default_ttl: usize,
    pub origin: String,
    pub records: Vec<Record>,
}

/// How many start-of-authority records a run holds.
pub open spec fn spec_soa_count(rs: Seq<Record>) -> int
    decreases rs.len(),
{
    if rs.len() == 0 {
        0
    } else {
        spec_soa_count(rs.drop_last()) + if rs.last().rec_type
            == ResourceType::StartOfAuthority {
            1int
        } else {
            0int
        }
    }
}

/// A well-formed zone: exactly one start-of-authority record, and every
/// record well formed.
pub open spec fn authority_wf(a: Authority) -> bool {
    &&& spec_soa_count(a.records@) == 1
    &&& forall|i: int| 0 <= i < a.records@.len() ==> record_wf(#[trigger] a.records@[i])
}

/// The last dot-separated label of a name, empty after a trailing dot.
pub open spec fn spec_last_label(s: Seq<char>) -> Seq<char>
    decreases s.len(),
{
    if s.len() == 0 {
        Seq::<char>::empty()
    } else if s.last() == '.' {
        Seq::<char>::empty()
    } else {
        spec_last_label(s.drop_last()) + seq![s.last()]
    }
}

/// Whether a zone record answers a question: the zone origin's top label
/// equals the question name's top label, the record's type matches, and the
/// record's owner name joined to the origin with a dot is exactly the
/// question name.
pub open spec fn record_matches(
    rec: Record,
    origin: Seq<char>,
    qname: Seq<char>,
    qtype: ResourceType,
) -> bool {
    &&& rec.rec_type == qtype
    &&& spec_last_label(origin) == spec_last_label(qname)
    &&& qname == rec.name@ + seq!['.'] + origin
}

/// Extracts the last dot-separated label of a name.
pub fn last_label_string(s: &str) -> (r: String)
    ensures
        r@ == spec_last_label(s@),
{
    let n = s.unicode_len();
    let mut acc = String::new();
    let mut i: usize = 0;
    while i < n
        invariant
            i <= n,
            n == s@.len(),
            acc@ == spec_last_label(s@.take(i as int)),
        decreases n - i,
    {
        let c = s.get_char(i);
        proof {
            assert(s@.take(i + 1).drop_last() =~= s@.take(i as int));
            assert(s@.take(i + 1).last() == s@[i as int]);
        }
        if c == '.' {
            acc = String::new();
        } else {
            crate::serialization::string_push_char(&mut acc, c);
        }
        i = i + 1;
    }
    proof {
        assert(s@.take(n as int) =~= s@);
    }
    acc
}

impl Authority {
    /// A zone with no records, an empty origin, and a zero default time to
    /// live.
    pub fn new() -> (r: Self)
        ensures
            r.default_ttl == 0,
            r.origin@ == Seq::<char>::empty(),
            r.records@ == Seq::<Record>::empty(),
    {
        let r = Authority { default_ttl: 0, origin: String::new(), records: Vec::new() };
        proof {
            assert(r.records@ =~= Seq::<Record>::empty());
        }
        r
    }

    /// Whether this zone holds exactly one start-of-authority record.
    pub fn check_has_one_authority_record(&self) -> (r: bool)
        ensures
            r == (spec_soa_count(self.records@) == 1),
    {
        let mut count: usize = 0;
        let mut i: usize = 0;
        proof {
            assert(self.records@.take(0) =~= Seq::<Record>::empty());
        }
        while i < self.records.len()
            invariant
                i <= self.records@.len(),
                count <= i,
                count as int == spec_soa_count(self.records@.take(i as int)),
            decreases self.records@.len() - i,
        {
            proof {
                assert(self.records@.take(i + 1).drop_last() =~= self.records@.take(i as int));
                assert(self.records@.take(i + 1).last() == self.records@[i as int]);
            }
            let is_soa = match self.records[i].rec_type {
                ResourceType::StartOfAuthority => true,
                _ => false,
            };
            if is_soa {
                count = count + 1;
            }
            i = i + 1;
        }
        proof {
            assert(self.records@.take(self.records@.len() as int) =~= self.records@);
        }
        count == 1
    }

    /// Whether this zone is well formed: exactly one start-of-authority
    /// record and every record well formed.
    pub fn check_wf(&self) -> (r: bool)
        ensures
            r == authority_wf(*self),
    {
        if !self.check_has_one_authority_record() {
            return false;
        }
        let mut i: usize = 0;
        while i < self.records.len()
            invariant
                i <= self.records@.len(),
                forall|j: int| 0 <= j < i ==> record_wf(#[trigger] self.records@[j]),
            decreases self.records@.len() - i,
        {
            if !self.records[i].check_wf() {
                return false;
            }
            i = i + 1;
        }
        true
    }

    /// Whether the record at `j` answers the question.
    pub fn record_matches_query(&self, j: usize, qname: &String, qtype: &ResourceType) -> (r: bool)
        requires
            j < self.records@.len(),
        ensures
            r == record_matches(self.records@[j as int], self.origin@, qname@, *qtype),
    {
        let rec = &self.records[j];
        if rec.rec_type != *qtype {
            return false;
        }
        let origin_top = last_label_string(self.origin.as_str());
        let qname_top = last_label_string(qname.as_str());
        if !origin_top.eq(&qname_top) {
            return false;
        }
        let full = rec.name.clone().concat(".").concat(self.origin.as_str());
        proof {
            reveal_strlit(".");
            assert("."@ =~= seq!['.']);
        }
        qname.eq(&full)
    }
}

} // verus!
