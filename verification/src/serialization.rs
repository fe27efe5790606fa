//! Wire-level primitives: network-byte-order integers and domain names.
//!
//! A domain name is written on the wire as a run of length-prefixed labels
//! closed by a zero octet; on decode a name may also be reached through a
//! compression pointer, a two-octet field whose top two bits are set and
//! whose low fourteen bits are an absolute offset into the whole message.

use vstd::prelude::*;

verus! {

/// A value decoded from the head of a byte buffer, together with how many
/// octets it consumed.
pub trait FromBytes: Sized {
    fn from_bytes(bytes: &[u8]) -> Result<(Self, usize), ()>;
}

/// A value written in its wire form.
pub trait ToBytes {
    fn to_bytes(&self) -> Vec<u8>;
}

// ---------------------------------------------------------------------------
// Network-byte-order integers
// ---------------------------------------------------------------------------

/// The two-octet big-endian encoding of a 16-bit value.
pub open spec fn spec_u16_bytes(v: u16) -> Seq<u8> {
    seq![(v / 256) as u8, (v % 256) as u8]
}

/// The four-octet big-endian encoding of a 32-bit value.
pub open spec fn spec_u32_bytes(v: u32) -> Seq<u8> {
    seq![
        (v / 0x1000000) as u8,
        ((v / 0x10000) % 256) as u8,
        ((v / 256) % 256) as u8,
        (v % 256) as u8,
    ]
}

/// The 16-bit value held by two octets in network byte order.
pub open spec fn spec_u16_of(hi: u8, lo: u8) -> u16 {
    (hi * 256 + lo) as u16
}

/// The 32-bit value held by four octets in network byte order.
pub open spec fn spec_u32_of(b0: u8, b1: u8, b2: u8, b3: u8) -> u32 {
    (b0 * 0x1000000 + b1 * 0x10000 + b2 * 256 + b3) as u32
}

/// Appends the big-endian encoding of `v` to `out`.
pub fn push_u16(out: &mut Vec<u8>, v: u16)
    ensures
        final(out)@ == old(out)@ + spec_u16_bytes(v),
{
    out.push((v / 256) as u8);
    out.push((v % 256) as u8);
    assert(out@ =~= old(out)@ + spec_u16_bytes(v));
}

/// Appends the big-endian encoding of `v` to `out`.
pub fn push_u32(out: &mut Vec<u8>, v: u32)
    ensures
        final(out)@ == old(out)@ + spec_u32_bytes(v),
{
    out.push((v / 0x1000000) as u8);
    out.push(((v / 0x10000) % 256) as u8);
    out.push(((v / 256) % 256) as u8);
    out.push((v % 256) as u8);
    assert(out@ =~= old(out)@ + spec_u32_bytes(v));
}

/// Reads the 16-bit value at offset `i` of `b`, in network byte order.
pub fn read_u16(b: &[u8], i: usize) -> (r: u16)
    requires
        i + 2 <= b@.len(),
    ensures
        r == spec_u16_of(b@[i as int], b@[i + 1]),
{
    b[i] as u16 * 256 + b[i + 1] as u16
}

/// Reads the 32-bit value at offset `i` of `b`, in network byte order.
pub fn read_u32(b: &[u8], i: usize) -> (r: u32)
    requires
        i + 4 <= b@.len(),
    ensures
        r == spec_u32_of(b@[i as int], b@[i + 1], b@[i + 2], b@[i + 3]),
        spec_u32_bytes(r) == b@.subrange(i as int, i + 4),
{
    let r = b[i] as u32 * 0x1000000 + b[i + 1] as u32 * 0x10000 + b[i + 2] as u32 * 256 + b[i
        + 3] as u32;
    assert(spec_u32_bytes(r) =~= b@.subrange(i as int, i + 4)) by {
        assert(r / 0x1000000 == b@[i as int]) by (nonlinear_arith)
            requires
                r == b@[i as int] as u32 * 0x1000000 + b@[i + 1] as u32 * 0x10000 + b@[i
                    + 2] as u32 * 256 + b@[i + 3] as u32,
        ;
        assert((r / 0x10000) % 256 == b@[i + 1]) by (nonlinear_arith)
            requires
                r == b@[i as int] as u32 * 0x1000000 + b@[i + 1] as u32 * 0x10000 + b@[i
                    + 2] as u32 * 256 + b@[i + 3] as u32,
        ;
        assert((r / 256) % 256 == b@[i + 2]) by (nonlinear_arith)
            requires
                r == b@[i as int] as u32 * 0x1000000 + b@[i + 1] as u32 * 0x10000 + b@[i
                    + 2] as u32 * 256 + b@[i + 3] as u32,
        ;
        assert(r % 256 == b@[i + 3]) by (nonlinear_arith)
            requires
                r == b@[i as int] as u32 * 0x1000000 + b@[i + 1] as u32 * 0x10000 + b@[i
                    + 2] as u32 * 256 + b@[i + 3] as u32,
        ;
    }
    r
}

/// Round trip: the big-endian octets of a 16-bit value read back as it.
pub proof fn lemma_u16_round_trip(v: u16)
    ensures
        spec_u16_of(spec_u16_bytes(v)[0], spec_u16_bytes(v)[1]) == v,
{
}

/// Round trip: the big-endian octets of a 32-bit value read back as it.
pub proof fn lemma_u32_round_trip(v: u32)
    ensures
        spec_u32_of(
            spec_u32_bytes(v)[0],
            spec_u32_bytes(v)[1],
            spec_u32_bytes(v)[2],
            spec_u32_bytes(v)[3],
        ) == v,
{
    assert((v / 0x1000000) * 0x1000000 + ((v / 0x10000) % 256) * 0x10000 + ((v / 256) % 256) * 256
        + v % 256 == v) by (nonlinear_arith);
}

// ---------------------------------------------------------------------------
// Conversions between octets and text
// ---------------------------------------------------------------------------

/// Each octet read as one character (the codec treats labels as raw octets).
pub open spec fn ascii_chars(b: Seq<u8>) -> Seq<char> {
    b.map(|_i, c: u8| c as char)
}

/// Each character truncated to one octet; faithful when every character is
/// below 256.
pub open spec fn str_bytes(s: Seq<char>) -> Seq<u8> {
    s.map(|_i, c: char| c as u8)
}

/// Relies on String::push: appends exactly the one character.
#[verifier::external_body]
pub(crate) fn string_push_char(s: &mut String, c: char)
    ensures
        final(s)@ == old(s)@ + seq![c],
{
    s.push(c);
}

/// Builds the string whose characters are the octets of `b`, one each.
fn bytes_to_string(b: &Vec<u8>) -> (s: String)
    ensures
        s@ == ascii_chars(b@),
{
    let mut s = String::new();
    let mut i: usize = 0;
    while i < b.len()
        invariant
            i <= b@.len(),
            s@ == ascii_chars(b@.take(i as int)),
        decreases b@.len() - i,
    {
        string_push_char(&mut s, b[i] as char);
        assert(s@ =~= ascii_chars(b@.take(i + 1)));
        i = i + 1;
    }
    assert(b@.take(b@.len() as int) =~= b@);
    s
}

// ---------------------------------------------------------------------------
// Domain names: dotted text to labels
// ---------------------------------------------------------------------------

/// Splits a dotted name into its labels. The empty text yields one empty
/// label; a trailing or doubled dot yields an empty label, which is invalid
/// on the wire.
pub open spec fn dot_split(b: Seq<u8>) -> Seq<Seq<u8>>
    decreases b.len(),
{
    if b.len() == 0 {
        seq![Seq::<u8>::empty()]
    } else if b[0] == 46 {
        seq![Seq::<u8>::empty()] + dot_split(b.drop_first())
    } else {
        let rest = dot_split(b.drop_first());
        rest.update(0, seq![b[0]] + rest[0])
    }
}

/// The labels of a name, each written as a length octet and its octets,
/// without the closing zero octet.
pub open spec fn wire_front(ls: Seq<Seq<u8>>) -> Seq<u8>
    decreases ls.len(),
{
    if ls.len() == 0 {
        Seq::<u8>::empty()
    } else {
        seq![ls[0].len() as u8] + ls[0] + wire_front(ls.drop_first())
    }
}

/// The uncompressed wire form of a name given as dotted text: its labels,
/// length-prefixed, closed by a zero octet. The empty text is the root name,
/// a single zero octet.
pub open spec fn spec_name_wire(b: Seq<u8>) -> Seq<u8> {
    if b.len() == 0 {
        seq![0u8]
    } else {
        wire_front(dot_split(b)) + seq![0u8]
    }
}

/// Every label fits the wire: one to 63 octets.
pub open spec fn labels_ok(ls: Seq<Seq<u8>>) -> bool {
    forall|i: int| 0 <= i < ls.len() ==> 1 <= (#[trigger] ls[i]).len() <= 63
}

/// A name that can be written on the wire: empty, or made of valid labels
/// with a total wire form of at most 255 octets.
pub open spec fn name_sendable(b: Seq<u8>) -> bool {
    b.len() == 0 || (labels_ok(dot_split(b)) && spec_name_wire(b).len() <= 255)
}

/// `dot_split` always yields at least one label.
pub proof fn lemma_dot_split_len(b: Seq<u8>)
    ensures
        dot_split(b).len() >= 1,
    decreases b.len(),
{
    if b.len() != 0 && b[0] != 46 {
        lemma_dot_split_len(b.drop_first());
    }
}

/// Dot-free text is a single label.
pub proof fn lemma_dot_split_whole(b: Seq<u8>)
    requires
        forall|i: int| 0 <= i < b.len() ==> b[i] != 46,
    ensures
        dot_split(b) =~~= seq![b],
    decreases b.len(),
{
    if b.len() == 0 {
    } else {
        lemma_dot_split_whole(b.drop_first());
        assert(dot_split(b) =~~= seq![b]) by {
            assert(seq![b[0]] + b.drop_first() =~= b);
        }
    }
}

/// Splitting at the first dot: a dot-free prefix becomes the first label.
pub proof fn lemma_dot_split_step(b1: Seq<u8>, b2: Seq<u8>)
    requires
        forall|i: int| 0 <= i < b1.len() ==> b1[i] != 46,
    ensures
        dot_split(b1 + seq![46u8] + b2) =~~= seq![b1] + dot_split(b2),
    decreases b1.len(),
{
    lemma_dot_split_len(b2);
    if b1.len() == 0 {
        assert((b1 + seq![46u8] + b2).drop_first() =~= b2);
    } else {
        lemma_dot_split_step(b1.drop_first(), b2);
        let w = b1 + seq![46u8] + b2;
        assert(w.drop_first() =~= b1.drop_first() + seq![46u8] + b2);
        let rest = dot_split(w.drop_first());
        assert(rest =~~= seq![b1.drop_first()] + dot_split(b2));
        assert(seq![w[0]] + rest[0] =~= b1);
        assert(dot_split(w) =~~= seq![b1] + dot_split(b2));
    }
}

/// The labels of two runs in sequence are written one after the other.
pub proof fn lemma_wire_front_concat(l1: Seq<Seq<u8>>, l2: Seq<Seq<u8>>)
    ensures
        wire_front(l1 + l2) =~= wire_front(l1) + wire_front(l2),
    decreases l1.len(),
{
    if l1.len() == 0 {
        assert(l1 + l2 =~= l2);
    } else {
        lemma_wire_front_concat(l1.drop_first(), l2);
        assert((l1 + l2).drop_first() =~= l1.drop_first() + l2);
        assert(wire_front(l1 + l2) =~= wire_front(l1) + wire_front(l2));
    }
}

/// The wire form of a single label.
pub proof fn lemma_wire_front_single(l: Seq<u8>)
    ensures
        wire_front(seq![l]) =~= seq![l.len() as u8] + l,
{
    assert(seq![l].drop_first() =~= Seq::<Seq<u8>>::empty());
    assert(wire_front(seq![l].drop_first()) =~= Seq::<u8>::empty());
}

/// Appends `b@.subrange(start, end)` to `out`.
fn push_range(out: &mut Vec<u8>, b: &[u8], start: usize, end: usize)
    requires
        start <= end <= b@.len(),
    ensures
        final(out)@ == old(out)@ + b@.subrange(start as int, end as int),
{
    let mut j = start;
    while j < end
        invariant
            start <= j <= end <= b@.len(),
            out@ == old(out)@ + b@.subrange(start as int, j as int),
        decreases end - j,
    {
        out.push(b[j]);
        assert(out@ =~= old(out)@ + b@.subrange(start as int, j + 1));
        j = j + 1;
    }
}

/// Every character fits one octet.
pub open spec fn chars_in_byte_range(s: Seq<char>) -> bool {
    forall|i: int| 0 <= i < s.len() ==> ((#[trigger] s[i]) as int) < 256
}

/// Reads a text into one octet per character. Fails if a character is past
/// the octet range.
pub fn chars_to_octets(s: &str) -> (r: Result<Vec<u8>, ()>)
    ensures
        (r is Ok) == chars_in_byte_range(s@),
        r matches Ok(v) ==> v@ == str_bytes(s@),
{
    let n = s.unicode_len();
    let mut out: Vec<u8> = Vec::new();
    let mut i: usize = 0;
    while i < n
        invariant
            i <= n,
            n == s@.len(),
            out@ == str_bytes(s@.take(i as int)),
            forall|k: int| 0 <= k < i ==> ((#[trigger] s@[k]) as int) < 256,
        decreases n - i,
    {
        let c = s.get_char(i);
        if c as u32 >= 256 {
            return Err(());
        }
        out.push(c as u8);
        assert(out@ =~= str_bytes(s@.take(i + 1)));
        i = i + 1;
    }
    proof {
        assert(s@.take(n as int) =~= s@);
    }
    Ok(out)
}

/// Encodes a dotted name, given one octet per character, in its uncompressed
/// wire form: each label as a length octet and its octets, closed by a zero
/// octet. Fails if a label is empty or longer than 63 octets, or the wire
/// form would exceed 255 octets.
pub fn serialize_name_octets(b: &[u8]) -> (r: Result<Vec<u8>, ()>)
    ensures
        (r is Ok) == name_sendable(b@),
        r matches Ok(v) ==> v@ == spec_name_wire(b@),
{
    let ghost full = b@;
    let n = b.len();
    if n == 0 {
        let mut out: Vec<u8> = Vec::new();
        out.push(0u8);
        assert(out@ =~= spec_name_wire(full));
        return Ok(out);
    }
    let mut out: Vec<u8> = Vec::new();
    let mut start: usize = 0;
    let mut i: usize = 0;
    let ghost mut labels: Seq<Seq<u8>> = Seq::empty();
    proof {
        assert(full.subrange(0, n as int) =~= full);
        assert(labels + seq![full] =~= seq![full]);
    }
    while i < n
        invariant
            start <= i <= n,
            n == full.len(),
            b@ == full,
            labels_ok(labels),
            out@ == wire_front(labels),
            forall|j: int| start <= j < i ==> full[j] != 46,
            dot_split(full) =~~= labels + dot_split(full.subrange(start as int, n as int)),
        decreases n - i,
    {
        if b[i] == 46 {
            // close the current label
            let ghost lab = full.subrange(start as int, i as int);
            let ghost rest = full.subrange(i + 1, n as int);
            proof {
                lemma_dot_split_step(lab, rest);
                assert(lab + seq![46u8] + rest =~= full.subrange(start as int, n as int));
                lemma_dot_split_len(rest);
                assert(dot_split(full)[labels.len() as int] == lab);
            }
            if i == start || i - start > 63 {
                proof {
                    assert(!labels_ok(dot_split(full)));
                }
                return Err(());
            }
            out.push((i - start) as u8);
            push_range(&mut out, b, start, i);
            proof {
                let one = seq![lab];
                lemma_wire_front_concat(labels, one);
                lemma_wire_front_single(lab);
                assert(out@ =~= wire_front(labels + one));
                assert(dot_split(full) =~~= (labels + one) + dot_split(rest));
                labels = labels + one;
            }
            start = i + 1;
        }
        i = i + 1;
    }
    // close the final label
    let ghost lab = full.subrange(start as int, n as int);
    proof {
        lemma_dot_split_whole(lab);
        assert(dot_split(full)[labels.len() as int] == lab);
    }
    if start == n || n - start > 63 {
        proof {
            assert(!labels_ok(dot_split(full)));
        }
        return Err(());
    }
    out.push((n - start) as u8);
    push_range(&mut out, b, start, n);
    proof {
        let one = seq![lab];
        lemma_wire_front_concat(labels, one);
        lemma_wire_front_single(lab);
        assert(out@ =~= wire_front(labels + one));
        assert(dot_split(full) =~~= labels + one);
        labels = labels + one;
        assert(out@ == wire_front(dot_split(full)));
    }
    // all labels written; close with the zero octet
    if out.len() >= 255 {
        proof {
            assert(spec_name_wire(full).len() > 255);
        }
        return Err(());
    }
    out.push(0u8);
    proof {
        assert(out@ =~= spec_name_wire(full));
    }
    Ok(out)
}

/// Encodes a dotted domain name in its uncompressed wire form, each label a
/// length octet and its octets, closed by a zero octet. Each character is
/// written as one octet. Fails if a character is past the octet range, a
/// label is empty or longer than 63 octets, or the wire form would exceed
/// 255 octets.
pub fn serialize_domain_to_bytes(domain: &str) -> (r: Result<Vec<u8>, ()>)
    ensures
        r is Ok <==> chars_in_byte_range(domain@) && name_sendable(str_bytes(domain@)),
        r matches Ok(v) ==> v@ == spec_name_wire(str_bytes(domain@)),
{
    let octets = match chars_to_octets(domain) {
        Ok(v) => v,
        Err(()) => {
            return Err(());
        },
    };
    serialize_name_octets(octets.as_slice())
}

// ---------------------------------------------------------------------------
// Dotted-quad addresses
// ---------------------------------------------------------------------------

/// Every octet is a decimal digit.
pub open spec fn all_digits(d: Seq<u8>) -> bool {
    forall|i: int| 0 <= i < d.len() ==> 48 <= #[trigger] d[i] <= 57
}

/// The value of a run of decimal digits.
pub open spec fn dec_value(d: Seq<u8>) -> int
    decreases d.len(),
{
    if d.len() == 0 {
        0
    } else {
        dec_value(d.drop_last()) * 10 + (d.last() - 48)
    }
}

/// One part of a dotted quad: one to three decimal digits worth at most 255.
pub open spec fn valid_quad_part(d: Seq<u8>) -> bool {
    1 <= d.len() <= 3 && all_digits(d) && dec_value(d) <= 255
}

/// The four octets named by a dotted-quad text, if it is one.
pub open spec fn spec_ipv4(b: Seq<u8>) -> Option<Seq<u8>> {
    let parts = dot_split(b);
    if parts.len() == 4 && (forall|i: int| 0 <= i < 4 ==> valid_quad_part(#[trigger] parts[i])) {
        Some(
            seq![
                dec_value(parts[0]) as u8,
                dec_value(parts[1]) as u8,
                dec_value(parts[2]) as u8,
                dec_value(parts[3]) as u8,
            ],
        )
    } else {
        None
    }
}

/// Parses the decimal octet written at `b[start..end]`.
fn parse_quad_part(b: &[u8], start: usize, end: usize) -> (r: Result<u8, ()>)
    requires
        start <= end <= b@.len(),
    ensures
        (r is Ok) == valid_quad_part(b@.subrange(start as int, end as int)),
        r matches Ok(v) ==> v as int == dec_value(b@.subrange(start as int, end as int)),
{
    let ghost part = b@.subrange(start as int, end as int);
    if end - start < 1 || end - start > 3 {
        return Err(());
    }
    let mut v: u32 = 0;
    let mut j = start;
    while j < end
        invariant
            start <= j <= end <= b@.len(),
            end - start <= 3,
            part == b@.subrange(start as int, end as int),
            all_digits(b@.subrange(start as int, j as int)),
            v as int == dec_value(b@.subrange(start as int, j as int)),
            j - start == 0 ==> v == 0,
            j - start == 1 ==> v <= 9,
            j - start == 2 ==> v <= 99,
            j - start == 3 ==> v <= 999,
        decreases end - j,
    {
        let c = b[j];
        if c < 48 || c > 57 {
            proof {
                assert(part[j - start] == c);
            }
            return Err(());
        }
        proof {
            assert(b@.subrange(start as int, j + 1).drop_last() =~= b@.subrange(
                start as int,
                j as int,
            ));
            assert(forall|k: int| 0 <= k < j + 1 - start ==> 48 <= #[trigger] b@.subrange(
                start as int,
                j + 1,
            )[k] <= 57);
        }
        v = v * 10 + (c - 48) as u32;
        j = j + 1;
    }
    if v > 255 {
        return Err(());
    }
    Ok(v as u8)
}

/// Reads a dotted-quad address into its four octets. Fails unless the text
/// is exactly four parts of one to three decimal digits, each at most 255.
pub fn deserialize_ipv4_from_str(s: &str) -> (r: Result<Vec<u8>, ()>)
    ensures
        r is Ok <==> vstd::string::is_ascii(s) && spec_ipv4(str_bytes(s@)) is Some,
        r matches Ok(v) ==> Some(v@) == spec_ipv4(str_bytes(s@)),
{
    broadcast use vstd::string::is_ascii_spec_bytes;

    if !s.is_ascii() {
        return Err(());
    }
    let b: &[u8] = s.as_bytes();
    let ghost full = str_bytes(s@);
    proof {
        assert(b@ =~= full);
    }
    let n = b.len();
    let mut res: Vec<u8> = Vec::new();
    let mut start: usize = 0;
    let mut i: usize = 0;
    let ghost mut parts: Seq<Seq<u8>> = Seq::empty();
    proof {
        assert(full.subrange(0, n as int) =~= full);
        assert(parts + seq![full] =~= seq![full]);
    }
    while i < n
        invariant
            start <= i <= n,
            n == full.len(),
            b@ == full,
            full == str_bytes(s@),
            vstd::string::is_ascii(s),
            forall|j: int| start <= j < i ==> full[j] != 46,
            dot_split(full) =~~= parts + dot_split(full.subrange(start as int, n as int)),
            res@.len() == parts.len(),
            forall|k: int|
                0 <= k < parts.len() ==> valid_quad_part(#[trigger] parts[k]) && res@[k] as int
                    == dec_value(parts[k]),
        decreases n - i,
    {
        if b[i] == 46 {
            let ghost part = full.subrange(start as int, i as int);
            let ghost rest = full.subrange(i + 1, n as int);
            proof {
                lemma_dot_split_step(part, rest);
                assert(part + seq![46u8] + rest =~= full.subrange(start as int, n as int));
                lemma_dot_split_len(rest);
                assert(dot_split(full)[parts.len() as int] == part);
            }
            let v = match parse_quad_part(b, start, i) {
                Ok(v) => v,
                Err(()) => {
                    proof {
                        assert(!valid_quad_part(dot_split(full)[parts.len() as int]));
                    }
                    return Err(());
                },
            };
            res.push(v);
            proof {
                parts = parts + seq![part];
                assert(dot_split(full) =~~= parts + dot_split(rest));
            }
            start = i + 1;
        }
        i = i + 1;
    }
    // the final part
    let ghost part = full.subrange(start as int, n as int);
    proof {
        lemma_dot_split_whole(part);
        assert(dot_split(full)[parts.len() as int] == part);
    }
    let v = match parse_quad_part(b, start, n) {
        Ok(v) => v,
        Err(()) => {
            proof {
                assert(!valid_quad_part(dot_split(full)[parts.len() as int]));
            }
            return Err(());
        },
    };
    res.push(v);
    proof {
        parts = parts + seq![part];
        assert(dot_split(full) =~~= parts);
    }
    if res.len() != 4 {
        return Err(());
    }
    proof {
        assert(Some(res@) == spec_ipv4(full)) by {
            assert(res@ =~= spec_ipv4(full)->Some_0);
        }
    }
    Ok(res)
}

// ---------------------------------------------------------------------------
// Domain names: decoding, with compression pointers
// ---------------------------------------------------------------------------

/// Joins two dotted names with a dot; either side may be empty.
pub open spec fn name_join(a: Seq<u8>, b: Seq<u8>) -> Seq<u8> {
    if a.len() == 0 {
        b
    } else if b.len() == 0 {
        a
    } else {
        a + seq![46u8] + b
    }
}

/// Joining on a non-empty middle name is associative.
pub proof fn lemma_name_join_assoc(a: Seq<u8>, b: Seq<u8>, c: Seq<u8>)
    requires
        b.len() > 0,
    ensures
        name_join(a, name_join(b, c)) =~= name_join(name_join(a, b), c),
{
}

/// Decodes the name at absolute offset `pos` of the message `msg` as the
/// pair of its dotted text and the octets consumed at `pos`: a pointer
/// consumes two octets and decoding continues at its target, which must lie
/// strictly before the position of the pointer itself. `labels` bounds how
/// many labels may still be read and `acc` counts the octets of the
/// uncompressed form already read, which may not pass 255.
pub open spec fn spec_name_at(msg: Seq<u8>, pos: int, labels: nat, acc: nat) -> Option<
    (Seq<u8>, int),
>
    decreases labels, pos,
{
    if pos < 0 || pos >= msg.len() {
        None
    } else {
        let len = msg[pos];
        if len == 0 {
            Some((Seq::<u8>::empty(), 1))
        } else if len >= 0xc0 {
            if pos + 1 >= msg.len() {
                None
            } else {
                let t = (len - 0xc0) * 256 + msg[pos + 1];
                if t >= pos {
                    None
                } else {
                    match spec_name_at(msg, t as int, labels, acc) {
                        Some((name, _)) => Some((name, 2)),
                        None => None,
                    }
                }
            }
        } else if len >= 0x40 {
            // the reserved tag 0b10 (or a label over 63 octets)
            None
        } else if labels == 0 || acc + len + 1 > 255 || pos + 1 + len > msg.len() {
            None
        } else {
            let lab = msg.subrange(pos + 1, pos + 1 + len);
            match spec_name_at(msg, pos + 1 + len, (labels - 1) as nat, (acc + len + 1) as nat) {
                Some((rest, c)) => Some((name_join(lab, rest), 1 + len + c)),
                None => None,
            }
        }
    }
}

/// Decodes the name at offset `cur` of the subslice `bytes` of the message
/// `packet`: labels are read from `bytes`, while a pointer target is an
/// absolute offset into `packet` and must lie strictly before the pointer's
/// own absolute position, taken from how far `bytes` sits from the end of
/// `packet`.
pub open spec fn spec_name_rel(
    packet: Seq<u8>,
    bytes: Seq<u8>,
    cur: int,
    labels: nat,
    acc: nat,
) -> Option<(Seq<u8>, int)>
    decreases labels,
{
    if cur < 0 || cur >= bytes.len() {
        None
    } else {
        let len = bytes[cur];
        if len == 0 {
            Some((Seq::<u8>::empty(), 1))
        } else if len >= 0xc0 {
            if cur + 1 >= bytes.len() {
                None
            } else {
                let t = (len - 0xc0) * 256 + bytes[cur + 1];
                let abs = packet.len() - bytes.len() + cur;
                if t >= abs {
                    None
                } else {
                    match spec_name_at(packet, t as int, labels, acc) {
                        Some((name, _)) => Some((name, 2)),
                        None => None,
                    }
                }
            }
        } else if len >= 0x40 {
            None
        } else if labels == 0 || acc + len + 1 > 255 || cur + 1 + len > bytes.len() {
            None
        } else {
            let lab = bytes.subrange(cur + 1, cur + 1 + len);
            match spec_name_rel(packet, bytes, cur + 1 + len, (labels - 1) as nat, (acc + len
                + 1) as nat) {
                Some((rest, c)) => Some((name_join(lab, rest), 1 + len + c)),
                None => None,
            }
        }
    }
}

/// How many labels a decoder may read from one name before giving up.
pub open spec fn label_read_bound() -> nat {
    128
}

/// What decoding the name at offset `cur` of `bytes` within `packet`
/// yields: the name's dotted text and the octets consumed from `cur` on.
pub open spec fn spec_name_parse_at(packet: Seq<u8>, bytes: Seq<u8>, cur: int) -> Option<
    (Seq<u8>, int),
> {
    spec_name_rel(packet, bytes, cur, label_read_bound(), 0)
}

/// What decoding the name at the head of `bytes` within `packet` yields:
/// the name's dotted text and the octets consumed from `bytes`.
pub open spec fn spec_domain_parse(packet: Seq<u8>, bytes: Seq<u8>) -> Option<(Seq<u8>, int)> {
    spec_name_parse_at(packet, bytes, 0)
}


/// Octets map to characters and back unchanged.
pub proof fn lemma_bytes_chars_id(b: Seq<u8>)
    ensures
        str_bytes(ascii_chars(b)) =~= b,
{
}

/// Decodes the domain name at the head of `bytes`, where `bytes` is the
/// not-yet-consumed tail of the whole message `packet_bytes` (compression
/// pointers are offsets into the whole message). Returns the dotted name and
/// the octets consumed from `bytes`.
pub fn deserialize_domain_from_bytes(packet_bytes: &[u8], bytes: &[u8]) -> (r: Result<
    (String, usize),
    (),
>)
    ensures
        (r is Ok) == (spec_domain_parse(packet_bytes@, bytes@) is Some),
        r matches Ok((s, n)) ==> spec_domain_parse(packet_bytes@, bytes@) == Some(
            (str_bytes(s@), n as int),
        ) && s@ == ascii_chars(str_bytes(s@)),
{
    deserialize_domain_at(packet_bytes, bytes, 0)
}

/// Decodes the domain name at offset `start` of `bytes` within the whole
/// message `packet_bytes`. Returns the dotted name and the octets consumed
/// from `start` on. Fails on a truncated buffer, a label over 63 octets, a
/// reserved length tag, a pointer at or past its own position, more than 128
/// labels, or a name over 255 octets.
pub fn deserialize_domain_at(packet_bytes: &[u8], bytes: &[u8], start: usize) -> (r: Result<
    (String, usize),
    (),
>)
    ensures
        (r is Ok) == (spec_name_parse_at(packet_bytes@, bytes@, start as int) is Some),
        r matches Ok((s, n)) ==> spec_name_parse_at(packet_bytes@, bytes@, start as int) == Some(
            (str_bytes(s@), n as int),
        ) && s@ == ascii_chars(str_bytes(s@)) && start + n <= bytes@.len(),
{
    let ghost pkt = packet_bytes@;
    let ghost buf = bytes@;
    let packet_len = packet_bytes.len();
    let blen = bytes.len();
    let mut name: Vec<u8> = Vec::new();
    let mut cur: usize = start;
    if cur > blen {
        return Err(());
    }
    let mut ll: u8 = 128;
    let mut acc: u16 = 0;
    let mut pos: usize = 0;
    let mut consumed: usize = 0;
    // read labels from `bytes` until the zero octet or the first pointer
    loop
        invariant_except_break
            pkt == packet_bytes@,
            buf == bytes@,
            blen == buf.len(),
            packet_len == pkt.len(),
            start <= cur <= blen,
            spec_name_parse_at(pkt, buf, start as int) == match spec_name_rel(
                pkt,
                buf,
                cur as int,
                ll as nat,
                acc as nat,
            ) {
                Some((rest, c)) => Some((name_join(name@, rest), cur - start + c)),
                None => None::<(Seq<u8>, int)>,
            },
        ensures
            pkt == packet_bytes@,
            buf == bytes@,
            packet_len == pkt.len(),
            start + consumed <= buf.len(),
            spec_name_parse_at(pkt, buf, start as int) == match spec_name_at(
                pkt,
                pos as int,
                ll as nat,
                acc as nat,
            ) {
                Some((rest, _)) => Some((name_join(name@, rest), consumed as int)),
                None => None::<(Seq<u8>, int)>,
            },
        decreases blen - cur,
    {
        if cur >= blen {
            return Err(());
        }
        let len = bytes[cur];
        if len == 0 {
            let s = bytes_to_string(&name);
            proof {
                lemma_bytes_chars_id(name@);
                assert(name_join(name@, Seq::<u8>::empty()) =~= name@);
            }
            return Ok((s, cur + 1 - start));
        }
        if len >= 0xc0 {
            if cur + 1 >= blen {
                return Err(());
            }
            let t: usize = (len as usize - 0xc0) * 256 + bytes[cur + 1] as usize;
            // the pointer's absolute position is packet_len - (blen - cur)
            let back = blen - cur;
            if packet_len < back || t >= packet_len - back {
                return Err(());
            }
            pos = t;
            consumed = cur + 2 - start;
            break ;
        }
        if len >= 0x40 {
            return Err(());
        }
        if ll == 0 {
            return Err(());
        }
        if acc as usize + len as usize + 1 > 255 {
            return Err(());
        }
        if len as usize > blen - (cur + 1) {
            return Err(());
        }
        let ghost lab = buf.subrange(cur + 1, cur + 1 + len as int);
        let ghost old_name = name@;
        if name.len() > 0 {
            name.push(46);
        }
        push_range(&mut name, bytes, cur + 1, cur + 1 + len as usize);
        proof {
            assert(name@ =~= name_join(old_name, lab));
            let next = spec_name_rel(
                pkt,
                buf,
                cur + 1 + len as int,
                (ll - 1) as nat,
                (acc + len + 1) as nat,
            );
            if next is Some {
                let (rest, c) = next->Some_0;
                if rest.len() > 0 {
                    lemma_name_join_assoc(old_name, lab, rest);
                } else {
                    assert(name_join(lab, rest) == lab);
                }
            }
        }
        cur = cur + 1 + len as usize;
        ll = ll - 1;
        acc = acc + len as u16 + 1;
    }
    // a pointer was taken: continue at absolute offsets of the whole message
    loop
        invariant
            pkt == packet_bytes@,
            buf == bytes@,
            packet_len == pkt.len(),
            start + consumed <= buf.len(),
            spec_name_parse_at(pkt, buf, start as int) == match spec_name_at(
                pkt,
                pos as int,
                ll as nat,
                acc as nat,
            ) {
                Some((rest, _)) => Some((name_join(name@, rest), consumed as int)),
                None => None::<(Seq<u8>, int)>,
            },
        decreases ll, pos,
    {
        if pos >= packet_len {
            return Err(());
        }
        let len = packet_bytes[pos];
        if len == 0 {
            let s = bytes_to_string(&name);
            proof {
                lemma_bytes_chars_id(name@);
                assert(name_join(name@, Seq::<u8>::empty()) =~= name@);
            }
            return Ok((s, consumed));
        }
        if len >= 0xc0 {
            if pos + 1 >= packet_len {
                return Err(());
            }
            let t: usize = (len as usize - 0xc0) * 256 + packet_bytes[pos + 1] as usize;
            if t >= pos {
                return Err(());
            }
            pos = t;
        } else if len >= 0x40 {
            return Err(());
        } else {
            if ll == 0 {
                return Err(());
            }
            if acc as usize + len as usize + 1 > 255 {
                return Err(());
            }
            if len as usize > packet_len - (pos + 1) {
                return Err(());
            }
            let ghost lab = pkt.subrange(pos + 1, pos + 1 + len as int);
            let ghost old_name = name@;
            if name.len() > 0 {
                name.push(46);
            }
            push_range(&mut name, packet_bytes, pos + 1, pos + 1 + len as usize);
            proof {
                assert(name@ =~= name_join(old_name, lab));
                let next = spec_name_at(
                    pkt,
                    pos + 1 + len as int,
                    (ll - 1) as nat,
                    (acc + len + 1) as nat,
                );
                if next is Some {
                    let (rest, c) = next->Some_0;
                    if rest.len() > 0 {
                        lemma_name_join_assoc(old_name, lab, rest);
                    } else {
                        assert(name_join(lab, rest) == lab);
                    }
                }
            }
            pos = pos + 1 + len as usize;
            ll = ll - 1;
            acc = acc + len as u16 + 1;
        }
    }
}

// ---------------------------------------------------------------------------
// Round trip: an uncompressed name decodes back to its text
// ---------------------------------------------------------------------------

/// Labels joined back into dotted text.
pub open spec fn join_labels(ls: Seq<Seq<u8>>) -> Seq<u8>
    decreases ls.len(),
{
    if ls.len() == 0 {
        Seq::<u8>::empty()
    } else {
        name_join(ls[0], join_labels(ls.drop_first()))
    }
}

/// The first label of text that does not begin with a dot begins with its
/// first octet.
proof fn lemma_dot_split_first(b: Seq<u8>)
    requires
        b.len() > 0,
        b[0] != 46,
    ensures
        dot_split(b)[0].len() > 0,
        dot_split(b)[0][0] == b[0],
{
    lemma_dot_split_len(b.drop_first());
}

/// Splitting on dots and joining with dots gives the text back, when no
/// label is empty.
pub proof fn lemma_join_split(b: Seq<u8>)
    requires
        b.len() > 0,
        labels_ok(dot_split(b)),
    ensures
        join_labels(dot_split(b)) == b,
    decreases b.len(),
{
    lemma_dot_split_len(b);
    let c = b[0];
    let b1 = b.drop_first();
    assert(dot_split(b)[0].len() >= 1);
    if c == 46 {
        // the first label would be empty
        assert(dot_split(b)[0] =~= Seq::<u8>::empty());
        assert(false);
    }
    let rest = dot_split(b1);
    lemma_dot_split_len(b1);
    if b1.len() == 0 {
        assert(rest =~~= seq![Seq::<u8>::empty()]);
        assert(dot_split(b) =~~= seq![seq![c]]);
        assert(join_labels(dot_split(b)) =~= seq![c] + join_labels(
            dot_split(b).drop_first(),
        ));
        assert(dot_split(b).drop_first() =~~= Seq::<Seq<u8>>::empty());
        assert(join_labels(dot_split(b)) =~= seq![c]);
        assert(b =~= seq![c]);
    } else if b1[0] == 46 {
        // the first label is the one octet `c`
        let b2 = b1.drop_first();
        if b2.len() == 0 {
            // the text ends in a dot: its last label would be empty
            assert(b2 =~= Seq::<u8>::empty());
            assert(dot_split(b2) =~~= seq![Seq::<u8>::empty()]);
            assert(dot_split(b1) =~~= seq![Seq::<u8>::empty()] + dot_split(b2));
            assert(dot_split(b1) =~~= seq![Seq::<u8>::empty()] + seq![Seq::<u8>::empty()]);
            assert(dot_split(b)[1] =~= Seq::<u8>::empty());
            assert(false);
        }
        assert(rest =~~= seq![Seq::<u8>::empty()] + dot_split(b2));
        assert(dot_split(b) =~~= seq![seq![c]] + dot_split(b2));
        assert forall|k: int| 0 <= k < dot_split(b2).len() implies 1 <= (#[trigger] dot_split(
            b2,
        )[k]).len() <= 63 by {
            assert(dot_split(b)[k + 1] == dot_split(b2)[k]);
        }
        lemma_join_split(b2);
        assert(dot_split(b).drop_first() =~~= dot_split(b2));
        assert(join_labels(dot_split(b)) == name_join(seq![c], b2));
        assert(join_labels(dot_split(b)) =~= b);
    } else {
        // the first label continues into the rest of the text
        lemma_dot_split_first(b1);
        let r0 = rest[0];
        assert(dot_split(b) =~~= rest.update(0, seq![c] + r0));
        assert forall|k: int| 0 <= k < rest.len() implies 1 <= (#[trigger] rest[k]).len()
            <= 63 by {
            if k == 0 {
                assert(dot_split(b)[0] == seq![c] + r0);
            } else {
                assert(dot_split(b)[k] == rest[k]);
            }
        }
        lemma_join_split(b1);
        assert(dot_split(b).drop_first() =~~= rest.drop_first());
        assert(join_labels(dot_split(b)) == name_join(seq![c] + r0, join_labels(
            rest.drop_first(),
        )));
        assert(b1 == name_join(r0, join_labels(rest.drop_first())));
        let x = join_labels(rest.drop_first());
        if x.len() == 0 {
            assert(join_labels(dot_split(b)) =~= seq![c] + r0);
            assert(b =~= seq![c] + b1);
        } else {
            assert(name_join(seq![c] + r0, x) =~= seq![c] + (r0 + seq![46u8] + x));
            assert(b =~= seq![c] + b1);
        }
    }
}

/// A run of valid labels takes at least two octets each on the wire.
proof fn lemma_wire_front_min_len(ls: Seq<Seq<u8>>)
    requires
        labels_ok(ls),
    ensures
        wire_front(ls).len() >= 2 * ls.len(),
    decreases ls.len(),
{
    if ls.len() > 0 {
        assert forall|k: int| 0 <= k < ls.drop_first().len() implies 1 <= (#[trigger] ls.drop_first(
        )[k]).len() <= 63 by {
            assert(ls.drop_first()[k] == ls[k + 1]);
        }
        lemma_wire_front_min_len(ls.drop_first());
    }
}

/// Decoding a run of length-prefixed labels closed by a zero octet yields
/// the labels joined with dots, consuming exactly the run.
proof fn lemma_labels_round_trip(
    packet: Seq<u8>,
    bytes: Seq<u8>,
    cur: int,
    ls: Seq<Seq<u8>>,
    labels: nat,
    acc: nat,
)
    requires
        labels_ok(ls),
        labels >= ls.len(),
        0 <= cur,
        cur + wire_front(ls).len() + 1 <= bytes.len(),
        bytes.subrange(cur, cur + wire_front(ls).len() + 1) == wire_front(ls) + seq![0u8],
        acc + wire_front(ls).len() <= 255,
    ensures
        spec_name_rel(packet, bytes, cur, labels, acc) == Some(
            (join_labels(ls), wire_front(ls).len() + 1 as int),
        ),
    decreases ls.len(),
{
    let w = wire_front(ls) + seq![0u8];
    if ls.len() == 0 {
        assert(bytes[cur] == w[0]);
        assert(bytes[cur] == 0);
    } else {
        let l0 = ls[0];
        let ls1 = ls.drop_first();
        assert forall|k: int| 0 <= k < ls1.len() implies 1 <= (#[trigger] ls1[k]).len() <= 63 by {
            assert(ls1[k] == ls[k + 1]);
        }
        let w1 = wire_front(ls1) + seq![0u8];
        assert(w =~= seq![l0.len() as u8] + l0 + w1);
        assert(bytes[cur] == w[0]);
        let len = bytes[cur];
        assert(len == l0.len());
        assert(1 <= len <= 63);
        assert(bytes.subrange(cur + 1, cur + 1 + len) =~= l0) by {
            assert forall|k: int| 0 <= k < len implies bytes.subrange(cur + 1, cur + 1 + len)[k]
                == l0[k] by {
                assert(bytes[cur + 1 + k] == w[1 + k]);
                assert(w[1 + k] == l0[k]);
            }
        }
        assert(bytes.subrange(cur + 1 + len, cur + 1 + len + wire_front(ls1).len() + 1)
            =~= w1) by {
            assert forall|k: int| 0 <= k < w1.len() implies bytes.subrange(
                cur + 1 + len,
                cur + 1 + len + wire_front(ls1).len() + 1,
            )[k] == w1[k] by {
                assert(bytes[cur + 1 + len + k] == w[1 + len + k]);
                assert(w[1 + len + k] == w1[k]);
            }
        }
        lemma_labels_round_trip(
            packet,
            bytes,
            cur + 1 + len,
            ls1,
            (labels - 1) as nat,
            (acc + len + 1) as nat,
        );
    }
}

/// Round trip: the uncompressed wire form of a sendable name, standing at
/// offset `cur` of the buffer, decodes back to exactly that name and
/// consumes exactly its wire form.
pub proof fn lemma_name_round_trip(packet: Seq<u8>, bytes: Seq<u8>, cur: int, nm: Seq<u8>)
    requires
        name_sendable(nm),
        0 <= cur,
        cur + spec_name_wire(nm).len() <= bytes.len(),
        bytes.subrange(cur, cur + spec_name_wire(nm).len() as int) == spec_name_wire(nm),
    ensures
        spec_name_parse_at(packet, bytes, cur) == Some((nm, spec_name_wire(nm).len() as int)),
{
    if nm.len() == 0 {
        let ls = Seq::<Seq<u8>>::empty();
        assert(wire_front(ls) =~= Seq::<u8>::empty());
        assert(spec_name_wire(nm) =~= wire_front(ls) + seq![0u8]);
        lemma_labels_round_trip(packet, bytes, cur, ls, label_read_bound(), 0);
        assert(join_labels(ls) =~= nm);
    } else {
        let ls = dot_split(nm);
        lemma_wire_front_min_len(ls);
        lemma_dot_split_len(nm);
        assert(spec_name_wire(nm) == wire_front(ls) + seq![0u8]);
        assert(wire_front(ls).len() + 1 <= 255);
        assert(2 * ls.len() <= 254);
        lemma_labels_round_trip(packet, bytes, cur, ls, label_read_bound(), 0);
        lemma_join_split(nm);
    }
}

// ---------------------------------------------------------------------------
// What compression pointers do and do not reach
// ---------------------------------------------------------------------------

/// Reading a name at the head of the whole message is reading it at that
/// absolute offset: the two decoders agree when the subslice is the message.
pub proof fn lemma_rel_is_at(msg: Seq<u8>, cur: int, labels: nat, acc: nat)
    ensures
        spec_name_rel(msg, msg, cur, labels, acc) == spec_name_at(msg, cur, labels, acc),
    decreases labels,
{
    if 0 <= cur < msg.len() {
        let len = msg[cur];
        if len != 0 && len < 0xc0 && !(len >= 0x40) && labels > 0 && acc + len + 1 <= 255 && cur + 1
            + len <= msg.len() {
            lemma_rel_is_at(msg, cur + 1 + len, (labels - 1) as nat, (acc + len + 1) as nat);
        }
    }
}

/// A pointer standing at `p` whose target `o` lies strictly before it
/// decodes to exactly the name that decodes at `o`, and consumes two octets:
/// replacing a later occurrence of a name with a pointer to an earlier one
/// preserves what decodes.
pub proof fn lemma_pointer_decodes_target(msg: Seq<u8>, p: int, o: int, labels: nat, acc: nat)
    requires
        0 <= o < p,
        p + 1 < msg.len(),
        o < 0x4000,
        msg[p] == (0xc0 + o / 256) as u8,
        msg[p + 1] == (o % 256) as u8,
        spec_name_at(msg, o, labels, acc) is Some,
    ensures
        spec_name_at(msg, p, labels, acc) == Some(
            (spec_name_at(msg, o, labels, acc)->Some_0.0, 2int),
        ),
{
    let len = msg[p];
    assert(len == 0xc0 + o / 256);
    assert((len - 0xc0) * 256 + msg[p + 1] == o);
}

/// A pointer whose target lies at or past its own position fails: no name
/// decodes through it.
pub proof fn lemma_forward_pointer_fails(msg: Seq<u8>, p: int, labels: nat, acc: nat)
    requires
        0 <= p < msg.len(),
        msg[p] >= 0xc0,
        p + 1 < msg.len() ==> (msg[p] - 0xc0) * 256 + msg[p + 1] >= p,
    ensures
        spec_name_at(msg, p, labels, acc) is None,
{
}

/// A pointer that points at itself fails like any forward pointer, and the
/// decoder ends: decoding is a total function, so no input loops it.
pub proof fn lemma_self_pointer_fails(msg: Seq<u8>, p: int, labels: nat, acc: nat)
    requires
        0 <= p < msg.len(),
        msg[p] >= 0xc0,
        p + 1 < msg.len() ==> (msg[p] - 0xc0) * 256 + msg[p + 1] == p,
    ensures
        spec_name_at(msg, p, labels, acc) is None,
{
    lemma_forward_pointer_fails(msg, p, labels, acc);
}

// ---------------------------------------------------------------------------
// Expanding a compression pointer by itself
// ---------------------------------------------------------------------------

/// The raw octets of the message from offset `t` through the next zero
/// octet, that octet included.
pub open spec fn spec_copy_target(packet: Seq<u8>, t: int) -> Option<Seq<u8>>
    decreases packet.len() - t,
{
    if t < 0 || t >= packet.len() {
        None
    } else if packet[t] == 0 {
        Some(seq![0u8])
    } else {
        match spec_copy_target(packet, t + 1) {
            Some(r) => Some(seq![packet[t]] + r),
            None => None,
        }
    }
}

/// What expanding the first compression pointer of `nb` yields: the raw
/// octets of `packet` from the pointer's target through the next zero octet;
/// the empty run when `nb` holds no pointer at or after `i`.
pub open spec fn spec_expand_pointers(packet: Seq<u8>, nb: Seq<u8>, i: int) -> Option<Seq<u8>>
    decreases nb.len() - i,
{
    if i < 0 || i >= nb.len() {
        Some(Seq::<u8>::empty())
    } else if nb[i] >= 0xc0 {
        if i + 1 >= nb.len() {
            None
        } else {
            spec_copy_target(packet, ((nb[i] - 0xc0) * 256 + nb[i + 1]) as int)
        }
    } else {
        spec_expand_pointers(packet, nb, i + 1)
    }
}

/// Scans `name_bytes` for its first compression pointer and returns the raw
/// octets of `packet_bytes` from the pointer's target through the next zero
/// octet; returns an empty run when no pointer occurs. Fails when the
/// pointer flag is the last octet, or its target runs off the message.
pub fn expand_pointers(packet_bytes: &[u8], name_bytes: &[u8]) -> (r: Result<Vec<u8>, ()>)
    ensures
        (r is Ok) == (spec_expand_pointers(packet_bytes@, name_bytes@, 0) is Some),
        r matches Ok(v) ==> Some(v@) == spec_expand_pointers(packet_bytes@, name_bytes@, 0),
{
    let ghost pkt = packet_bytes@;
    let ghost nb = name_bytes@;
    let nlen = name_bytes.len();
    let packet_len = packet_bytes.len();
    let mut i: usize = 0;
    while i < nlen && name_bytes[i] < 0xc0
        invariant
            pkt == packet_bytes@,
            nb == name_bytes@,
            nlen == nb.len(),
            packet_len == pkt.len(),
            i <= nlen,
            spec_expand_pointers(pkt, nb, 0) == spec_expand_pointers(pkt, nb, i as int),
        decreases nlen - i,
    {
        i = i + 1;
    }
    if i >= nlen {
        return Ok(Vec::new());
    }
    if i + 1 >= nlen {
        return Err(());
    }
    let t: usize = (name_bytes[i] as usize - 0xc0) * 256 + name_bytes[i + 1] as usize;
    let mut res: Vec<u8> = Vec::new();
    let mut p: usize = t;
    loop
        invariant
            pkt == packet_bytes@,
            nb == name_bytes@,
            packet_len == pkt.len(),
            t <= p,
            spec_expand_pointers(pkt, nb, 0) == spec_copy_target(pkt, t as int),
            spec_copy_target(pkt, t as int) == match spec_copy_target(pkt, p as int) {
                Some(r) => Some(res@ + r),
                None => None::<Seq<u8>>,
            },
        decreases pkt.len() - p,
    {
        if p >= packet_len {
            return Err(());
        }
        let c = packet_bytes[p];
        if c == 0 {
            res.push(0u8);
            proof {
                assert(res@ =~= res@.drop_last() + seq![0u8]);
            }
            return Ok(res);
        }
        let ghost old_res = res@;
        res.push(c);
        proof {
            let next = spec_copy_target(pkt, p + 1);
            if next is Some {
                assert(old_res + (seq![c] + next->Some_0) =~= res@ + next->Some_0);
            }
        }
        p = p + 1;
    }
}

} // verus!
