//! Encoding of mDNS query packets.
//!
//! A query datagram is a 12-byte DNS header followed by one question:
//! the target service name in DNS label encoding, a QTYPE and a QCLASS.

use vstd::prelude::*;

verus! {

/// Flags word of a standard query: every bit clear.
pub const OPCODE_QUERY: u16 = 0;

/// QTYPE for a PTR question.
pub const QTYPE_PTR: u16 = 12;

/// QCLASS for the Internet class.
pub const QCLASS_IN: u16 = 1;

/// The two big-endian bytes of a 16-bit word.
pub open spec fn be16(x: u16) -> Seq<u8> {
    seq![(x / 256) as u8, (x % 256) as u8]
}

/// The fixed 12-byte DNS message header.
pub struct DnsHeader {
    pub id: u16,
    pub flags: u16,
    pub num_questions: u16,
    pub num_answers: u16,
    pub num_authorities: u16,
    pub num_additionals: u16,
}

/// The wire form of a header: six big-endian 16-bit words.
pub open spec fn header_bytes(h: DnsHeader) -> Seq<u8> {
    be16(h.id) + be16(h.flags) + be16(h.num_questions) + be16(h.num_answers)
        + be16(h.num_authorities) + be16(h.num_additionals)
}

impl DnsHeader {
    /// A header for one standard query: transaction id 0 (mDNS does not
    /// correlate queries and responses by id), one question, no other records.
    pub fn new_query() -> (r: Self)
        ensures
            r.id == 0,
            r.flags == OPCODE_QUERY,
            r.num_questions == 1,
            r.num_answers == 0,
            r.num_authorities == 0,
            r.num_additionals == 0,
    {
        DnsHeader {
            id: 0,
            flags: OPCODE_QUERY,
            num_questions: 1,
            num_answers: 0,
            num_authorities: 0,
            num_additionals: 0,
        }
    }

    /// Serialize the header into its 12 wire bytes.
    pub fn to_bytes(&self) -> (r: Vec<u8>)
        ensures
            r@ == header_bytes(*self),
    {
        let mut bytes: Vec<u8> = Vec::new();
        push_be16(&mut bytes, self.id);
        push_be16(&mut bytes, self.flags);
        push_be16(&mut bytes, self.num_questions);
        push_be16(&mut bytes, self.num_answers);
        push_be16(&mut bytes, self.num_authorities);
        push_be16(&mut bytes, self.num_additionals);
        proof {
            assert(bytes@ =~= header_bytes(*self));
        }
        bytes
    }
}

/// Index of the first '.' in `s`, or `s.len()` if there is none.
pub open spec fn first_dot(s: Seq<u8>) -> int
    decreases s.len(),
{
    if s.len() == 0 {
        0
    } else if s[0] == 0x2Eu8 {
        0
    } else {
        1 + first_dot(s.drop_first())
    }
}

/// `first_dot` is the index of the first '.', with none before it.
pub proof fn lemma_first_dot_char(s: Seq<u8>, k: int)
    requires
        0 <= k <= s.len(),
        forall|j: int| 0 <= j < k ==> s[j] != 0x2Eu8,
        k < s.len() ==> s[k] == 0x2Eu8,
    ensures
        first_dot(s) == k,
    decreases s.len(),
{
    if s.len() == 0 {
    } else if s[0] == 0x2Eu8 {
        assert(k == 0);
    } else {
        assert(k >= 1);
        lemma_first_dot_char(s.drop_first(), k - 1);
    }
}

/// Every '.'-separated label of `s` is at most 63 bytes long, as DNS
/// name encoding requires.
pub open spec fn labels_ok(s: Seq<u8>) -> bool
    decreases s.len(),
{
    let d = first_dot(s);
    if d < 0 || d >= s.len() {
        s.len() <= 63
    } else {
        d <= 63 && labels_ok(s.subrange(d + 1, s.len() as int))
    }
}

/// DNS label encoding of the '.'-separated labels of `s`: each label
/// preceded by its length byte.
pub open spec fn spec_encode_labels(s: Seq<u8>) -> Seq<u8>
    decreases s.len(),
{
    let d = first_dot(s);
    if d < 0 || d >= s.len() {
        seq![s.len() as u8] + s
    } else {
        seq![d as u8] + s.subrange(0, d) + spec_encode_labels(s.subrange(d + 1, s.len() as int))
    }
}

/// DNS name encoding of `s`: its labels, then a zero length byte.
pub open spec fn spec_encode_name(s: Seq<u8>) -> Seq<u8> {
    spec_encode_labels(s) + seq![0u8]
}

/// Encode a dotted name ("host.local") into DNS labels: each label
/// preceded by its length byte (0 to 63), terminated by a zero byte.
pub fn encode_dns_name(name: &Vec<u8>) -> (r: Vec<u8>)
    requires
        labels_ok(name@),
    ensures
        r@ == spec_encode_name(name@),
{
    let n = name.len();
    let mut out: Vec<u8> = Vec::new();
    let mut from: usize = 0;
    proof {
        assert(name@.subrange(0, n as int) =~= name@);
    }
    loop
        invariant
            from <= n,
            n == name@.len(),
            labels_ok(name@.subrange(from as int, n as int)),
            out@ + spec_encode_labels(name@.subrange(from as int, n as int))
                == spec_encode_labels(name@),
        decreases n - from,
    {
        let ghost rest = name@.subrange(from as int, n as int);
        // scan for the next '.', or the end of the name
        let mut d: usize = from;
        while d < n && name[d] != 0x2E
            invariant
                from <= d <= n,
                n == name@.len(),
                forall|j: int| from <= j < d ==> name@[j] != 0x2Eu8,
            decreases n - d,
        {
            d += 1;
        }
        proof {
            assert forall|j: int| 0 <= j < d - from implies rest[j] != 0x2Eu8 by {
                assert(rest[j] == name@[from + j]);
            }
            if d < n {
                assert(rest[d - from] == name@[d as int]);
            }
            lemma_first_dot_char(rest, d - from);
        }
        let label_len = d - from;
        out.push(label_len as u8);
        let ghost out_before = out@;
        let mut i: usize = from;
        while i < d
            invariant
                from <= i <= d <= n,
                n == name@.len(),
                out@ == out_before + name@.subrange(from as int, i as int),
            decreases d - i,
        {
            out.push(name[i]);
            i += 1;
            proof {
                assert(out@ =~= out_before + name@.subrange(from as int, i as int));
            }
        }
        if d == n {
            // last label: terminate the name
            proof {
                assert(name@.subrange(from as int, i as int) =~= rest);
                assert(spec_encode_labels(rest) =~= seq![(rest.len() as u8)] + rest);
                assert(out@ =~= spec_encode_labels(name@));
            }
            out.push(0);
            proof {
                assert(out@ =~= spec_encode_labels(name@) + seq![0u8]);
            }
            return out;
        }
        proof {
            let drel = d - from;
            assert(name@.subrange(from as int, i as int) =~= rest.subrange(0, drel));
            assert(rest.subrange(drel + 1, rest.len() as int)
                =~= name@.subrange(d + 1, n as int));
            assert(spec_encode_labels(rest) == seq![drel as u8] + rest.subrange(0, drel)
                + spec_encode_labels(rest.subrange(drel + 1, rest.len() as int)));
            assert(out@ + spec_encode_labels(name@.subrange(d + 1, n as int))
                =~= spec_encode_labels(name@));
        }
        from = d + 1;
    }
}

/// The full query datagram for a service name: a query header, the
/// encoded name, QTYPE PTR and QCLASS IN ("unicast response" bit
/// unset).
pub open spec fn spec_query_bytes(name: Seq<u8>) -> Seq<u8> {
    header_bytes(
        DnsHeader {
            id: 0,
            flags: OPCODE_QUERY,
            num_questions: 1,
            num_answers: 0,
            num_authorities: 0,
            num_additionals: 0,
        },
    ) + spec_encode_name(name) + be16(QTYPE_PTR) + be16(QCLASS_IN)
}

/// Build the query datagram that asks for records of `service_name`.
pub fn build_query(service_name: &Vec<u8>) -> (r: Vec<u8>)
    requires
        labels_ok(service_name@),
    ensures
        r@ == spec_query_bytes(service_name@),
{
    let header = DnsHeader::new_query();
    let mut packet = header.to_bytes();
    let mut name = encode_dns_name(service_name);
    packet.append(&mut name);
    push_be16(&mut packet, QTYPE_PTR);
    push_be16(&mut packet, QCLASS_IN);
    proof {
        assert(packet@ =~= spec_query_bytes(service_name@));
    }
    packet
}

/// Append the big-endian bytes of `x` to `v`.
fn push_be16(v: &mut Vec<u8>, x: u16)
    ensures
        final(v)@ == old(v)@ + be16(x),
{
    let hi: u8 = (x / 256) as u8;
    let lo: u8 = (x % 256) as u8;
    v.push(hi);
    v.push(lo);
    proof {
        assert(v@ =~= old(v)@ + be16(x));
    }
}

} // verus!
