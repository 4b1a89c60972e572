//! Decoding of DNS packets received from the multicast group.
//!
//! The decoder reads the 12-byte header, skips the question section,
//! and extracts the answer records, keeping SRV and A records (the two
//! kinds discovery uses) and noting every other kind as present but
//! irrelevant. Names are decompressed: a length byte 1 to 63 starts a
//! label, a byte with the top two bits set is a pointer into the
//! packet, and a zero byte ends the name. A malformed packet decodes
//! to `None` and is simply discarded by the caller; pointer loops are
//! cut off by a fuel bound of one step per packet byte.

use vstd::prelude::*;

verus! {

/// Record type code of an A record.
pub const TYPE_A: u16 = 1;

/// Record type code of an SRV record.
pub const TYPE_SRV: u16 = 33;

/// The 16-bit big-endian word at offset `i`.
pub open spec fn read_u16(s: Seq<u8>, i: int) -> u16
    recommends
        0 <= i,
        i + 2 <= s.len(),
{
    ((s[i] as int) * 256 + (s[i + 1] as int)) as u16
}

/// The 32-bit big-endian word at offset `i`.
pub open spec fn read_u32(s: Seq<u8>, i: int) -> u32
    recommends
        0 <= i,
        i + 4 <= s.len(),
{
    ((s[i] as int) * 0x1000000 + (s[i + 1] as int) * 0x10000 + (s[i + 2] as int) * 256 + (s[i
        + 3] as int)) as u32
}

/// Decode the name starting at `pos`: the dotted name bytes and the
/// offset just past the name's in-place part. `None` for a truncated
/// name, a length byte 64 to 191, or a pointer chase longer than
/// `fuel` steps.
pub open spec fn spec_decode_name(s: Seq<u8>, pos: int, fuel: nat) -> Option<(Seq<u8>, int)>
    decreases fuel,
{
    if fuel == 0 {
        None
    } else if !(0 <= pos && pos < s.len()) {
        None
    } else {
        let len = s[pos] as int;
        if len == 0 {
            Some((Seq::empty(), pos + 1))
        } else if len >= 192 {
            if pos + 2 <= s.len() {
                let target = (len - 192) * 256 + (s[pos + 1] as int);
                match spec_decode_name(s, target, (fuel - 1) as nat) {
                    Some(p) => Some((p.0, pos + 2)),
                    None => None,
                }
            } else {
                None
            }
        } else if len >= 64 {
            None
        } else if pos + 1 + len <= s.len() {
            let label = s.subrange(pos + 1, pos + 1 + len);
            match spec_decode_name(s, pos + 1 + len, (fuel - 1) as nat) {
                Some(p) => Some(
                    (if p.0.len() == 0 {
                        label
                    } else {
                        label + seq![0x2Eu8] + p.0
                    }, p.1),
                ),
                None => None,
            }
        } else {
            None
        }
    }
}

/// An answer record, reduced to what discovery reads: an SRV record's
/// name, port and target host; an A record's name and address; or some
/// other kind of record.
pub enum DnsAnswer {
    Srv { name: Vec<u8>, port: u16, target: Vec<u8> },
    Addr { name: Vec<u8>, addr: u32 },
    Other,
}

/// The model of an answer record, over sequences.
pub ghost enum AnswerModel {
    Srv { name: Seq<u8>, port: u16, target: Seq<u8> },
    Addr { name: Seq<u8>, addr: u32 },
    Other,
}

impl View for DnsAnswer {
    type V = AnswerModel;

    open spec fn view(&self) -> AnswerModel {
        match self {
            DnsAnswer::Srv { name, port, target } => AnswerModel::Srv {
                name: name@,
                port: *port,
                target: target@,
            },
            DnsAnswer::Addr { name, addr } => AnswerModel::Addr { name: name@, addr: *addr },
            DnsAnswer::Other => AnswerModel::Other,
        }
    }
}

/// The models of a sequence of answers.
pub open spec fn models(s: Seq<DnsAnswer>) -> Seq<AnswerModel> {
    s.map_values(|a: DnsAnswer| a@)
}

/// Skip `count` question entries starting at `pos`: the offset just
/// past them, or `None` if one is malformed.
pub open spec fn spec_skip_questions(s: Seq<u8>, pos: int, count: nat) -> Option<int>
    decreases count,
{
    if count == 0 {
        Some(pos)
    } else {
        match spec_decode_name(s, pos, s.len()) {
            Some(p) => if p.1 + 4 <= s.len() {
                spec_skip_questions(s, p.1 + 4, (count - 1) as nat)
            } else {
                None
            },
            None => None,
        }
    }
}

/// Decode `count` answer records starting at `pos`: their models and
/// the offset just past them. A record that is truncated, an SRV
/// record whose data is shorter than 6 bytes, or an A record whose
/// data is not exactly 4 bytes makes the whole packet malformed.
pub open spec fn spec_parse_answers(s: Seq<u8>, pos: int, count: nat) -> Option<
    (Seq<AnswerModel>, int),
>
    decreases count,
{
    if count == 0 {
        Some((Seq::empty(), pos))
    } else {
        match spec_decode_name(s, pos, s.len()) {
            None => None,
            Some(np) => {
                let p2 = np.1;
                if p2 + 10 <= s.len() {
                    let rtype = read_u16(s, p2);
                    let rdlen = read_u16(s, p2 + 8) as int;
                    let rd = p2 + 10;
                    if rd + rdlen <= s.len() {
                        let ans = if rtype == TYPE_SRV {
                            if rdlen >= 6 {
                                match spec_decode_name(s, rd + 6, s.len()) {
                                    Some(tp) => Some(
                                        AnswerModel::Srv {
                                            name: np.0,
                                            port: read_u16(s, rd + 4),
                                            target: tp.0,
                                        },
                                    ),
                                    None => None,
                                }
                            } else {
                                None
                            }
                        } else if rtype == TYPE_A {
                            if rdlen == 4 {
                                Some(AnswerModel::Addr { name: np.0, addr: read_u32(s, rd) })
                            } else {
                                None
                            }
                        } else {
                            Some(AnswerModel::Other)
                        };
                        match ans {
                            None => None,
                            Some(a) => match spec_parse_answers(s, rd + rdlen, (count - 1) as nat) {
                                None => None,
                                Some(rp) => Some((seq![a] + rp.0, rp.1)),
                            },
                        }
                    } else {
                        None
                    }
                } else {
                    None
                }
            },
        }
    }
}

/// Decode a whole datagram: whether it is a query (header QR bit
/// clear) and the models of its answer records. `None` if the header
/// is shorter than 12 bytes or any question or answer is malformed;
/// records past the answer section are ignored.
pub open spec fn spec_parse(s: Seq<u8>) -> Option<(bool, Seq<AnswerModel>)> {
    if s.len() < 12 {
        None
    } else {
        let query = (s[2] as int) < 128;
        match spec_skip_questions(s, 12, read_u16(s, 4) as nat) {
            None => None,
            Some(pos) => match spec_parse_answers(s, pos, read_u16(s, 6) as nat) {
                None => None,
                Some(ap) => Some((query, ap.0)),
            },
        }
    }
}

/// A decoded packet: its direction and its answer records.
pub struct DnsPacket {
    pub query: bool,
    pub answers: Vec<DnsAnswer>,
}

/// The 16-bit big-endian word at offset `i` of `b`.
pub fn get_u16(b: &Vec<u8>, i: usize) -> (r: u16)
    requires
        i + 2 <= b@.len(),
    ensures
        r == read_u16(b@, i as int),
{
    let _n: usize = b.len();  // fixes the length as a machine word, bounding the offsets
    (b[i] as u16) * 256 + (b[i + 1] as u16)
}

/// The 32-bit big-endian word at offset `i` of `b`.
pub fn get_u32(b: &Vec<u8>, i: usize) -> (r: u32)
    requires
        i + 4 <= b@.len(),
    ensures
        r == read_u32(b@, i as int),
{
    let _n: usize = b.len();  // fixes the length as a machine word, bounding the offsets
    (b[i] as u32) * 0x1000000 + (b[i + 1] as u32) * 0x10000 + (b[i + 2] as u32) * 256 + (b[i
        + 3] as u32)
}

/// Decode the name starting at `pos`, as `spec_decode_name` says.
pub fn decode_name(s: &Vec<u8>, pos: usize, fuel: usize) -> (r: Option<(Vec<u8>, usize)>)
    ensures
        r matches Some(p) ==> spec_decode_name(s@, pos as int, fuel as nat) == Some(
            (p.0@, p.1 as int),
        ) && pos < p.1 <= s@.len(),
        r is None ==> spec_decode_name(s@, pos as int, fuel as nat) is None,
    decreases fuel,
{
    if fuel == 0 {
        return None;
    }
    if pos >= s.len() {
        return None;
    }
    let len = s[pos];
    if len == 0 {
        Some((Vec::new(), pos + 1))
    } else if len >= 192 {
        if s.len() - pos >= 2 {
            let target = ((len - 192) as usize) * 256 + (s[pos + 1] as usize);
            match decode_name(s, target, fuel - 1) {
                Some(p) => Some((p.0, pos + 2)),
                None => None,
            }
        } else {
            None
        }
    } else if len >= 64 {
        None
    } else if s.len() - pos >= (len as usize) + 1 {
        let label_end = pos + 1 + (len as usize);
        let mut label: Vec<u8> = Vec::new();
        let mut i: usize = pos + 1;
        while i < label_end
            invariant
                pos + 1 <= i <= label_end,
                label_end <= s@.len(),
                label@ == s@.subrange(pos + 1, i as int),
            decreases label_end - i,
        {
            label.push(s[i]);
            i += 1;
            proof {
                assert(label@ =~= s@.subrange(pos + 1, i as int));
            }
        }
        match decode_name(s, label_end, fuel - 1) {
            Some(p) => {
                let (rest, np) = p;
                if rest.len() == 0 {
                    Some((label, np))
                } else {
                    label.push(0x2E);
                    let mut rest_tail = rest;
                    label.append(&mut rest_tail);
                    proof {
                        assert(label@ =~= s@.subrange(pos + 1, pos + 1 + (len as int))
                            + seq![0x2Eu8] + (spec_decode_name(
                            s@,
                            pos + 1 + (len as int),
                            (fuel - 1) as nat,
                        )->Some_0.0));
                    }
                    Some((label, np))
                }
            }
            None => None,
        }
    } else {
        None
    }
}

/// Skip `count` question entries, as `spec_skip_questions` says.
pub fn skip_questions(s: &Vec<u8>, pos: usize, count: u16) -> (r: Option<usize>)
    requires
        pos <= s@.len(),
    ensures
        r matches Some(p) ==> spec_skip_questions(s@, pos as int, count as nat) == Some(
            p as int,
        ) && p <= s@.len(),
        r is None ==> spec_skip_questions(s@, pos as int, count as nat) is None,
    decreases count,
{
    if count == 0 {
        return Some(pos);
    }
    match decode_name(s, pos, s.len()) {
        None => None,
        Some((_name, np)) => {
            if s.len() - np >= 4 {
                skip_questions(s, np + 4, count - 1)
            } else {
                None
            }
        }
    }
}

/// Decode `count` answer records, as `spec_parse_answers` says.
pub fn parse_answers(s: &Vec<u8>, pos: usize, count: u16) -> (r: Option<(Vec<DnsAnswer>, usize)>)
    requires
        pos <= s@.len(),
    ensures
        r matches Some(p) ==> spec_parse_answers(s@, pos as int, count as nat) == Some(
            (models(p.0@), p.1 as int),
        ) && p.1 <= s@.len(),
        r is None ==> spec_parse_answers(s@, pos as int, count as nat) is None,
    decreases count,
{
    if count == 0 {
        proof {
            assert(models(Seq::<DnsAnswer>::empty()) =~= Seq::<AnswerModel>::empty());
        }
        return Some((Vec::new(), pos));
    }
    match decode_name(s, pos, s.len()) {
        None => None,
        Some((name, p2)) => {
            if s.len() - p2 < 10 {
                return None;
            }
            let rtype = get_u16(s, p2);
            let rdlen = get_u16(s, p2 + 8) as usize;
            let rd = p2 + 10;
            if s.len() - rd < rdlen {
                return None;
            }
            let ans: DnsAnswer;
            if rtype == TYPE_SRV {
                if rdlen < 6 {
                    return None;
                }
                let port = get_u16(s, rd + 4);
                match decode_name(s, rd + 6, s.len()) {
                    None => {
                        return None;
                    }
                    Some((target, _tnext)) => {
                        ans = DnsAnswer::Srv { name, port, target };
                    }
                }
            } else if rtype == TYPE_A {
                if rdlen != 4 {
                    return None;
                }
                let addr = get_u32(s, rd);
                ans = DnsAnswer::Addr { name, addr };
            } else {
                ans = DnsAnswer::Other;
            }
            match parse_answers(s, rd + rdlen, count - 1) {
                None => None,
                Some((rest, end)) => {
                    let mut out = rest;
                    out.insert(0, ans);
                    proof {
                        assert(models(out@) =~= seq![ans@] + models(out@.drop_first()));
                    }
                    Some((out, end))
                }
            }
        }
    }
}

/// Decode a whole datagram, as `spec_parse` says: `None` exactly when
/// the packet is malformed.
pub fn parse_packet(bytes: &Vec<u8>) -> (r: Option<DnsPacket>)
    ensures
        r matches Some(p) ==> spec_parse(bytes@) == Some((p.query, models(p.answers@))),
        r is None ==> spec_parse(bytes@) is None,
{
    if bytes.len() < 12 {
        return None;
    }
    let query = bytes[2] < 128;
    let qd = get_u16(bytes, 4);
    let an = get_u16(bytes, 6);
    match skip_questions(bytes, 12, qd) {
        None => None,
        Some(pos) => match parse_answers(bytes, pos, an) {
            None => None,
            Some((answers, _end)) => Some(DnsPacket { query, answers }),
        },
    }
}

} // verus!
