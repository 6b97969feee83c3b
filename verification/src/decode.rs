//! The executable decoder. Every function returns exactly what the
//! corresponding parse function of [`crate::wire`] returns, so the
//! contract pins both the accepted messages and every error. All reads
//! are bounds-checked and the pointer-chasing recursion terminates by
//! the strictly decreasing `limit`, so malformed input can neither read
//! out of bounds nor loop.

use vstd::prelude::*;

use crate::error::DecodeErrorKind;
use crate::error::DnsError;
use crate::message::Header;
use crate::message::Message;
use crate::message::Question;
use crate::message::Record;
use crate::name::DomainName;
use crate::name::label_wf;
use crate::name::labels_enc_len;
use crate::name::name_wf;
use crate::wire::parse_header;
use crate::wire::parse_labels;
use crate::wire::parse_question;
use crate::wire::parse_questions;
use crate::wire::parse_record;
use crate::wire::parse_records;
use crate::wire::read_u16;
use crate::wire::read_u32;
use crate::wire::spec_decode;

verus! {

/// A successful label parse yields only well-formed labels, within the
/// remaining length budget: no decoded name ever exceeds 255 octets.
pub proof fn lemma_parse_labels_wf(s: Seq<u8>, pos: int, limit: int, acc: int)
    requires
        0 <= acc <= 254,
        parse_labels(s, pos, limit, acc) is Ok,
    ensures
        ({
            let (ls, _e) = parse_labels(s, pos, limit, acc)->Ok_0;
            &&& forall|i: int| 0 <= i < ls.len() ==> label_wf(#[trigger] ls[i])
            &&& acc + labels_enc_len(ls) + 1 <= 255
        }),
    decreases limit, s.len() - pos,
{
    let b = s[pos] as int;
    let (ls, _e) = parse_labels(s, pos, limit, acc)->Ok_0;
    if b == 0 {
        assert(labels_enc_len(ls) == 0);
    } else if b < 64 {
        let tail_r = parse_labels(s, pos + 1 + b, limit, acc + 1 + b);
        lemma_parse_labels_wf(s, pos + 1 + b, limit, acc + 1 + b);
        let (tail, _e2) = tail_r->Ok_0;
        assert(ls == seq![s.subrange(pos + 1, pos + 1 + b)] + tail);
        assert(ls.subrange(1, ls.len() as int) =~= tail);
        assert(labels_enc_len(ls) == 1 + b + labels_enc_len(tail));
    } else {
        let target = (b - 192) * 256 + s[pos + 1];
        lemma_parse_labels_wf(s, target, target, acc);
    }
}

/// Reads the big-endian 16-bit value at `pos`.
fn get_u16(s: &[u8], pos: usize) -> (r: u16)
    requires
        pos + 2 <= s@.len(),
    ensures
        r as int == read_u16(s@, pos as int),
{
    let hi = s[pos];
    let lo = s[pos + 1];
    (hi as u16) * 256 + (lo as u16)
}

/// Reads the big-endian 32-bit value at `pos`.
fn get_u32(s: &[u8], pos: usize) -> (r: u32)
    requires
        pos + 4 <= s@.len(),
    ensures
        r as int == read_u32(s@, pos as int),
{
    let b0 = s[pos];
    let b1 = s[pos + 1];
    let b2 = s[pos + 2];
    let b3 = s[pos + 3];
    (((b0 as u32) * 256 + (b1 as u32)) * 256 + (b2 as u32)) * 256 + (b3 as u32)
}

/// Parses a name's labels at `pos`, appending them to `out`; returns the
/// position just after the name. Mirrors [`parse_labels`] exactly.
fn parse_labels_into(s: &[u8], pos: usize, limit: usize, acc: usize, out: &mut Vec<Vec<u8>>) -> (r:
    Result<usize, DecodeErrorKind>)
    requires
        acc <= 254,
    ensures
        match parse_labels(s@, pos as int, limit as int, acc as int) {
            Ok((ls, end)) => {
                &&& r is Ok
                &&& r->Ok_0 == end
                &&& final(out)@.map_values(|l: Vec<u8>| l@) == old(out)@.map_values(
                    |l: Vec<u8>| l@,
                ) + ls
            },
            Err(k) => r == Result::<usize, DecodeErrorKind>::Err(k),
        },
    decreases limit, s@.len() - pos,
{
    let ghost spec_r = parse_labels(s@, pos as int, limit as int, acc as int);
    if pos >= s.len() {
        return Err(DecodeErrorKind::Truncated);
    }
    let b = s[pos];
    if b == 0 {
        proof {
            assert(out@.map_values(|l: Vec<u8>| l@) + Seq::<Seq<u8>>::empty() =~= out@.map_values(
                |l: Vec<u8>| l@,
            ));
        }
        Ok(pos + 1)
    } else if b < 64 {
        let blen = b as usize;
        if acc + 1 + blen + 1 > 255 {
            return Err(DecodeErrorKind::NameTooLong);
        }
        if blen > s.len() - pos - 1 {
            proof {
                assert(pos + 1 + b > s@.len());
            }
            return Err(DecodeErrorKind::Truncated);
        }
        let slen = s.len();
        let mut label: Vec<u8> = Vec::new();
        let mut j: usize = 0;
        proof {
            assert(label@ =~= s@.subrange(pos + 1, pos + 1 as int));
        }
        while j < blen
            invariant
                0 <= j <= blen,
                pos + 1 + blen <= slen,
                slen == s@.len(),
                label@ == s@.subrange(pos + 1, pos + 1 + j),
            decreases blen - j,
        {
            label.push(s[pos + 1 + j]);
            proof {
                assert(label@ =~= s@.subrange(pos + 1, pos + 1 + j + 1));
            }
            j = j + 1;
        }
        let ghost before = out@.map_values(|l: Vec<u8>| l@);
        out.push(label);
        proof {
            assert(out@.map_values(|l: Vec<u8>| l@) =~= before + seq![
                s@.subrange(pos + 1, pos + 1 + b),
            ]);
        }
        let r = parse_labels_into(s, pos + 1 + blen, limit, acc + 1 + blen, out);
        proof {
            if parse_labels(s@, (pos + 1 + blen) as int, limit as int, (acc + 1 + blen) as int)
                is Ok {
                let (tail, _e) = parse_labels(
                    s@,
                    (pos + 1 + blen) as int,
                    limit as int,
                    (acc + 1 + blen) as int,
                )->Ok_0;
                assert((before + seq![s@.subrange(pos + 1, pos + 1 + b)]) + tail =~= before + (seq![
                    s@.subrange(pos + 1, pos + 1 + b),
                ] + tail));
            }
        }
        r
    } else if b >= 192 {
        if pos + 1 >= s.len() {
            return Err(DecodeErrorKind::Truncated);
        }
        let target = ((b - 192) as usize) * 256 + (s[pos + 1] as usize);
        if target >= limit || target >= s.len() {
            return Err(DecodeErrorKind::BadPointer);
        }
        match parse_labels_into(s, target, target, acc, out) {
            Ok(_inner_end) => Ok(pos + 2),
            Err(k) => Err(k),
        }
    } else {
        Err(DecodeErrorKind::BadLabel)
    }
}

/// Parses a whole name at `pos`: its labels and the position after it.
fn parse_name_at(s: &[u8], pos: usize) -> (r: Result<(DomainName, usize), DecodeErrorKind>)
    ensures
        match parse_labels(s@, pos as int, pos as int, 0) {
            Ok((ls, end)) => {
                &&& r is Ok
                &&& r->Ok_0.0@ == ls
                &&& r->Ok_0.1 == end
                &&& name_wf(ls)
            },
            Err(k) => r == Result::<(DomainName, usize), DecodeErrorKind>::Err(k),
        },
{
    let mut labels: Vec<Vec<u8>> = Vec::new();
    match parse_labels_into(s, pos, pos, 0, &mut labels) {
        Ok(end) => {
            proof {
                lemma_parse_labels_wf(s@, pos as int, pos as int, 0);
                let (ls, _e) = parse_labels(s@, pos as int, pos as int, 0)->Ok_0;
                assert(Seq::<Seq<u8>>::empty() + ls =~= ls);
            }
            match DomainName::from_labels(labels) {
                Some(name) => Ok((name, end)),
                None => {
                    proof {
                        assert(false);
                    }
                    Err(DecodeErrorKind::BadLabel)
                },
            }
        },
        Err(k) => Err(k),
    }
}

/// Parses one question at `pos`.
fn parse_question_at(s: &[u8], pos: usize) -> (r: Result<(Question, usize), DecodeErrorKind>)
    ensures
        match parse_question(s@, pos as int) {
            Ok((q, end)) => {
                &&& r is Ok
                &&& r->Ok_0.0@ == q
                &&& r->Ok_0.1 == end
            },
            Err(k) => r == Result::<(Question, usize), DecodeErrorKind>::Err(k),
        },
{
    let (name, p) = match parse_name_at(s, pos) {
        Ok(v) => v,
        Err(k) => {
            return Err(k);
        },
    };
    if s.len() < 4 || p > s.len() - 4 {
        return Err(DecodeErrorKind::Truncated);
    }
    let qtype = get_u16(s, p);
    let qclass = get_u16(s, p + 2);
    Ok((Question { name, qtype, qclass }, p + 4))
}

/// Parses one resource record at `pos`.
fn parse_record_at(s: &[u8], pos: usize) -> (r: Result<(Record, usize), DecodeErrorKind>)
    ensures
        match parse_record(s@, pos as int) {
            Ok((rec, end)) => {
                &&& r is Ok
                &&& r->Ok_0.0@ == rec
                &&& r->Ok_0.1 == end
            },
            Err(k) => r == Result::<(Record, usize), DecodeErrorKind>::Err(k),
        },
{
    let (name, p) = match parse_name_at(s, pos) {
        Ok(v) => v,
        Err(k) => {
            return Err(k);
        },
    };
    if s.len() < 10 || p > s.len() - 10 {
        return Err(DecodeErrorKind::Truncated);
    }
    let rtype = get_u16(s, p);
    let rclass = get_u16(s, p + 2);
    let ttl = get_u32(s, p + 4);
    let rdlen = get_u16(s, p + 8) as usize;
    if rdlen > s.len() - p - 10 {
        return Err(DecodeErrorKind::Truncated);
    }
    let start = p + 10;
    let slen = s.len();
    let mut rdata: Vec<u8> = Vec::new();
    let mut j: usize = 0;
    proof {
        assert(rdata@ =~= s@.subrange(start as int, start as int));
    }
    while j < rdlen
        invariant
            0 <= j <= rdlen,
            start + rdlen <= slen,
            slen == s@.len(),
            rdata@ == s@.subrange(start as int, start + j),
        decreases rdlen - j,
    {
        rdata.push(s[start + j]);
        proof {
            assert(rdata@ =~= s@.subrange(start as int, start + j + 1));
        }
        j = j + 1;
    }
    Ok((Record { name, rtype, rclass, ttl, rdata }, start + rdlen))
}

/// Parses `n` questions starting at `pos`.
fn parse_questions_at(s: &[u8], pos: usize, n: usize) -> (r: Result<
    (Vec<Question>, usize),
    DecodeErrorKind,
>)
    ensures
        match parse_questions(s@, pos as int, n as int) {
            Ok((qs, end)) => {
                &&& r is Ok
                &&& r->Ok_0.0@.map_values(|q: Question| q@) == qs
                &&& r->Ok_0.1 == end
            },
            Err(k) => r == Result::<(Vec<Question>, usize), DecodeErrorKind>::Err(k),
        },
{
    let mut acc: Vec<Question> = Vec::new();
    let mut p = pos;
    let mut i: usize = 0;
    proof {
        assert(acc@.map_values(|q: Question| q@) =~= Seq::<crate::message::QuestionV>::empty());
    }
    while i < n
        invariant
            0 <= i <= n,
            match parse_questions(s@, p as int, (n - i) as int) {
                Ok((qs, end)) => parse_questions(s@, pos as int, n as int) matches Ok(
                    (all, e),
                ) && all == acc@.map_values(|q: Question| q@) + qs && e == end,
                Err(k) => parse_questions(s@, pos as int, n as int) == Result::<
                    (Seq<crate::message::QuestionV>, int),
                    DecodeErrorKind,
                >::Err(k),
            },
        decreases n - i,
    {
        let ghost before = acc@.map_values(|q: Question| q@);
        match parse_question_at(s, p) {
            Ok((q, np)) => {
                acc.push(q);
                proof {
                    let (tail, _e) = parse_questions(s@, np as int, (n - i - 1) as int)->Ok_0;
                    if parse_questions(s@, np as int, (n - i - 1) as int) is Ok {
                        assert(acc@.map_values(|qq: Question| qq@) =~= before + seq![q@]);
                        assert((before + seq![q@]) + tail =~= before + (seq![q@] + tail));
                    }
                }
                p = np;
            },
            Err(k) => {
                return Err(k);
            },
        }
        i = i + 1;
    }
    proof {
        assert(acc@.map_values(|q: Question| q@) + Seq::<crate::message::QuestionV>::empty()
            =~= acc@.map_values(|q: Question| q@));
    }
    Ok((acc, p))
}

/// Parses `n` resource records starting at `pos`.
fn parse_records_at(s: &[u8], pos: usize, n: usize) -> (r: Result<
    (Vec<Record>, usize),
    DecodeErrorKind,
>)
    ensures
        match parse_records(s@, pos as int, n as int) {
            Ok((rs, end)) => {
                &&& r is Ok
                &&& r->Ok_0.0@.map_values(|x: Record| x@) == rs
                &&& r->Ok_0.1 == end
            },
            Err(k) => r == Result::<(Vec<Record>, usize), DecodeErrorKind>::Err(k),
        },
{
    let mut acc: Vec<Record> = Vec::new();
    let mut p = pos;
    let mut i: usize = 0;
    proof {
        assert(acc@.map_values(|x: Record| x@) =~= Seq::<crate::message::RecordV>::empty());
    }
    while i < n
        invariant
            0 <= i <= n,
            match parse_records(s@, p as int, (n - i) as int) {
                Ok((rs, end)) => parse_records(s@, pos as int, n as int) matches Ok(
                    (all, e),
                ) && all == acc@.map_values(|x: Record| x@) + rs && e == end,
                Err(k) => parse_records(s@, pos as int, n as int) == Result::<
                    (Seq<crate::message::RecordV>, int),
                    DecodeErrorKind,
                >::Err(k),
            },
        decreases n - i,
    {
        let ghost before = acc@.map_values(|x: Record| x@);
        match parse_record_at(s, p) {
            Ok((rec, np)) => {
                acc.push(rec);
                proof {
                    let (tail, _e) = parse_records(s@, np as int, (n - i - 1) as int)->Ok_0;
                    if parse_records(s@, np as int, (n - i - 1) as int) is Ok {
                        assert(acc@.map_values(|x: Record| x@) =~= before + seq![rec@]);
                        assert((before + seq![rec@]) + tail =~= before + (seq![rec@] + tail));
                    }
                }
                p = np;
            },
            Err(k) => {
                return Err(k);
            },
        }
        i = i + 1;
    }
    proof {
        assert(acc@.map_values(|x: Record| x@) + Seq::<crate::message::RecordV>::empty()
            =~= acc@.map_values(|x: Record| x@));
    }
    Ok((acc, p))
}

/// Reads one — possibly compressed — name at `pos`: its labels and the
/// position just after it in the stream. The public face of the name
/// parser, for callers that handle name fields inside record data
/// themselves.
pub fn decode_name(buf: &[u8], pos: usize) -> (r: Result<(DomainName, usize), DnsError>)
    ensures
        match parse_labels(buf@, pos as int, pos as int, 0) {
            Ok((ls, end)) => (r matches Ok(v) && v.0@ == ls && v.1 == end),
            Err(k) => r == Result::<(DomainName, usize), DnsError>::Err(DnsError::Decode(k)),
        },
{
    match parse_name_at(buf, pos) {
        Ok(v) => Ok(v),
        Err(k) => Err(DnsError::Decode(k)),
    }
}

/// Decodes a wire buffer into a message, or reports exactly why it is
/// malformed. Returns what [`spec_decode`] says on every input: the
/// decoder accepts compressed and uncompressed names alike, rejects any
/// pointer that does not move strictly backward, and never panics on
/// attacker-controlled input.
pub fn decode(buf: &[u8]) -> (r: Result<Message, DnsError>)
    ensures
        match spec_decode(buf@) {
            Ok(m) => r matches Ok(out) && out@ == m,
            Err(k) => r == Result::<Message, DnsError>::Err(DnsError::Decode(k)),
        },
{
    if buf.len() < 12 {
        return Err(DnsError::Decode(DecodeErrorKind::Truncated));
    }
    let id = get_u16(buf, 0);
    let hi = buf[2];
    let lo = buf[3];
    let header = Header {
        id,
        response: hi / 128 == 1,
        opcode: (hi / 8) % 16,
        authoritative: (hi / 4) % 2 == 1,
        truncated: (hi / 2) % 2 == 1,
        recursion_desired: hi % 2 == 1,
        recursion_available: lo / 128 == 1,
        rcode: lo % 16,
    };
    proof {
        assert(header == parse_header(buf@));
    }
    let qd = get_u16(buf, 4) as usize;
    let an = get_u16(buf, 6) as usize;
    let ns = get_u16(buf, 8) as usize;
    let ar = get_u16(buf, 10) as usize;
    let (questions, p1) = match parse_questions_at(buf, 12, qd) {
        Ok(v) => v,
        Err(k) => {
            return Err(DnsError::Decode(k));
        },
    };
    let (answers, p2) = match parse_records_at(buf, p1, an) {
        Ok(v) => v,
        Err(k) => {
            return Err(DnsError::Decode(k));
        },
    };
    let (authorities, p3) = match parse_records_at(buf, p2, ns) {
        Ok(v) => v,
        Err(k) => {
            return Err(DnsError::Decode(k));
        },
    };
    let (additionals, p4) = match parse_records_at(buf, p3, ar) {
        Ok(v) => v,
        Err(k) => {
            return Err(DnsError::Decode(k));
        },
    };
    if p4 != buf.len() {
        return Err(DnsError::Decode(DecodeErrorKind::CountMismatch));
    }
    Ok(Message { header, questions, answers, authorities, additionals })
}

} // verus!
