//! The wire format, stated mathematically: what the encoder emits for a
//! message, and what the decoder accepts, byte for byte.
//!
//! The parse functions double as the decoder's contract: the executable
//! decoder returns exactly what they return, so every error case is
//! pinned to the inputs that produce it. Pointer parsing carries a
//! `limit` that only ever moves backward, which is both the anti-loop
//! rule of the format and the termination measure of the parser.

use vstd::prelude::*;

use crate::error::DecodeErrorKind;
use crate::message::Header;
use crate::message::MessageV;
use crate::message::QuestionV;
use crate::message::RecordV;

verus! {

/// Big-endian image of a 16-bit value.
pub open spec fn enc_u16(v: int) -> Seq<u8>
    recommends
        0 <= v < 0x10000,
{
    seq![(v / 256) as u8, (v % 256) as u8]
}

/// Big-endian image of a 32-bit value.
pub open spec fn enc_u32(v: u32) -> Seq<u8> {
    seq![
        (v as int / 0x1000000) as u8,
        ((v as int / 0x10000) % 256) as u8,
        ((v as int / 256) % 256) as u8,
        (v as int % 256) as u8,
    ]
}

/// The two bytes at `pos`, read big-endian.
pub open spec fn read_u16(s: Seq<u8>, pos: int) -> int
    recommends
        0 <= pos,
        pos + 2 <= s.len(),
{
    s[pos] * 256 + s[pos + 1]
}

/// The four bytes at `pos`, read big-endian.
pub open spec fn read_u32(s: Seq<u8>, pos: int) -> int
    recommends
        0 <= pos,
        pos + 4 <= s.len(),
{
    ((s[pos] * 256 + s[pos + 1]) * 256 + s[pos + 2]) * 256 + s[pos + 3]
}

/// Uncompressed image of a label sequence: each label behind its length
/// octet, without the terminating root octet.
pub open spec fn enc_labels(ls: Seq<Seq<u8>>) -> Seq<u8>
    decreases ls.len(),
{
    if ls.len() == 0 {
        Seq::empty()
    } else {
        seq![ls[0].len() as u8] + ls[0] + enc_labels(ls.subrange(1, ls.len() as int))
    }
}

/// Uncompressed image of a whole name, root octet included.
pub open spec fn enc_name(ls: Seq<Seq<u8>>) -> Seq<u8> {
    enc_labels(ls) + seq![0u8]
}

/// The high flags byte: QR, opcode, AA, TC, RD.
pub open spec fn flags_hi(h: Header) -> int {
    (if h.response {
        128int
    } else {
        0int
    }) + h.opcode * 8 + (if h.authoritative {
        4int
    } else {
        0int
    }) + (if h.truncated {
        2int
    } else {
        0int
    }) + (if h.recursion_desired {
        1int
    } else {
        0int
    })
}

/// The low flags byte: RA and the response code; the middle bits are
/// emitted as zero and ignored on decode.
pub open spec fn flags_lo(h: Header) -> int {
    (if h.recursion_available {
        128int
    } else {
        0int
    }) + h.rcode
}

/// Image of the 12-byte header with the given section counts.
pub open spec fn enc_header(h: Header, qd: int, an: int, ns: int, ar: int) -> Seq<u8> {
    enc_u16(h.id as int) + seq![flags_hi(h) as u8, flags_lo(h) as u8] + enc_u16(qd) + enc_u16(an)
        + enc_u16(ns) + enc_u16(ar)
}

/// Image of one question.
pub open spec fn enc_question(q: QuestionV) -> Seq<u8> {
    enc_name(q.name) + enc_u16(q.qtype as int) + enc_u16(q.qclass as int)
}

/// Image of one resource record.
pub open spec fn enc_record(r: RecordV) -> Seq<u8> {
    enc_name(r.name) + enc_u16(r.rtype as int) + enc_u16(r.rclass as int) + enc_u32(r.ttl)
        + enc_u16(r.rdata.len() as int) + r.rdata
}

/// Image of the question section, in order.
pub open spec fn enc_questions(qs: Seq<QuestionV>) -> Seq<u8>
    decreases qs.len(),
{
    if qs.len() == 0 {
        Seq::empty()
    } else {
        enc_question(qs[0]) + enc_questions(qs.subrange(1, qs.len() as int))
    }
}

/// Image of one record section, in order.
pub open spec fn enc_records(rs: Seq<RecordV>) -> Seq<u8>
    decreases rs.len(),
{
    if rs.len() == 0 {
        Seq::empty()
    } else {
        enc_record(rs[0]) + enc_records(rs.subrange(1, rs.len() as int))
    }
}

/// The canonical, uncompressed wire image of a well-formed message:
/// header with derived counts, then the four sections in order.
pub open spec fn spec_encode(m: MessageV) -> Seq<u8> {
    enc_header(
        m.header,
        m.questions.len() as int,
        m.answers.len() as int,
        m.authorities.len() as int,
        m.additionals.len() as int,
    ) + enc_questions(m.questions) + enc_records(m.answers) + enc_records(m.authorities)
        + enc_records(m.additionals)
}

/// Extending a label prefix by one label appends that label's image.
pub proof fn lemma_enc_labels_snoc(ls: Seq<Seq<u8>>, i: int)
    requires
        0 <= i < ls.len(),
    ensures
        enc_labels(ls.subrange(0, i + 1)) == enc_labels(ls.subrange(0, i)) + seq![
            ls[i].len() as u8,
        ] + ls[i],
    decreases i,
{
    let a = ls.subrange(0, i + 1);
    let b = ls.subrange(0, i);
    if i == 0 {
        let e = Seq::<Seq<u8>>::empty();
        assert(b =~= e);
        assert(a.subrange(1, a.len() as int) =~= e);
        assert(enc_labels(a) == seq![a[0].len() as u8] + a[0] + enc_labels(a.subrange(1, 1)));
        assert(enc_labels(a) =~= enc_labels(b) + seq![ls[0].len() as u8] + ls[0]);
    } else {
        let tl = ls.subrange(1, ls.len() as int);
        lemma_enc_labels_snoc(tl, i - 1);
        assert(a.subrange(1, a.len() as int) =~= tl.subrange(0, i));
        assert(b.subrange(1, b.len() as int) =~= tl.subrange(0, i - 1));
        assert(tl.subrange(0, i - 1 + 1) =~= tl.subrange(0, i));
        assert(enc_labels(a) == seq![a[0].len() as u8] + a[0] + enc_labels(
            a.subrange(1, a.len() as int),
        ));
        assert(enc_labels(b) == seq![b[0].len() as u8] + b[0] + enc_labels(
            b.subrange(1, b.len() as int),
        ));
        assert(enc_labels(a) =~= enc_labels(b) + seq![ls[i].len() as u8] + ls[i]);
    }
}

/// Extending a question prefix by one question appends its image.
pub proof fn lemma_enc_questions_snoc(qs: Seq<QuestionV>, i: int)
    requires
        0 <= i < qs.len(),
    ensures
        enc_questions(qs.subrange(0, i + 1)) == enc_questions(qs.subrange(0, i)) + enc_question(
            qs[i],
        ),
    decreases i,
{
    let a = qs.subrange(0, i + 1);
    let b = qs.subrange(0, i);
    if i == 0 {
        let e = Seq::<QuestionV>::empty();
        assert(b =~= e);
        assert(a.subrange(1, a.len() as int) =~= e);
        assert(enc_questions(a) == enc_question(a[0]) + enc_questions(a.subrange(1, 1)));
        assert(enc_questions(a) =~= enc_questions(b) + enc_question(qs[0]));
    } else {
        let tl = qs.subrange(1, qs.len() as int);
        lemma_enc_questions_snoc(tl, i - 1);
        assert(a.subrange(1, a.len() as int) =~= tl.subrange(0, i));
        assert(b.subrange(1, b.len() as int) =~= tl.subrange(0, i - 1));
        assert(tl.subrange(0, i - 1 + 1) =~= tl.subrange(0, i));
        assert(enc_questions(a) == enc_question(a[0]) + enc_questions(
            a.subrange(1, a.len() as int),
        ));
        assert(enc_questions(b) == enc_question(b[0]) + enc_questions(
            b.subrange(1, b.len() as int),
        ));
        assert(enc_questions(a) =~= enc_questions(b) + enc_question(qs[i]));
    }
}

/// Extending a record prefix by one record appends its image.
pub proof fn lemma_enc_records_snoc(rs: Seq<RecordV>, i: int)
    requires
        0 <= i < rs.len(),
    ensures
        enc_records(rs.subrange(0, i + 1)) == enc_records(rs.subrange(0, i)) + enc_record(rs[i]),
    decreases i,
{
    let a = rs.subrange(0, i + 1);
    let b = rs.subrange(0, i);
    if i == 0 {
        let e = Seq::<RecordV>::empty();
        assert(b =~= e);
        assert(a.subrange(1, a.len() as int) =~= e);
        assert(enc_records(a) == enc_record(a[0]) + enc_records(a.subrange(1, 1)));
        assert(enc_records(a) =~= enc_records(b) + enc_record(rs[0]));
    } else {
        let tl = rs.subrange(1, rs.len() as int);
        lemma_enc_records_snoc(tl, i - 1);
        assert(a.subrange(1, a.len() as int) =~= tl.subrange(0, i));
        assert(b.subrange(1, b.len() as int) =~= tl.subrange(0, i - 1));
        assert(tl.subrange(0, i - 1 + 1) =~= tl.subrange(0, i));
        assert(enc_records(a) == enc_record(a[0]) + enc_records(a.subrange(1, a.len() as int)));
        assert(enc_records(b) == enc_record(b[0]) + enc_records(b.subrange(1, b.len() as int)));
        assert(enc_records(a) =~= enc_records(b) + enc_record(rs[i]));
    }
}

/// Parses a name's labels at `pos`. `limit` is the strict upper bound a
/// compression pointer must stay under: it starts at the name's own
/// offset and follows each pointer taken, so every pointer points
/// strictly backward and no chain can loop. `acc` is the wire length
/// collected so far, capped so no parsed name exceeds 255 octets.
/// Returns the labels and the position just after the name in the
/// original stream.
pub open spec fn parse_labels(s: Seq<u8>, pos: int, limit: int, acc: int) -> Result<
    (Seq<Seq<u8>>, int),
    DecodeErrorKind,
>
    decreases limit, s.len() - pos,
{
    if pos < 0 || pos >= s.len() {
        Err(DecodeErrorKind::Truncated)
    } else {
        let b = s[pos] as int;
        if b == 0 {
            Ok((Seq::empty(), pos + 1))
        } else if b < 64 {
            if acc + 1 + b + 1 > 255 {
                Err(DecodeErrorKind::NameTooLong)
            } else if pos + 1 + b > s.len() {
                Err(DecodeErrorKind::Truncated)
            } else {
                match parse_labels(s, pos + 1 + b, limit, acc + 1 + b) {
                    Ok((tail, end)) => Ok((seq![s.subrange(pos + 1, pos + 1 + b)] + tail, end)),
                    Err(k) => Err(k),
                }
            }
        } else if b >= 192 {
            if pos + 1 >= s.len() {
                Err(DecodeErrorKind::Truncated)
            } else {
                let target = (b - 192) * 256 + s[pos + 1];
                if target >= limit || target >= s.len() {
                    Err(DecodeErrorKind::BadPointer)
                } else {
                    match parse_labels(s, target, target, acc) {
                        Ok((ls, _inner_end)) => Ok((ls, pos + 2)),
                        Err(k) => Err(k),
                    }
                }
            }
        } else {
            Err(DecodeErrorKind::BadLabel)
        }
    }
}

/// Parses one question at `pos`.
pub open spec fn parse_question(s: Seq<u8>, pos: int) -> Result<
    (QuestionV, int),
    DecodeErrorKind,
> {
    match parse_labels(s, pos, pos, 0) {
        Ok((name, p)) => if p + 4 <= s.len() {
            Ok(
                (
                    QuestionV {
                        name,
                        qtype: read_u16(s, p) as u16,
                        qclass: read_u16(s, p + 2) as u16,
                    },
                    p + 4,
                ),
            )
        } else {
            Err(DecodeErrorKind::Truncated)
        },
        Err(k) => Err(k),
    }
}

/// Parses one resource record at `pos`.
pub open spec fn parse_record(s: Seq<u8>, pos: int) -> Result<(RecordV, int), DecodeErrorKind> {
    match parse_labels(s, pos, pos, 0) {
        Ok((name, p)) => if p + 10 <= s.len() {
            let rdlen = read_u16(s, p + 8);
            if p + 10 + rdlen <= s.len() {
                Ok(
                    (
                        RecordV {
                            name,
                            rtype: read_u16(s, p) as u16,
                            rclass: read_u16(s, p + 2) as u16,
                            ttl: read_u32(s, p + 4) as u32,
                            rdata: s.subrange(p + 10, p + 10 + rdlen),
                        },
                        p + 10 + rdlen,
                    ),
                )
            } else {
                Err(DecodeErrorKind::Truncated)
            }
        } else {
            Err(DecodeErrorKind::Truncated)
        },
        Err(k) => Err(k),
    }
}

/// Parses `n` questions in order starting at `pos`.
pub open spec fn parse_questions(s: Seq<u8>, pos: int, n: int) -> Result<
    (Seq<QuestionV>, int),
    DecodeErrorKind,
>
    decreases n,
{
    if n <= 0 {
        Ok((Seq::empty(), pos))
    } else {
        match parse_question(s, pos) {
            Ok((q, p)) => match parse_questions(s, p, n - 1) {
                Ok((qs, end)) => Ok((seq![q] + qs, end)),
                Err(k) => Err(k),
            },
            Err(k) => Err(k),
        }
    }
}

/// Parses `n` resource records in order starting at `pos`.
pub open spec fn parse_records(s: Seq<u8>, pos: int, n: int) -> Result<
    (Seq<RecordV>, int),
    DecodeErrorKind,
>
    decreases n,
{
    if n <= 0 {
        Ok((Seq::empty(), pos))
    } else {
        match parse_record(s, pos) {
            Ok((r, p)) => match parse_records(s, p, n - 1) {
                Ok((rs, end)) => Ok((seq![r] + rs, end)),
                Err(k) => Err(k),
            },
            Err(k) => Err(k),
        }
    }
}

/// The header a buffer's first 12 bytes denote.
pub open spec fn parse_header(s: Seq<u8>) -> Header
    recommends
        s.len() >= 12,
{
    let hi = s[2] as int;
    let lo = s[3] as int;
    Header {
        id: read_u16(s, 0) as u16,
        response: hi / 128 == 1,
        opcode: ((hi / 8) % 16) as u8,
        authoritative: (hi / 4) % 2 == 1,
        truncated: (hi / 2) % 2 == 1,
        recursion_desired: hi % 2 == 1,
        recursion_available: lo / 128 == 1,
        rcode: (lo % 16) as u8,
    }
}

/// What decoding a whole buffer yields: the message, or the exact error.
/// The header's counts drive the section parses; bytes left over after
/// the counted records is a count mismatch, as is running short.
pub open spec fn spec_decode(s: Seq<u8>) -> Result<MessageV, DecodeErrorKind> {
    if s.len() < 12 {
        Err(DecodeErrorKind::Truncated)
    } else {
        let qd = read_u16(s, 4);
        let an = read_u16(s, 6);
        let ns = read_u16(s, 8);
        let ar = read_u16(s, 10);
        match parse_questions(s, 12, qd) {
            Ok((questions, p1)) => match parse_records(s, p1, an) {
                Ok((answers, p2)) => match parse_records(s, p2, ns) {
                    Ok((authorities, p3)) => match parse_records(s, p3, ar) {
                        Ok((additionals, p4)) => if p4 == s.len() {
                            Ok(
                                MessageV {
                                    header: parse_header(s),
                                    questions,
                                    answers,
                                    authorities,
                                    additionals,
                                },
                            )
                        } else {
                            Err(DecodeErrorKind::CountMismatch)
                        },
                        Err(k) => Err(k),
                    },
                    Err(k) => Err(k),
                },
                Err(k) => Err(k),
            },
            Err(k) => Err(k),
        }
    }
}

} // verus!
