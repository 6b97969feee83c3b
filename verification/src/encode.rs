//! The executable encoder. It emits the canonical uncompressed wire
//! image of a message — byte for byte the sequence [`spec_encode`]
//! describes — with the header's section counts derived from the
//! sections actually present, never from caller-supplied numbers. A
//! message violating a wire constraint is rejected with the exact
//! encode error; success is owed precisely on well-formed messages.

use vstd::prelude::*;

use crate::error::DnsError;
use crate::error::EncodeErrorKind;
use crate::message::Message;
use crate::message::Question;
use crate::message::Record;
use crate::message::message_wf;
use crate::message::question_wf;
use crate::message::record_wf;
use crate::name::DomainName;
use crate::name::MAX_LABEL_LEN;
use crate::name::MAX_NAME_LEN;
use crate::name::label_wf;
use crate::name::labels_enc_len;
use crate::name::lemma_labels_enc_len_prefix_bound;
use crate::name::lemma_labels_enc_len_snoc;
use crate::name::name_wf;
use crate::wire::enc_header;
use crate::wire::enc_labels;
use crate::wire::enc_name;
use crate::wire::enc_question;
use crate::wire::enc_questions;
use crate::wire::enc_record;
use crate::wire::enc_records;
use crate::wire::enc_u16;
use crate::wire::enc_u32;
use crate::wire::flags_hi;
use crate::wire::flags_lo;
use crate::wire::lemma_enc_labels_snoc;
use crate::wire::lemma_enc_questions_snoc;
use crate::wire::lemma_enc_records_snoc;
use crate::wire::spec_encode;

verus! {

/// Appends a 16-bit value big-endian.
fn put_u16(out: &mut Vec<u8>, v: u16)
    ensures
        final(out)@ == old(out)@ + enc_u16(v as int),
{
    out.push((v / 256) as u8);
    out.push((v % 256) as u8);
    proof {
        assert(final(out)@ =~= old(out)@ + enc_u16(v as int));
    }
}

/// Appends a 32-bit value big-endian.
fn put_u32(out: &mut Vec<u8>, v: u32)
    ensures
        final(out)@ == old(out)@ + enc_u32(v),
{
    out.push((v / 0x1000000) as u8);
    out.push(((v / 0x10000) % 256) as u8);
    out.push(((v / 256) % 256) as u8);
    out.push((v % 256) as u8);
    proof {
        assert(final(out)@ =~= old(out)@ + enc_u32(v));
    }
}

/// Appends a name uncompressed: each label behind its length octet,
/// then the root octet. Fails on exactly the names that violate a wire
/// bound, leaving the buffer in an unspecified state.
fn put_name(out: &mut Vec<u8>, name: &DomainName) -> (r: Result<(), EncodeErrorKind>)
    ensures
        r is Ok <==> name_wf(name@),
        r is Ok ==> final(out)@ == old(out)@ + enc_name(name@),
{
    let n = name.label_count();
    let mut total: usize = 1;
    let mut i: usize = 0;
    let ghost base = out@;
    proof {
        assert(name@.subrange(0, 0) =~= Seq::<Seq<u8>>::empty());
        assert(base + enc_labels(name@.subrange(0, 0)) =~= base);
    }
    while i < n
        invariant
            0 <= i <= n,
            n == name@.len(),
            forall|j: int| 0 <= j < i ==> label_wf(#[trigger] name@[j]),
            total == 1 + labels_enc_len(name@.subrange(0, i as int)),
            total <= 255,
            out@ == base + enc_labels(name@.subrange(0, i as int)),
        decreases n - i,
    {
        let l = name.label_at(i);
        if l.len() == 0 || l.len() > MAX_LABEL_LEN {
            proof {
                assert(!label_wf(name@[i as int]));
            }
            return Err(EncodeErrorKind::BadLabel);
        }
        if total + 1 + l.len() > MAX_NAME_LEN {
            proof {
                lemma_labels_enc_len_snoc(name@, i as int);
                lemma_labels_enc_len_prefix_bound(name@, i as int + 1);
            }
            return Err(EncodeErrorKind::NameTooLong);
        }
        let ghost mid = out@;
        out.push(l.len() as u8);
        let mut j: usize = 0;
        while j < l.len()
            invariant
                0 <= j <= l@.len(),
                l@ == name@[i as int],
                i < name@.len(),
                out@ == mid + seq![l@.len() as u8] + l@.subrange(0, j as int),
            decreases l@.len() - j,
        {
            out.push(l[j]);
            proof {
                assert(mid + seq![l@.len() as u8] + l@.subrange(0, j as int) + seq![l@[j as int]]
                    =~= mid + seq![l@.len() as u8] + l@.subrange(0, j + 1));
            }
            j = j + 1;
        }
        proof {
            assert(l@.subrange(0, l@.len() as int) =~= l@);
            lemma_labels_enc_len_snoc(name@, i as int);
            lemma_enc_labels_snoc(name@, i as int);
            assert(mid + seq![l@.len() as u8] + l@ =~= base + (enc_labels(
                name@.subrange(0, i as int),
            ) + seq![name@[i as int].len() as u8] + name@[i as int]));
        }
        total = total + 1 + l.len();
        i = i + 1;
    }
    out.push(0);
    proof {
        assert(name@.subrange(0, n as int) =~= name@);
        assert(base + enc_labels(name@) + seq![0u8] =~= base + (enc_labels(name@) + seq![0u8]));
    }
    Ok(())
}

/// Appends one question's image.
fn put_question(out: &mut Vec<u8>, q: &Question) -> (r: Result<(), EncodeErrorKind>)
    ensures
        r is Ok <==> question_wf(q@),
        r is Ok ==> final(out)@ == old(out)@ + enc_question(q@),
{
    let ghost base = out@;
    match put_name(out, &q.name) {
        Ok(()) => {},
        Err(k) => {
            return Err(k);
        },
    }
    put_u16(out, q.qtype);
    put_u16(out, q.qclass);
    proof {
        assert(base + enc_name(q@.name) + enc_u16(q@.qtype as int) + enc_u16(q@.qclass as int)
            =~= base + enc_question(q@));
    }
    Ok(())
}

/// Appends one record's image.
fn put_record(out: &mut Vec<u8>, rec: &Record) -> (r: Result<(), EncodeErrorKind>)
    ensures
        r is Ok <==> record_wf(rec@),
        r is Ok ==> final(out)@ == old(out)@ + enc_record(rec@),
{
    let ghost base = out@;
    match put_name(out, &rec.name) {
        Ok(()) => {},
        Err(k) => {
            return Err(k);
        },
    }
    if rec.rdata.len() > 0xFFFF {
        return Err(EncodeErrorKind::DataTooLong);
    }
    put_u16(out, rec.rtype);
    put_u16(out, rec.rclass);
    put_u32(out, rec.ttl);
    put_u16(out, rec.rdata.len() as u16);
    let ghost mid = out@;
    let mut j: usize = 0;
    proof {
        assert(mid + rec@.rdata.subrange(0, 0) =~= mid);
    }
    while j < rec.rdata.len()
        invariant
            0 <= j <= rec@.rdata.len(),
            out@ == mid + rec@.rdata.subrange(0, j as int),
        decreases rec@.rdata.len() - j,
    {
        out.push(rec.rdata[j]);
        proof {
            assert(mid + rec@.rdata.subrange(0, j as int) + seq![rec@.rdata[j as int]] =~= mid
                + rec@.rdata.subrange(0, j + 1));
        }
        j = j + 1;
    }
    proof {
        assert(rec@.rdata.subrange(0, rec@.rdata.len() as int) =~= rec@.rdata);
        assert(base + enc_name(rec@.name) + enc_u16(rec@.rtype as int) + enc_u16(
            rec@.rclass as int,
        ) + enc_u32(rec@.ttl) + enc_u16(rec@.rdata.len() as int) + rec@.rdata =~= base + enc_record(
            rec@,
        ));
    }
    Ok(())
}

/// Encodes a message to its canonical uncompressed wire image, exactly
/// the bytes [`spec_encode`] describes. Succeeds if and only if the
/// message is well formed; a violated wire constraint yields the
/// corresponding encode error instead.
pub fn encode(m: &Message) -> (r: Result<Vec<u8>, DnsError>)
    ensures
        r is Ok <==> message_wf(m@),
        r is Ok ==> r->Ok_0@ == spec_encode(m@),
        r is Err ==> r->Err_0 matches DnsError::Encode(_),
{
    if m.header.opcode >= 16 || m.header.rcode >= 16 {
        return Err(DnsError::Encode(EncodeErrorKind::FieldOverflow));
    }
    if m.questions.len() > crate::MAX_SECTION_COUNT || m.answers.len() > crate::MAX_SECTION_COUNT
        || m.authorities.len() > crate::MAX_SECTION_COUNT || m.additionals.len()
        > crate::MAX_SECTION_COUNT {
        return Err(DnsError::Encode(EncodeErrorKind::TooManyEntries));
    }
    let mut out: Vec<u8> = Vec::new();
    put_u16(&mut out, m.header.id);
    let hi: u8 = (if m.header.response {
        128u8
    } else {
        0u8
    }) + m.header.opcode * 8 + (if m.header.authoritative {
        4u8
    } else {
        0u8
    }) + (if m.header.truncated {
        2u8
    } else {
        0u8
    }) + (if m.header.recursion_desired {
        1u8
    } else {
        0u8
    });
    let lo: u8 = (if m.header.recursion_available {
        128u8
    } else {
        0u8
    }) + m.header.rcode;
    out.push(hi);
    out.push(lo);
    put_u16(&mut out, m.questions.len() as u16);
    put_u16(&mut out, m.answers.len() as u16);
    put_u16(&mut out, m.authorities.len() as u16);
    put_u16(&mut out, m.additionals.len() as u16);
    let ghost hdr = enc_header(
        m@.header,
        m@.questions.len() as int,
        m@.answers.len() as int,
        m@.authorities.len() as int,
        m@.additionals.len() as int,
    );
    proof {
        assert(hi as int == flags_hi(m@.header));
        assert(lo as int == flags_lo(m@.header));
        assert(out@ =~= hdr);
        assert(m@.questions.subrange(0, 0) =~= Seq::<crate::message::QuestionV>::empty());
        assert(hdr + enc_questions(m@.questions.subrange(0, 0)) =~= hdr);
    }
    let mut i: usize = 0;
    while i < m.questions.len()
        invariant
            0 <= i <= m@.questions.len(),
            m@.questions.len() == m.questions@.len(),
            forall|j: int| 0 <= j < i ==> question_wf(#[trigger] m@.questions[j]),
            out@ == hdr + enc_questions(m@.questions.subrange(0, i as int)),
        decreases m@.questions.len() - i,
    {
        match put_question(&mut out, &m.questions[i]) {
            Ok(()) => {},
            Err(k) => {
                proof {
                    assert(!question_wf(m@.questions[i as int]));
                }
                return Err(DnsError::Encode(k));
            },
        }
        proof {
            lemma_enc_questions_snoc(m@.questions, i as int);
            assert(hdr + enc_questions(m@.questions.subrange(0, i as int)) + enc_question(
                m@.questions[i as int],
            ) =~= hdr + enc_questions(m@.questions.subrange(0, i + 1)));
        }
        i = i + 1;
    }
    let ghost part1 = hdr + enc_questions(m@.questions);
    proof {
        assert(m@.questions.subrange(0, m@.questions.len() as int) =~= m@.questions);
        assert(m@.answers.subrange(0, 0) =~= Seq::<crate::message::RecordV>::empty());
        assert(part1 + enc_records(m@.answers.subrange(0, 0)) =~= part1);
    }
    let mut i: usize = 0;
    while i < m.answers.len()
        invariant
            0 <= i <= m@.answers.len(),
            m@.answers.len() == m.answers@.len(),
            forall|j: int| 0 <= j < i ==> record_wf(#[trigger] m@.answers[j]),
            out@ == part1 + enc_records(m@.answers.subrange(0, i as int)),
        decreases m@.answers.len() - i,
    {
        match put_record(&mut out, &m.answers[i]) {
            Ok(()) => {},
            Err(k) => {
                proof {
                    assert(!record_wf(m@.answers[i as int]));
                }
                return Err(DnsError::Encode(k));
            },
        }
        proof {
            lemma_enc_records_snoc(m@.answers, i as int);
            assert(part1 + enc_records(m@.answers.subrange(0, i as int)) + enc_record(
                m@.answers[i as int],
            ) =~= part1 + enc_records(m@.answers.subrange(0, i + 1)));
        }
        i = i + 1;
    }
    let ghost part2 = part1 + enc_records(m@.answers);
    proof {
        assert(m@.answers.subrange(0, m@.answers.len() as int) =~= m@.answers);
        assert(m@.authorities.subrange(0, 0) =~= Seq::<crate::message::RecordV>::empty());
        assert(part2 + enc_records(m@.authorities.subrange(0, 0)) =~= part2);
    }
    let mut i: usize = 0;
    while i < m.authorities.len()
        invariant
            0 <= i <= m@.authorities.len(),
            m@.authorities.len() == m.authorities@.len(),
            forall|j: int| 0 <= j < i ==> record_wf(#[trigger] m@.authorities[j]),
            out@ == part2 + enc_records(m@.authorities.subrange(0, i as int)),
        decreases m@.authorities.len() - i,
    {
        match put_record(&mut out, &m.authorities[i]) {
            Ok(()) => {},
            Err(k) => {
                proof {
                    assert(!record_wf(m@.authorities[i as int]));
                }
                return Err(DnsError::Encode(k));
            },
        }
        proof {
            lemma_enc_records_snoc(m@.authorities, i as int);
            assert(part2 + enc_records(m@.authorities.subrange(0, i as int)) + enc_record(
                m@.authorities[i as int],
            ) =~= part2 + enc_records(m@.authorities.subrange(0, i + 1)));
        }
        i = i + 1;
    }
    let ghost part3 = part2 + enc_records(m@.authorities);
    proof {
        assert(m@.authorities.subrange(0, m@.authorities.len() as int) =~= m@.authorities);
        assert(m@.additionals.subrange(0, 0) =~= Seq::<crate::message::RecordV>::empty());
        assert(part3 + enc_records(m@.additionals.subrange(0, 0)) =~= part3);
    }
    let mut i: usize = 0;
    while i < m.additionals.len()
        invariant
            0 <= i <= m@.additionals.len(),
            m@.additionals.len() == m.additionals@.len(),
            forall|j: int| 0 <= j < i ==> record_wf(#[trigger] m@.additionals[j]),
            out@ == part3 + enc_records(m@.additionals.subrange(0, i as int)),
        decreases m@.additionals.len() - i,
    {
        match put_record(&mut out, &m.additionals[i]) {
            Ok(()) => {},
            Err(k) => {
                proof {
                    assert(!record_wf(m@.additionals[i as int]));
                }
                return Err(DnsError::Encode(k));
            },
        }
        proof {
            lemma_enc_records_snoc(m@.additionals, i as int);
            assert(part3 + enc_records(m@.additionals.subrange(0, i as int)) + enc_record(
                m@.additionals[i as int],
            ) =~= part3 + enc_records(m@.additionals.subrange(0, i + 1)));
        }
        i = i + 1;
    }
    proof {
        assert(m@.additionals.subrange(0, m@.additionals.len() as int) =~= m@.additionals);
        assert(out@ =~= spec_encode(m@));
    }
    Ok(out)
}

} // verus!
