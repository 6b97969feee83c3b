//! The codec's round-trip law: decoding the encoder's output yields the
//! original message, for every well-formed message. Stated over the
//! wire-format spec functions, so it composes with the contracts of
//! [`crate::encode::encode`] and [`crate::decode::decode`].

use vstd::prelude::*;

use vstd::arithmetic::div_mod::lemma_div_denominator;
use vstd::arithmetic::div_mod::lemma_fundamental_div_mod;
use vstd::arithmetic::div_mod::lemma_fundamental_div_mod_converse_div;
use vstd::arithmetic::div_mod::lemma_fundamental_div_mod_converse_mod;

use crate::error::DecodeErrorKind;
use crate::message::Header;
use crate::message::MessageV;
use crate::message::QuestionV;
use crate::message::RecordV;
use crate::message::message_wf;
use crate::message::question_wf;
use crate::message::record_wf;
use crate::name::label_wf;
use crate::name::labels_enc_len;
use crate::name::lemma_labels_enc_len_nonneg;
use crate::name::name_enc_len;
use crate::name::name_wf;
use crate::wire::enc_labels;
use crate::wire::enc_name;
use crate::wire::enc_question;
use crate::wire::enc_questions;
use crate::wire::enc_record;
use crate::wire::enc_records;
use crate::wire::enc_u16;
use crate::wire::enc_u32;
use crate::wire::flags_hi;
use crate::wire::flags_lo;
use crate::wire::parse_labels;
use crate::wire::read_u16;
use crate::wire::read_u32;

verus! {

/// The label images are as long as the length function says.
pub proof fn lemma_enc_labels_len(ls: Seq<Seq<u8>>)
    ensures
        enc_labels(ls).len() == labels_enc_len(ls),
    decreases ls.len(),
{
    if ls.len() > 0 {
        lemma_enc_labels_len(ls.subrange(1, ls.len() as int));
    }
}

/// A name's image is as long as its wire length.
pub proof fn lemma_enc_name_len(ls: Seq<Seq<u8>>)
    ensures
        enc_name(ls).len() == name_enc_len(ls),
{
    lemma_enc_labels_len(ls);
}

/// Reading back two big-endian bytes recovers the 16-bit value.
pub proof fn lemma_read_enc_u16(s: Seq<u8>, pos: int, v: int)
    requires
        0 <= v < 0x10000,
        0 <= pos,
        pos + 2 <= s.len(),
        s[pos] == enc_u16(v)[0],
        s[pos + 1] == enc_u16(v)[1],
    ensures
        read_u16(s, pos) == v,
{
    lemma_fundamental_div_mod(v, 256);
}

/// Reading back four big-endian bytes recovers the 32-bit value.
pub proof fn lemma_read_enc_u32(s: Seq<u8>, pos: int, v: u32)
    requires
        0 <= pos,
        pos + 4 <= s.len(),
        s[pos] == enc_u32(v)[0],
        s[pos + 1] == enc_u32(v)[1],
        s[pos + 2] == enc_u32(v)[2],
        s[pos + 3] == enc_u32(v)[3],
    ensures
        read_u32(s, pos) == v,
{
    let x = v as int;
    lemma_fundamental_div_mod(x, 256);
    lemma_fundamental_div_mod(x / 256, 256);
    lemma_fundamental_div_mod(x / 256 / 256, 256);
    lemma_div_denominator(x, 256, 256);
    lemma_div_denominator(x, 0x10000, 256);
    lemma_div_denominator(x / 256, 256, 256);
    assert(x / 256 / 256 == x / 0x10000);
    assert(x / 256 / 256 / 256 == x / 0x1000000);
    assert(x / 0x1000000 < 256) by {
        assert(x < 0x100000000);
    }
}

/// The flag bytes decompose back into the header's fields.
pub proof fn lemma_flags_round_trip(h: Header)
    requires
        h.wf(),
    ensures
        flags_hi(h) / 128 == 1 <==> h.response,
        (flags_hi(h) / 8) % 16 == h.opcode,
        (flags_hi(h) / 4) % 2 == 1 <==> h.authoritative,
        (flags_hi(h) / 2) % 2 == 1 <==> h.truncated,
        flags_hi(h) % 2 == 1 <==> h.recursion_desired,
        flags_lo(h) / 128 == 1 <==> h.recursion_available,
        flags_lo(h) % 16 == h.rcode,
        0 <= flags_hi(h) < 256,
        0 <= flags_lo(h) < 256,
{
    let qr: int = if h.response {
        1
    } else {
        0
    };
    let aa: int = if h.authoritative {
        1
    } else {
        0
    };
    let tc: int = if h.truncated {
        1
    } else {
        0
    };
    let rd: int = if h.recursion_desired {
        1
    } else {
        0
    };
    let ra: int = if h.recursion_available {
        1
    } else {
        0
    };
    let hi = flags_hi(h);
    let lo = flags_lo(h);
    assert(hi == qr * 128 + h.opcode * 8 + aa * 4 + tc * 2 + rd);
    lemma_fundamental_div_mod_converse_div(hi, 128, qr, h.opcode * 8 + aa * 4 + tc * 2 + rd);
    lemma_fundamental_div_mod_converse_div(hi, 8, qr * 16 + h.opcode, aa * 4 + tc * 2 + rd);
    lemma_fundamental_div_mod_converse_mod(hi / 8, 16, qr, h.opcode as int);
    lemma_fundamental_div_mod_converse_div(hi, 4, qr * 32 + h.opcode * 2 + aa, tc * 2 + rd);
    lemma_fundamental_div_mod_converse_mod(hi / 4, 2, qr * 16 + h.opcode, aa);
    lemma_fundamental_div_mod_converse_div(hi, 2, qr * 64 + h.opcode * 4 + aa * 2 + tc, rd);
    lemma_fundamental_div_mod_converse_mod(hi / 2, 2, qr * 32 + h.opcode * 2 + aa, tc);
    lemma_fundamental_div_mod_converse_mod(hi, 2, qr * 64 + h.opcode * 4 + aa * 2 + tc, rd);
    lemma_fundamental_div_mod_converse_div(lo, 128, ra, h.rcode as int);
    lemma_fundamental_div_mod_converse_mod(lo, 16, ra * 8, h.rcode as int);
}

/// Parsing at the position of an uncompressed name image yields exactly
/// that name's labels, for any pointer limit and any length budget that
/// the name fits in.
pub proof fn lemma_parse_enc_name(s: Seq<u8>, pos: int, limit: int, acc: int, ls: Seq<Seq<u8>>)
    requires
        forall|i: int| 0 <= i < ls.len() ==> label_wf(#[trigger] ls[i]),
        0 <= acc,
        acc + labels_enc_len(ls) + 1 <= 255,
        0 <= pos,
        pos + labels_enc_len(ls) + 1 <= s.len(),
        s.subrange(pos, pos + labels_enc_len(ls) + 1) == enc_name(ls),
    ensures
        parse_labels(s, pos, limit, acc) == Result::<(Seq<Seq<u8>>, int), DecodeErrorKind>::Ok(
            (ls, pos + labels_enc_len(ls) + 1),
        ),
    decreases ls.len(),
{
    lemma_labels_enc_len_nonneg(ls);
    lemma_enc_labels_len(ls);
    let big = labels_enc_len(ls);
    let e = enc_name(ls);
    assert(s[pos] == e[0]);
    if ls.len() == 0 {
        assert(e[0] == 0);
        assert(s[pos] == 0);
        assert(ls =~= Seq::<Seq<u8>>::empty());
        assert(parse_labels(s, pos, limit, acc) == Result::<
            (Seq<Seq<u8>>, int),
            DecodeErrorKind,
        >::Ok((Seq::<Seq<u8>>::empty(), pos + 1)));
    } else {
        let l0 = ls[0];
        let b = l0.len() as int;
        let tail = ls.subrange(1, ls.len() as int);
        lemma_labels_enc_len_nonneg(tail);
        lemma_enc_labels_len(tail);
        let small = labels_enc_len(tail);
        assert(big == 1 + b + small);
        assert(enc_labels(ls) == seq![l0.len() as u8] + l0 + enc_labels(tail));
        assert(e == seq![l0.len() as u8] + l0 + enc_labels(tail) + seq![0u8]);
        assert(e[0] == l0.len() as u8);
        assert(1 <= b <= 63);
        assert(s[pos] as int == b);
        // The label branch of the parser is taken, and every check passes.
        assert(acc + 1 + b + 1 <= 255);
        assert(pos + 1 + b <= s.len());
        assert forall|i: int| 0 <= i < b implies s[pos + 1 + i] == l0[i] by {
            assert(e[1 + i] == l0[i]);
            assert(s[pos + 1 + i] == s.subrange(pos, pos + big + 1)[1 + i]);
        }
        assert(s.subrange(pos + 1, pos + 1 + b) =~= l0);
        // The remainder of the image is the tail's own image.
        assert forall|i: int| 0 <= i < small + 1 implies s[pos + 1 + b + i] == enc_name(tail)[i] by {
            assert(e[1 + b + i] == enc_name(tail)[i]);
            assert(s[pos + 1 + b + i] == s.subrange(pos, pos + big + 1)[1 + b + i]);
        }
        assert(s.subrange(pos + 1 + b, pos + 1 + b + small + 1) =~= enc_name(tail));
        lemma_parse_enc_name(s, pos + 1 + b, limit, acc + 1 + b, tail);
        assert(seq![s.subrange(pos + 1, pos + 1 + b)] + tail =~= ls);
        assert(parse_labels(s, pos + 1 + b, limit, acc + 1 + b) == Result::<
            (Seq<Seq<u8>>, int),
            DecodeErrorKind,
        >::Ok((tail, pos + 1 + b + small + 1)));
        assert(parse_labels(s, pos, limit, acc) == Result::<
            (Seq<Seq<u8>>, int),
            DecodeErrorKind,
        >::Ok((seq![s.subrange(pos + 1, pos + 1 + b)] + tail, pos + 1 + b + small + 1)));
    }
}

/// A successful label parse is stable under appending bytes: the parser
/// only ever reads positions it has bounds-checked, so growing the
/// buffer afterwards changes nothing about names already in it.
pub proof fn lemma_parse_labels_stable(s: Seq<u8>, ext: Seq<u8>, pos: int, limit: int, acc: int)
    requires
        parse_labels(s, pos, limit, acc) is Ok,
    ensures
        parse_labels(s + ext, pos, limit, acc) == parse_labels(s, pos, limit, acc),
    decreases limit, s.len() - pos,
{
    let s2 = s + ext;
    assert(s2[pos] == s[pos]);
    let b = s[pos] as int;
    if b == 0 {
    } else if b < 64 {
        lemma_parse_labels_stable(s, ext, pos + 1 + b, limit, acc + 1 + b);
        assert(s2.subrange(pos + 1, pos + 1 + b) =~= s.subrange(pos + 1, pos + 1 + b));
    } else {
        assert(s2[pos + 1] == s[pos + 1]);
        let target = (b - 192) * 256 + s[pos + 1];
        lemma_parse_labels_stable(s, ext, target, target, acc);
    }
}

/// A name's image decomposes: the bytes after the first label's image
/// are exactly the image of the remaining labels.
pub proof fn lemma_enc_name_unfold(ls: Seq<Seq<u8>>)
    requires
        ls.len() > 0,
    ensures
        enc_name(ls) == seq![ls[0].len() as u8] + ls[0] + enc_name(ls.subrange(1, ls.len() as int)),
{
    let tail = ls.subrange(1, ls.len() as int);
    assert(enc_labels(ls) == seq![ls[0].len() as u8] + ls[0] + enc_labels(tail));
    assert(enc_labels(ls) + seq![0u8] =~= seq![ls[0].len() as u8] + ls[0] + (enc_labels(tail)
        + seq![0u8]));
}

/// Within a name's image, the suffix starting at label `i` sits at the
/// byte offset given by the wire length of the labels before it.
pub proof fn lemma_enc_name_suffix(ls: Seq<Seq<u8>>, i: int)
    requires
        0 <= i <= ls.len(),
    ensures
        enc_name(ls).subrange(labels_enc_len(ls.subrange(0, i)), enc_name(ls).len() as int)
            == enc_name(ls.subrange(i, ls.len() as int)),
    decreases i,
{
    lemma_enc_labels_len(ls);
    crate::name::lemma_labels_enc_len_nonneg(ls.subrange(0, i));
    if i == 0 {
        assert(ls.subrange(0, 0) =~= Seq::<Seq<u8>>::empty());
        assert(ls.subrange(0, ls.len() as int) =~= ls);
        assert(enc_name(ls).subrange(0, enc_name(ls).len() as int) =~= enc_name(ls));
    } else {
        let tail = ls.subrange(1, ls.len() as int);
        lemma_enc_name_unfold(ls);
        lemma_enc_name_suffix(tail, i - 1);
        lemma_enc_labels_len(tail);
        crate::name::lemma_labels_enc_len_nonneg(tail.subrange(0, i - 1));
        crate::name::lemma_labels_enc_len_nonneg(tail);
        // The prefix lengths line up one label deeper.
        assert(tail.subrange(0, i - 1) =~= ls.subrange(1, i));
        lemma_prefix_len_step(ls, i);
        assert(tail.subrange(i - 1, tail.len() as int) =~= ls.subrange(i, ls.len() as int));
        let head = 1 + ls[0].len() as int;
        let pl = labels_enc_len(ls.subrange(0, i));
        let pl_tail = labels_enc_len(tail.subrange(0, i - 1));
        assert(pl == head + pl_tail);
        assert((seq![ls[0].len() as u8] + ls[0]).len() == head);
        assert(enc_name(ls).len() == head + enc_name(tail).len());
        crate::name::lemma_labels_enc_len_prefix_bound(tail, i - 1);
        assert forall|t: int|
            0 <= t < enc_name(ls).len() - pl implies #[trigger] enc_name(ls).subrange(
            pl,
            enc_name(ls).len() as int,
        )[t] == enc_name(tail).subrange(pl_tail, enc_name(tail).len() as int)[t] by {
            assert(enc_name(ls)[pl + t] == ((seq![ls[0].len() as u8] + ls[0]) + enc_name(
                tail,
            ))[head + (pl_tail + t)]);
            assert(enc_name(ls)[pl + t] == enc_name(tail)[pl_tail + t]);
        }
        assert(enc_name(ls).subrange(pl, enc_name(ls).len() as int) =~= enc_name(tail).subrange(
            pl_tail,
            enc_name(tail).len() as int,
        ));
    }
}

/// The wire length of a label prefix grows by the head label's image
/// when the prefix starts one label deeper.
proof fn lemma_prefix_len_step(ls: Seq<Seq<u8>>, i: int)
    requires
        1 <= i <= ls.len(),
    ensures
        labels_enc_len(ls.subrange(0, i)) == 1 + ls[0].len() + labels_enc_len(
            ls.subrange(1, ls.len() as int).subrange(0, i - 1),
        ),
{
    let p = ls.subrange(0, i);
    let tailp = ls.subrange(1, ls.len() as int).subrange(0, i - 1);
    assert(p.subrange(1, p.len() as int) =~= tailp);
    assert(labels_enc_len(p) == 1 + p[0].len() + labels_enc_len(p.subrange(1, p.len() as int)));
}

/// Splitting a label sequence splits its wire length.
pub proof fn lemma_labels_enc_len_split(ls: Seq<Seq<u8>>, i: int)
    requires
        0 <= i <= ls.len(),
    ensures
        labels_enc_len(ls) == labels_enc_len(ls.subrange(0, i)) + labels_enc_len(
            ls.subrange(i, ls.len() as int),
        ),
    decreases ls.len() - i,
{
    if i == ls.len() {
        assert(ls.subrange(0, i) =~= ls);
        assert(ls.subrange(i, ls.len() as int) =~= Seq::<Seq<u8>>::empty());
    } else {
        crate::name::lemma_labels_enc_len_snoc(ls, i);
        lemma_labels_enc_len_split(ls, i + 1);
        let a = ls.subrange(i, ls.len() as int);
        assert(a.subrange(1, a.len() as int) =~= ls.subrange(i + 1, ls.len() as int));
        assert(labels_enc_len(a) == 1 + a[0].len() + labels_enc_len(
            a.subrange(1, a.len() as int),
        ));
    }
}

/// Parsing at the position of a question's image yields that question.
pub proof fn lemma_parse_enc_question(s: Seq<u8>, pos: int, q: QuestionV)
    requires
        question_wf(q),
        0 <= pos,
        pos + enc_question(q).len() <= s.len(),
        s.subrange(pos, pos + enc_question(q).len()) == enc_question(q),
    ensures
        crate::wire::parse_question(s, pos) == Result::<(QuestionV, int), DecodeErrorKind>::Ok(
            (q, pos + enc_question(q).len()),
        ),
{
    let e = enc_question(q);
    let nl = name_enc_len(q.name);
    lemma_enc_name_len(q.name);
    lemma_labels_enc_len_nonneg(q.name);
    assert(e == enc_name(q.name) + enc_u16(q.qtype as int) + enc_u16(q.qclass as int));
    assert(e.len() == nl + 4);
    assert forall|i: int| 0 <= i < nl implies s[pos + i] == enc_name(q.name)[i] by {
        assert(s[pos + i] == s.subrange(pos, pos + e.len())[i]);
        assert(e[i] == enc_name(q.name)[i]);
    }
    assert(s.subrange(pos, pos + nl) =~= enc_name(q.name));
    lemma_parse_enc_name(s, pos, pos, 0, q.name);
    let p = pos + nl;
    assert(s[p] == s.subrange(pos, pos + e.len())[nl]);
    assert(s[p + 1] == s.subrange(pos, pos + e.len())[nl + 1]);
    assert(s[p + 2] == s.subrange(pos, pos + e.len())[nl + 2]);
    assert(s[p + 3] == s.subrange(pos, pos + e.len())[nl + 3]);
    assert(e[nl] == enc_u16(q.qtype as int)[0]);
    assert(e[nl + 1] == enc_u16(q.qtype as int)[1]);
    assert(e[nl + 2] == enc_u16(q.qclass as int)[0]);
    assert(e[nl + 3] == enc_u16(q.qclass as int)[1]);
    lemma_read_enc_u16(s, p, q.qtype as int);
    lemma_read_enc_u16(s, p + 2, q.qclass as int);
    let parsed = QuestionV {
        name: q.name,
        qtype: read_u16(s, p) as u16,
        qclass: read_u16(s, p + 2) as u16,
    };
    assert(parsed =~= q);
}

/// Parsing at the position of a record's image yields that record.
pub proof fn lemma_parse_enc_record(s: Seq<u8>, pos: int, r: RecordV)
    requires
        record_wf(r),
        0 <= pos,
        pos + enc_record(r).len() <= s.len(),
        s.subrange(pos, pos + enc_record(r).len()) == enc_record(r),
    ensures
        crate::wire::parse_record(s, pos) == Result::<(RecordV, int), DecodeErrorKind>::Ok(
            (r, pos + enc_record(r).len()),
        ),
{
    let e = enc_record(r);
    let nl = name_enc_len(r.name);
    let dl = r.rdata.len() as int;
    lemma_enc_name_len(r.name);
    lemma_labels_enc_len_nonneg(r.name);
    assert(e == enc_name(r.name) + enc_u16(r.rtype as int) + enc_u16(r.rclass as int) + enc_u32(
        r.ttl,
    ) + enc_u16(dl) + r.rdata);
    assert(e.len() == nl + 10 + dl);
    assert forall|i: int| 0 <= i < nl implies s[pos + i] == enc_name(r.name)[i] by {
        assert(s[pos + i] == s.subrange(pos, pos + e.len())[i]);
        assert(e[i] == enc_name(r.name)[i]);
    }
    assert(s.subrange(pos, pos + nl) =~= enc_name(r.name));
    lemma_parse_enc_name(s, pos, pos, 0, r.name);
    let p = pos + nl;
    assert(s[p] == s.subrange(pos, pos + e.len())[nl]);
    assert(s[p + 1] == s.subrange(pos, pos + e.len())[nl + 1]);
    assert(s[p + 2] == s.subrange(pos, pos + e.len())[nl + 2]);
    assert(s[p + 3] == s.subrange(pos, pos + e.len())[nl + 3]);
    assert(s[p + 4] == s.subrange(pos, pos + e.len())[nl + 4]);
    assert(s[p + 5] == s.subrange(pos, pos + e.len())[nl + 5]);
    assert(s[p + 6] == s.subrange(pos, pos + e.len())[nl + 6]);
    assert(s[p + 7] == s.subrange(pos, pos + e.len())[nl + 7]);
    assert(s[p + 8] == s.subrange(pos, pos + e.len())[nl + 8]);
    assert(s[p + 9] == s.subrange(pos, pos + e.len())[nl + 9]);
    assert(e[nl] == enc_u16(r.rtype as int)[0]);
    assert(e[nl + 1] == enc_u16(r.rtype as int)[1]);
    assert(e[nl + 2] == enc_u16(r.rclass as int)[0]);
    assert(e[nl + 3] == enc_u16(r.rclass as int)[1]);
    assert(e[nl + 4] == enc_u32(r.ttl)[0]);
    assert(e[nl + 5] == enc_u32(r.ttl)[1]);
    assert(e[nl + 6] == enc_u32(r.ttl)[2]);
    assert(e[nl + 7] == enc_u32(r.ttl)[3]);
    assert(e[nl + 8] == enc_u16(dl)[0]);
    assert(e[nl + 9] == enc_u16(dl)[1]);
    lemma_read_enc_u16(s, p, r.rtype as int);
    lemma_read_enc_u16(s, p + 2, r.rclass as int);
    lemma_read_enc_u32(s, p + 4, r.ttl);
    lemma_read_enc_u16(s, p + 8, dl);
    assert forall|i: int| 0 <= i < dl implies s[p + 10 + i] == r.rdata[i] by {
        assert(s[p + 10 + i] == s.subrange(pos, pos + e.len())[nl + 10 + i]);
        assert(e[nl + 10 + i] == r.rdata[i]);
    }
    assert(s.subrange(p + 10, p + 10 + dl) =~= r.rdata);
    let parsed = RecordV {
        name: r.name,
        rtype: read_u16(s, p) as u16,
        rclass: read_u16(s, p + 2) as u16,
        ttl: read_u32(s, p + 4) as u32,
        rdata: s.subrange(p + 10, p + 10 + dl),
    };
    assert(parsed =~= r);
}

/// Parsing as many questions as a section image holds yields exactly
/// that section.
pub proof fn lemma_parse_enc_questions(s: Seq<u8>, pos: int, qs: Seq<QuestionV>)
    requires
        forall|i: int| 0 <= i < qs.len() ==> question_wf(#[trigger] qs[i]),
        0 <= pos,
        pos + enc_questions(qs).len() <= s.len(),
        s.subrange(pos, pos + enc_questions(qs).len()) == enc_questions(qs),
    ensures
        crate::wire::parse_questions(s, pos, qs.len() as int) == Result::<
            (Seq<QuestionV>, int),
            DecodeErrorKind,
        >::Ok((qs, pos + enc_questions(qs).len())),
    decreases qs.len(),
{
    if qs.len() == 0 {
        assert(qs =~= Seq::<QuestionV>::empty());
    } else {
        let e = enc_questions(qs);
        let tail = qs.subrange(1, qs.len() as int);
        let e0 = enc_question(qs[0]);
        let et = enc_questions(tail);
        assert(e == e0 + et);
        assert forall|i: int| 0 <= i < e0.len() implies s[pos + i] == e0[i] by {
            assert(s[pos + i] == s.subrange(pos, pos + e.len())[i]);
            assert(e[i] == e0[i]);
        }
        assert(s.subrange(pos, pos + e0.len()) =~= e0);
        lemma_parse_enc_question(s, pos, qs[0]);
        let p = pos + e0.len();
        assert forall|i: int| 0 <= i < et.len() implies s[p + i] == et[i] by {
            assert(s[p + i] == s.subrange(pos, pos + e.len())[e0.len() + i]);
            assert(e[e0.len() + i] == et[i]);
        }
        assert(s.subrange(p, p + et.len()) =~= et);
        lemma_parse_enc_questions(s, p, tail);
        assert(seq![qs[0]] + tail =~= qs);
    }
}

/// Parsing as many records as a section image holds yields exactly that
/// section.
pub proof fn lemma_parse_enc_records(s: Seq<u8>, pos: int, rs: Seq<RecordV>)
    requires
        forall|i: int| 0 <= i < rs.len() ==> record_wf(#[trigger] rs[i]),
        0 <= pos,
        pos + enc_records(rs).len() <= s.len(),
        s.subrange(pos, pos + enc_records(rs).len()) == enc_records(rs),
    ensures
        crate::wire::parse_records(s, pos, rs.len() as int) == Result::<
            (Seq<RecordV>, int),
            DecodeErrorKind,
        >::Ok((rs, pos + enc_records(rs).len())),
    decreases rs.len(),
{
    if rs.len() == 0 {
        assert(rs =~= Seq::<RecordV>::empty());
    } else {
        let e = enc_records(rs);
        let tail = rs.subrange(1, rs.len() as int);
        let e0 = enc_record(rs[0]);
        let et = enc_records(tail);
        assert(e == e0 + et);
        assert forall|i: int| 0 <= i < e0.len() implies s[pos + i] == e0[i] by {
            assert(s[pos + i] == s.subrange(pos, pos + e.len())[i]);
            assert(e[i] == e0[i]);
        }
        assert(s.subrange(pos, pos + e0.len()) =~= e0);
        lemma_parse_enc_record(s, pos, rs[0]);
        let p = pos + e0.len();
        assert forall|i: int| 0 <= i < et.len() implies s[p + i] == et[i] by {
            assert(s[p + i] == s.subrange(pos, pos + e.len())[e0.len() + i]);
            assert(e[e0.len() + i] == et[i]);
        }
        assert(s.subrange(p, p + et.len()) =~= et);
        lemma_parse_enc_records(s, p, tail);
        assert(seq![rs[0]] + tail =~= rs);
    }
}

/// The round-trip law: decoding the canonical image of any well-formed
/// message yields that message back, semantically identical — header
/// bits, questions, every record section, in order.
#[verifier::rlimit(60)]
pub proof fn theorem_encode_decode(m: MessageV)
    requires
        message_wf(m),
    ensures
        crate::wire::spec_decode(crate::wire::spec_encode(m)) == Result::<
            MessageV,
            DecodeErrorKind,
        >::Ok(m),
{
    let s = crate::wire::spec_encode(m);
    let hdr = crate::wire::enc_header(
        m.header,
        m.questions.len() as int,
        m.answers.len() as int,
        m.authorities.len() as int,
        m.additionals.len() as int,
    );
    let eq = enc_questions(m.questions);
    let ea = enc_records(m.answers);
    let eu = enc_records(m.authorities);
    let ed = enc_records(m.additionals);
    assert(hdr.len() == 12);
    assert(s == hdr + eq + ea + eu + ed);
    assert(s.len() == 12 + eq.len() + ea.len() + eu.len() + ed.len());
    lemma_flags_round_trip(m.header);
    // Header bytes.
    assert forall|i: int| 0 <= i < 12 implies s[i] == hdr[i] by {}
    assert(s[0] == enc_u16(m.header.id as int)[0]);
    assert(s[1] == enc_u16(m.header.id as int)[1]);
    lemma_read_enc_u16(s, 0, m.header.id as int);
    assert(s[2] == flags_hi(m.header) as u8);
    assert(s[3] == flags_lo(m.header) as u8);
    assert(s[4] == enc_u16(m.questions.len() as int)[0]);
    assert(s[5] == enc_u16(m.questions.len() as int)[1]);
    lemma_read_enc_u16(s, 4, m.questions.len() as int);
    assert(s[6] == enc_u16(m.answers.len() as int)[0]);
    assert(s[7] == enc_u16(m.answers.len() as int)[1]);
    lemma_read_enc_u16(s, 6, m.answers.len() as int);
    assert(s[8] == enc_u16(m.authorities.len() as int)[0]);
    assert(s[9] == enc_u16(m.authorities.len() as int)[1]);
    lemma_read_enc_u16(s, 8, m.authorities.len() as int);
    assert(s[10] == enc_u16(m.additionals.len() as int)[0]);
    assert(s[11] == enc_u16(m.additionals.len() as int)[1]);
    lemma_read_enc_u16(s, 10, m.additionals.len() as int);
    assert(crate::wire::parse_header(s) =~= m.header);
    // Question section.
    let p1 = 12 + eq.len() as int;
    assert forall|i: int| 0 <= i < eq.len() implies s[12 + i] == eq[i] by {
        assert(s[12 + i] == (hdr + eq)[12 + i]);
    }
    assert(s.subrange(12, p1) =~= eq);
    lemma_parse_enc_questions(s, 12, m.questions);
    // Answer section.
    let p2 = p1 + ea.len() as int;
    assert forall|i: int| 0 <= i < ea.len() implies s[p1 + i] == ea[i] by {
        assert(s[p1 + i] == (hdr + eq + ea)[p1 + i]);
    }
    assert(s.subrange(p1, p2) =~= ea);
    lemma_parse_enc_records(s, p1, m.answers);
    // Authority section.
    let p3 = p2 + eu.len() as int;
    assert forall|i: int| 0 <= i < eu.len() implies s[p2 + i] == eu[i] by {
        assert(s[p2 + i] == (hdr + eq + ea + eu)[p2 + i]);
    }
    assert(s.subrange(p2, p3) =~= eu);
    lemma_parse_enc_records(s, p2, m.authorities);
    // Additional section.
    let p4 = p3 + ed.len() as int;
    assert forall|i: int| 0 <= i < ed.len() implies s[p3 + i] == ed[i] by {}
    assert(s.subrange(p3, p4) =~= ed);
    lemma_parse_enc_records(s, p3, m.additionals);
    assert(p4 == s.len());
    let decoded = crate::wire::spec_decode(s);
    assert(decoded is Ok);
    assert(decoded->Ok_0 =~= m);
}

} // verus!
