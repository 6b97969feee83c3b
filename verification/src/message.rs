//! The DNS message model: header, question, resource record, and the
//! message that the wire codec encodes and decodes.
//!
//! Section counts are not stored: the encoder derives them from the
//! sections actually present, and the decoder fails when the header's
//! counts disagree with the records it finds.

use vstd::prelude::*;

use crate::name::DomainName;
use crate::name::name_wf;

verus! {

/// The fixed-size message header, section counts excluded (they are
/// derived from the sections themselves).
#[derive(Clone, Copy, Debug, PartialEq, Eq, Structural)]
pub struct Header {
    /// 16-bit transaction identifier correlating a response to a request.
    pub id: u16,
    /// Whether this message is a response (the QR bit).
    pub response: bool,
    /// Kind of query; four bits on the wire.
    pub opcode: u8,
    /// Authoritative-answer bit.
    pub authoritative: bool,
    /// Truncation bit.
    pub truncated: bool,
    /// Recursion-desired bit.
    pub recursion_desired: bool,
    /// Recursion-available bit.
    pub recursion_available: bool,
    /// Response code; four bits on the wire.
    pub rcode: u8,
}

impl Header {
    /// The four-bit fields must fit their wire slots.
    pub open spec fn wf(self) -> bool {
        self.opcode < 16 && self.rcode < 16
    }
}

/// One entry of the question section.
#[derive(Clone, Debug)]
pub struct Question {
    /// The name being asked about.
    pub name: DomainName,
    /// Record type asked for.
    pub qtype: u16,
    /// Class asked for.
    pub qclass: u16,
}

/// Mathematical image of a question.
#[verifier::ext_equal]
pub struct QuestionV {
    /// The name, as a label sequence.
    pub name: Seq<Seq<u8>>,
    /// Record type asked for.
    pub qtype: u16,
    /// Class asked for.
    pub qclass: u16,
}

impl View for Question {
    type V = QuestionV;

    open spec fn view(&self) -> QuestionV {
        QuestionV { name: self.name@, qtype: self.qtype, qclass: self.qclass }
    }
}

/// A question is well formed when its name is.
pub open spec fn question_wf(q: QuestionV) -> bool {
    name_wf(q.name)
}

/// One resource record: an owning name, type, class, time-to-live and an
/// opaque, type-specific data payload. Unknown record types carry their
/// payload as raw bytes rather than failing to decode.
#[derive(Clone, Debug)]
pub struct Record {
    /// The name the record belongs to.
    pub name: DomainName,
    /// Record type.
    pub rtype: u16,
    /// Record class.
    pub rclass: u16,
    /// Time-to-live as read from the wire; signed there, so values with
    /// the high bit set clamp to zero on use.
    pub ttl: u32,
    /// Type-specific payload, kept as raw octets.
    pub rdata: Vec<u8>,
}

/// Mathematical image of a resource record.
#[verifier::ext_equal]
pub struct RecordV {
    /// The name the record belongs to.
    pub name: Seq<Seq<u8>>,
    /// Record type.
    pub rtype: u16,
    /// Record class.
    pub rclass: u16,
    /// Time-to-live, raw wire value.
    pub ttl: u32,
    /// Type-specific payload.
    pub rdata: Seq<u8>,
}

impl View for Record {
    type V = RecordV;

    open spec fn view(&self) -> RecordV {
        RecordV {
            name: self.name@,
            rtype: self.rtype,
            rclass: self.rclass,
            ttl: self.ttl,
            rdata: self.rdata@,
        }
    }
}

/// A record is well formed when its name is and its data fits the 16-bit
/// length slot.
pub open spec fn record_wf(r: RecordV) -> bool {
    name_wf(r.name) && r.rdata.len() <= 0xFFFF
}

/// The TTL as used: the wire value is a signed 32-bit quantity, clamped
/// to non-negative before any use.
pub open spec fn spec_ttl_clamped(ttl: u32) -> u32 {
    if ttl >= 0x8000_0000 {
        0u32
    } else {
        ttl
    }
}

impl Record {
    /// The time-to-live as consumers see it: negative wire values read
    /// as zero.
    pub fn ttl_clamped(&self) -> (r: u32)
        ensures
            r == spec_ttl_clamped(self.ttl),
    {
        if self.ttl >= 0x8000_0000 {
            0
        } else {
            self.ttl
        }
    }
}

/// A whole DNS message: header, question section and the three record
/// sections, each an ordered sequence.
#[derive(Clone, Debug)]
pub struct Message {
    /// The header, counts excluded.
    pub header: Header,
    /// The question section.
    pub questions: Vec<Question>,
    /// The answer section.
    pub answers: Vec<Record>,
    /// The authority section.
    pub authorities: Vec<Record>,
    /// The additional section.
    pub additionals: Vec<Record>,
}

/// Mathematical image of a message.
#[verifier::ext_equal]
pub struct MessageV {
    /// The header, counts excluded.
    pub header: Header,
    /// The question section.
    pub questions: Seq<QuestionV>,
    /// The answer section.
    pub answers: Seq<RecordV>,
    /// The authority section.
    pub authorities: Seq<RecordV>,
    /// The additional section.
    pub additionals: Seq<RecordV>,
}

impl View for Message {
    type V = MessageV;

    open spec fn view(&self) -> MessageV {
        MessageV {
            header: self.header,
            questions: self.questions@.map_values(|q: Question| q@),
            answers: self.answers@.map_values(|r: Record| r@),
            authorities: self.authorities@.map_values(|r: Record| r@),
            additionals: self.additionals@.map_values(|r: Record| r@),
        }
    }
}

/// A message is well formed when its header fields fit their slots,
/// every section fits its 16-bit count, and every name and payload obeys
/// its wire bound. These are exactly the messages the encoder accepts.
pub open spec fn message_wf(m: MessageV) -> bool {
    &&& m.header.wf()
    &&& m.questions.len() <= 0xFFFF
    &&& m.answers.len() <= 0xFFFF
    &&& m.authorities.len() <= 0xFFFF
    &&& m.additionals.len() <= 0xFFFF
    &&& forall|i: int| 0 <= i < m.questions.len() ==> question_wf(#[trigger] m.questions[i])
    &&& forall|i: int| 0 <= i < m.answers.len() ==> record_wf(#[trigger] m.answers[i])
    &&& forall|i: int| 0 <= i < m.authorities.len() ==> record_wf(#[trigger] m.authorities[i])
    &&& forall|i: int| 0 <= i < m.additionals.len() ==> record_wf(#[trigger] m.additionals[i])
}

impl Message {
    /// A query message with one question and empty record sections.
    pub fn new_query(id: u16, question: Question) -> (r: Self)
        ensures
            r@.header == (Header {
                id,
                response: false,
                opcode: 0,
                authoritative: false,
                truncated: false,
                recursion_desired: true,
                recursion_available: false,
                rcode: 0,
            }),
            r@.questions =~= seq![question@],
            r@.answers =~= Seq::<RecordV>::empty(),
            r@.authorities =~= Seq::<RecordV>::empty(),
            r@.additionals =~= Seq::<RecordV>::empty(),
    {
        let header = Header {
            id,
            response: false,
            opcode: 0,
            authoritative: false,
            truncated: false,
            recursion_desired: true,
            recursion_available: false,
            rcode: 0,
        };
        let mut questions: Vec<Question> = Vec::new();
        questions.push(question);
        Message {
            header,
            questions,
            answers: Vec::new(),
            authorities: Vec::new(),
            additionals: Vec::new(),
        }
    }
}

} // verus!
