//! The connection multiplexer: one transport, one pending-request
//! table, many concurrent callers. The multiplexer here is the pure
//! state machine over {Active, Draining, Closed}: callers register a
//! request and get the encoded bytes to hand to the transport; every
//! inbound buffer is fed back in and either completes the one matching
//! pending entry or is dropped silently. The surrounding event loop
//! performs the I/O and delivers each completion to its waiting caller.
//!
//! The table owns at most one live entry per transaction id; matching
//! is by id, question section (names compared case-insensitively) and,
//! for datagram transports, the peer address. A response matching no
//! entry disturbs nothing; teardown fails every pending entry at once,
//! so no caller is left hanging.

use vstd::prelude::*;

use vstd::arithmetic::div_mod::lemma_add_mod_noop;
use vstd::arithmetic::div_mod::lemma_mod_bound;
use vstd::arithmetic::div_mod::lemma_mod_self_0;
use vstd::arithmetic::div_mod::lemma_small_mod;

use crate::decode::decode;
use crate::encode::encode;
use crate::error::DnsError;
use crate::ident::IdSource;
use crate::message::Message;
use crate::message::MessageV;
use crate::message::Question;
use crate::message::QuestionV;
use crate::message::message_wf;
use crate::name::name_eq_ci;
use crate::wire::spec_decode;
use crate::wire::spec_encode;

verus! {

/// A remote endpoint, as plain values: an IPv6-mappable address and a
/// port. The surrounding I/O layer converts its socket addresses to
/// and from this form.
#[derive(Clone, Copy, Debug, PartialEq, Eq, Structural)]
pub struct PeerAddr {
    /// The address octets, widened to 128 bits.
    pub ip: u128,
    /// The port.
    pub port: u16,
}

/// Connection lifecycle: Active accepts new requests; Draining rejects
/// new ones while pending ones finish; Closed fails everything.
#[derive(Clone, Copy, Debug, PartialEq, Eq, Structural)]
pub enum ConnState {
    /// Accepting new requests.
    Active,
    /// Rejecting new requests, flushing pending ones.
    Draining,
    /// Down; nothing pending survives.
    Closed,
}

/// One open completion slot: a request sent and not yet resolved.
pub struct PendingEntry {
    /// The transaction id the request was sent under.
    pub id: u16,
    /// The question section sent, for the matching rule.
    pub questions: Vec<Question>,
    /// For datagram transports, the destination the request went to;
    /// a response must come back from exactly this peer.
    pub peer: Option<PeerAddr>,
    /// Absolute deadline of this request, in the caller's clock.
    pub deadline: u64,
    /// Whether the request legitimately yields several response
    /// messages (zone transfers do); such an entry accumulates them.
    pub expect_multi: bool,
    /// Responses accumulated so far for a multi-message answer.
    pub responses: Vec<Message>,
}

/// Mathematical image of a pending entry.
#[verifier::ext_equal]
pub struct PendingEntryV {
    /// Transaction id.
    pub id: u16,
    /// The question section sent.
    pub questions: Seq<QuestionV>,
    /// Destination peer, if a datagram transport.
    pub peer: Option<PeerAddr>,
    /// Absolute deadline.
    pub deadline: u64,
    /// Whether several responses are expected.
    pub expect_multi: bool,
    /// Responses accumulated so far.
    pub responses: Seq<MessageV>,
}

impl View for PendingEntry {
    type V = PendingEntryV;

    open spec fn view(&self) -> PendingEntryV {
        PendingEntryV {
            id: self.id,
            questions: self.questions@.map_values(|q: Question| q@),
            peer: self.peer,
            deadline: self.deadline,
            expect_multi: self.expect_multi,
            responses: self.responses@.map_values(|m: Message| m@),
        }
    }
}

/// The resolution of one pending request, handed to its waiting caller.
pub struct Completion {
    /// The transaction id that resolved.
    pub id: u16,
    /// The answer messages, or the one typed failure.
    pub outcome: Result<Vec<Message>, DnsError>,
}

/// What feeding one inbound buffer to the multiplexer produced.
pub enum Inbound {
    /// Malformed, unrelated or unmatched: dropped without any effect.
    Dropped,
    /// Appended to a still-open multi-message answer.
    Appended(u16),
    /// A pending request resolved.
    Done(Completion),
}

/// No two entries share a transaction id.
pub open spec fn wf_ids(t: Seq<PendingEntryV>) -> bool {
    forall|i: int, j: int| 0 <= i < j < t.len() ==> t[i].id != t[j].id
}

/// Some entry holds this id.
pub open spec fn has_id(t: Seq<PendingEntryV>, id: u16) -> bool {
    exists|i: int| 0 <= i < t.len() && t[i].id == id
}

/// The question-equality half of the matching rule: name equal up to
/// ASCII case, type and class equal exactly.
pub open spec fn question_matches(sent: QuestionV, got: QuestionV) -> bool {
    name_eq_ci(sent.name, got.name) && sent.qtype == got.qtype && sent.qclass == got.qclass
}

/// Two question sections are equal under the matching rule: same
/// length, and question for question equal up to name case.
pub open spec fn sections_match(sent: Seq<QuestionV>, got: Seq<QuestionV>) -> bool {
    sent.len() == got.len() && forall|i: int|
        0 <= i < sent.len() ==> question_matches(#[trigger] sent[i], got[i])
}

/// The full matching rule: a response message pairs with a pending
/// entry iff it is a response, the transaction ids are equal, its
/// question section equals the one sent, and — when the request went
/// over a datagram transport — it arrived from the request's
/// destination.
pub open spec fn response_matches(e: PendingEntryV, m: MessageV, from: Option<PeerAddr>) -> bool {
    &&& m.header.response
    &&& m.header.id == e.id
    &&& sections_match(e.questions, m.questions)
    &&& (e.peer is Some ==> from == e.peer)
}

/// The multiplexer's state: lifecycle, pending table, idle bookkeeping.
pub struct Multiplexer {
    /// Lifecycle state.
    pub state: ConnState,
    /// The pending-request table; at most one entry per id.
    pub pending: Vec<PendingEntry>,
    /// How long the connection may sit with no outbound request before
    /// it starts draining.
    pub idle_limit: u64,
    /// When the last outbound request was issued.
    pub last_send: u64,
}

impl Multiplexer {
    /// The table as a sequence of entry images.
    pub open spec fn table(self) -> Seq<PendingEntryV> {
        self.pending@.map_values(|e: PendingEntry| e@)
    }

    /// Well-formed: transaction ids are unique in the table.
    pub open spec fn wf(self) -> bool {
        wf_ids(self.table())
    }

    /// A fresh multiplexer over a just-opened transport.
    pub fn new(idle_limit: u64, now: u64) -> (r: Self)
        ensures
            r.state == ConnState::Active,
            r.table() =~= Seq::<PendingEntryV>::empty(),
            r.idle_limit == idle_limit,
            r.last_send == now,
            r.wf(),
    {
        Multiplexer { state: ConnState::Active, pending: Vec::new(), idle_limit, last_send: now }
    }

    /// Whether some pending entry holds this id.
    pub fn has_pending(&self, id: u16) -> (r: bool)
        ensures
            r == has_id(self.table(), id),
    {
        let n = self.pending.len();
        let mut i: usize = 0;
        while i < n
            invariant
                0 <= i <= n,
                n == self.table().len(),
                forall|j: int| 0 <= j < i ==> self.table()[j].id != id,
            decreases n - i,
        {
            if self.pending[i].id == id {
                proof {
                    assert(self.table()[i as int].id == id);
                }
                return true;
            }
            i = i + 1;
        }
        false
    }

    /// Probes for a transaction id no pending entry uses, starting from
    /// a random draw so ids stay unpredictable, and wrapping through
    /// the id space. A fresh id is owed whenever one is free: the probe
    /// comes back empty only when every 16-bit id is pending.
    pub fn fresh_id(&self, ids: &mut IdSource) -> (r: Option<u16>)
        ensures
            r matches Some(id) ==> !has_id(self.table(), id),
            r is None ==> forall|id: u16| #[trigger] has_id(self.table(), id),
    {
        let start = ids.next_raw();
        let mut cand = start;
        let mut k: u32 = 0;
        proof {
            lemma_small_mod(start as nat, 0x10000);
        }
        while k < 0x10000
            invariant
                0 <= k <= 0x10000,
                cand as int == ((start as int) + (k as int)) % 0x10000,
                forall|d: int|
                    0 <= d < k ==> #[trigger] has_id(
                        self.table(),
                        ((((start as int) + d) % 0x10000) as u16),
                    ),
            decreases 0x10000 - k,
        {
            if !self.has_pending(cand) {
                return Some(cand);
            }
            proof {
                // The probed id is pending; the next candidate is the
                // successor modulo the id space.
                assert(has_id(
                    self.table(),
                    ((((start as int) + (k as int)) % 0x10000) as u16),
                ));
                lemma_add_mod_noop((start as int) + (k as int), 1, 0x10000);
                lemma_small_mod(1nat, 0x10000);
                if cand == 0xFFFF {
                    lemma_mod_self_0(0x10000);
                } else {
                    lemma_small_mod((cand + 1) as nat, 0x10000);
                }
            }
            cand = if cand == 0xFFFF {
                0
            } else {
                cand + 1
            };
            k = k + 1;
        }
        proof {
            // Every id was probed: any id lies at some wrapped distance
            // from the starting draw.
            assert forall|id: u16| #[trigger] has_id(self.table(), id) by {
                let d = ((id as int) - (start as int)) % 0x10000;
                lemma_mod_bound((id as int) - (start as int), 0x10000);
                lemma_add_mod_noop(start as int, (id as int) - (start as int), 0x10000);
                lemma_small_mod(start as nat, 0x10000);
                lemma_small_mod(id as nat, 0x10000);
                assert(((start as int) + d) % 0x10000 == id as int);
                assert(has_id(self.table(), ((((start as int) + d) % 0x10000) as u16)));
            }
        }
        None
    }

    /// Registers a request and returns the encoded bytes to hand to the
    /// transport. Only an Active connection accepts work; the caller
    /// picks the id with [`Multiplexer::fresh_id`], so the id must not
    /// collide with a pending entry. Success is owed exactly on
    /// well-formed messages.
    pub fn send_request(
        &mut self,
        m: &Message,
        now: u64,
        deadline: u64,
        peer: Option<PeerAddr>,
        expect_multi: bool,
    ) -> (r: Result<Vec<u8>, DnsError>)
        requires
            old(self).wf(),
            !has_id(old(self).table(), m@.header.id),
        ensures
            final(self).wf(),
            old(self).state != ConnState::Active ==> r == Result::<Vec<u8>, DnsError>::Err(
                DnsError::ConnectionClosed,
            ) && *final(self) == *old(self),
            old(self).state == ConnState::Active && !message_wf(m@) ==> (r matches Err(e) && (
            e matches DnsError::Encode(_)) && *final(self) == *old(self)),
            old(self).state == ConnState::Active && message_wf(m@) ==> {
                &&& r matches Ok(bytes) && bytes@ == spec_encode(m@)
                &&& final(self).table() == old(self).table() + seq![
                    PendingEntryV {
                        id: m@.header.id,
                        questions: m@.questions,
                        peer,
                        deadline,
                        expect_multi,
                        responses: Seq::empty(),
                    },
                ]
                &&& final(self).state == ConnState::Active
                &&& final(self).last_send == now
                &&& final(self).idle_limit == old(self).idle_limit
            },
    {
        if !matches!(self.state, ConnState::Active) {
            return Err(DnsError::ConnectionClosed);
        }
        let bytes = match encode(m) {
            Ok(b) => b,
            Err(e) => {
                return Err(e);
            },
        };
        let mut questions: Vec<Question> = Vec::new();
        let mut qi: usize = 0;
        proof {
            assert(questions@.map_values(|q: Question| q@) =~= m@.questions.subrange(0, 0));
        }
        while qi < m.questions.len()
            invariant
                0 <= qi <= m@.questions.len(),
                m@.questions.len() == m.questions@.len(),
                questions@.map_values(|q: Question| q@) == m@.questions.subrange(0, qi as int),
            decreases m@.questions.len() - qi,
        {
            let q = &m.questions[qi];
            let cloned = Question { name: q.name.clone_name(), qtype: q.qtype, qclass: q.qclass };
            let ghost qs0 = questions@;
            proof {
                assert(cloned@ == m@.questions[qi as int]);
            }
            questions.push(cloned);
            proof {
                qs0.lemma_push_map_commute(|x: Question| x@, cloned);
                assert(questions@.map_values(|x: Question| x@) =~= m@.questions.subrange(
                    0,
                    qi + 1,
                ));
            }
            qi = qi + 1;
        }
        proof {
            assert(m@.questions.subrange(0, m@.questions.len() as int) =~= m@.questions);
        }
        let entry = PendingEntry {
            id: m.header.id,
            questions,
            peer,
            deadline,
            expect_multi,
            responses: Vec::new(),
        };
        let ghost ev = entry@;
        let ghost oldt = self.table();
        self.pending.push(entry);
        self.last_send = now;
        proof {
            let lit = PendingEntryV {
                id: m@.header.id,
                questions: m@.questions,
                peer,
                deadline,
                expect_multi,
                responses: Seq::empty(),
            };
            assert(ev.questions =~= lit.questions);
            assert(ev.responses =~= lit.responses);
            assert(ev =~= lit);
            assert(self.table() =~= oldt + seq![lit]);
            assert forall|i: int, j: int|
                0 <= i < j < self.table().len() implies self.table()[i].id
                != self.table()[j].id by {
                if j < oldt.len() {
                } else {
                    assert(self.table()[j].id == m@.header.id);
                    assert(oldt[i].id != m@.header.id);
                }
            }
        }
        Ok(bytes)
    }

    /// Feeds one raw inbound buffer through decode and the matching
    /// rule. Malformed buffers, non-responses and responses matching no
    /// pending entry are dropped silently and change nothing — garbage
    /// on the wire never disturbs other callers. A match either
    /// completes its entry (removing it: an entry completes at most
    /// once) or, for a multi-message answer, appends to it.
    pub fn on_inbound(&mut self, buf: &[u8], from: Option<PeerAddr>) -> (r: Inbound)
        requires
            old(self).wf(),
        ensures
            final(self).wf(),
            final(self).state == old(self).state,
            final(self).idle_limit == old(self).idle_limit,
            final(self).last_send == old(self).last_send,
            spec_decode(buf@) is Err ==> *final(self) == *old(self) && r is Dropped,
            spec_decode(buf@) matches Ok(m) ==> {
                &&& ((forall|i: int|
                    0 <= i < old(self).table().len() ==> !response_matches(
                        #[trigger] old(self).table()[i],
                        m,
                        from,
                    )) ==> *final(self) == *old(self) && r is Dropped)
                &&& (forall|k: int|
                    0 <= k < old(self).table().len() && response_matches(
                        #[trigger] old(self).table()[k],
                        m,
                        from,
                    ) ==> {
                        if old(self).table()[k].expect_multi {
                            &&& final(self).table() == old(self).table().update(
                                k,
                                PendingEntryV {
                                    responses: old(self).table()[k].responses + seq![m],
                                    ..old(self).table()[k]
                                },
                            )
                            &&& r == Inbound::Appended(m.header.id)
                        } else {
                            &&& final(self).table() == old(self).table().remove(k)
                            &&& (r matches Inbound::Done(c) && c.id == old(self).table()[k].id
                                && (c.outcome matches Ok(v) && v@.map_values(|mm: Message| mm@)
                                == old(self).table()[k].responses + seq![m]))
                        }
                    })
            },
    {
        let msg = match decode(buf) {
            Ok(m) => m,
            Err(_) => {
                return Inbound::Dropped;
            },
        };
        let ghost mv = spec_decode(buf@)->Ok_0;
        let n = self.pending.len();
        let mut k: usize = 0;
        while k < n
            invariant
                0 <= k <= n,
                *self == *old(self),
                old(self).wf(),
                n == self.table().len(),
                msg@ == mv,
                spec_decode(buf@) is Ok,
                spec_decode(buf@)->Ok_0 == mv,
                forall|j: int| 0 <= j < k ==> !response_matches(#[trigger] self.table()[j], mv, from),
            decreases n - k,
        {
            if entry_matches(&self.pending[k], &msg, &from) {
                let ghost oldt = self.table();
                proof {
                    assert forall|k2: int|
                        0 <= k2 < oldt.len() && response_matches(
                            #[trigger] oldt[k2],
                            mv,
                            from,
                        ) implies k2 == k as int by {
                        if k2 < k as int {
                        } else if k2 > k as int {
                            assert(oldt[k as int].id != oldt[k2].id);
                            assert(oldt[k2].id == mv.header.id);
                        }
                    }
                }
                if self.pending[k].expect_multi {
                    let mut e = self.pending.remove(k);
                    e.responses.push(msg);
                    let id = e.id;
                    let ghost ev = e@;
                    self.pending.insert(k, e);
                    proof {
                        let uv = PendingEntryV {
                            responses: oldt[k as int].responses + seq![mv],
                            ..oldt[k as int]
                        };
                        assert(ev.responses =~= uv.responses);
                        assert(ev =~= uv);
                        assert(self.pending@ == old(self).pending@.remove(k as int).insert(
                            k as int,
                            e,
                        ));
                        assert forall|i: int|
                            0 <= i < self.table().len() implies self.table()[i] == oldt.update(
                            k as int,
                            uv,
                        )[i] by {
                            if i < k as int {
                                assert(self.pending@[i] == old(self).pending@[i]);
                            } else if i == k as int {
                                assert(self.pending@[i] == e);
                            } else {
                                assert(self.pending@[i] == old(self).pending@.remove(k as int)[i
                                    - 1]);
                                assert(old(self).pending@.remove(k as int)[i - 1] == old(
                                    self,
                                ).pending@[i]);
                            }
                        }
                        assert(self.table() =~= oldt.update(k as int, uv));
                        assert forall|i: int, j: int|
                            0 <= i < j < self.table().len() implies self.table()[i].id
                            != self.table()[j].id by {
                            assert(oldt[i].id != oldt[j].id);
                        }
                    }
                    return Inbound::Appended(id);
                } else {
                    let mut e = self.pending.remove(k);
                    e.responses.push(msg);
                    let ghost newt = self.table();
                    proof {
                        assert(newt =~= oldt.remove(k as int));
                        assert forall|i: int, j: int|
                            0 <= i < j < newt.len() implies newt[i].id != newt[j].id by {
                            let i0: int = if i < k as int {
                                i
                            } else {
                                i + 1
                            };
                            let j0: int = if j < k as int {
                                j
                            } else {
                                j + 1
                            };
                            assert(newt[i] == oldt[i0]);
                            assert(newt[j] == oldt[j0]);
                        }
                        assert(e.responses@.map_values(|mm: Message| mm@) =~= oldt[
                            k as int].responses + seq![mv]);
                    }
                    return Inbound::Done(Completion { id: e.id, outcome: Ok(e.responses) });
                }
            }
            k = k + 1;
        }
        Inbound::Dropped
    }

    /// Removes one entry by its id and reports the timeout failure to
    /// its caller — the cancellation path: a caller abandoning interest
    /// removes its entry so a late matching response finds nothing to
    /// disturb. The clock-driven sweep is [`Multiplexer::expire_due`];
    /// either way no other entry is touched.
    pub fn expire(&mut self, id: u16) -> (r: Option<Completion>)
        requires
            old(self).wf(),
        ensures
            final(self).wf(),
            final(self).state == old(self).state,
            final(self).idle_limit == old(self).idle_limit,
            final(self).last_send == old(self).last_send,
            !has_id(old(self).table(), id) ==> *final(self) == *old(self) && r is None,
            forall|k: int|
                0 <= k < old(self).table().len() && (#[trigger] old(self).table()[k]).id == id
                    ==> final(self).table() == old(self).table().remove(k) && (r matches Some(c)
                    && c.id == id && c.outcome == Result::<Vec<Message>, DnsError>::Err(
                    DnsError::Timeout,
                )),
    {
        let n = self.pending.len();
        let mut k: usize = 0;
        while k < n
            invariant
                0 <= k <= n,
                *self == *old(self),
                old(self).wf(),
                n == self.table().len(),
                forall|j: int| 0 <= j < k ==> (#[trigger] self.table()[j]).id != id,
            decreases n - k,
        {
            if self.pending[k].id == id {
                let ghost oldt = self.table();
                proof {
                    assert(has_id(old(self).table(), id));
                    assert forall|k2: int|
                        0 <= k2 < oldt.len() && (#[trigger] oldt[k2]).id == id implies k2
                        == k as int by {
                        if k2 > k as int {
                            assert(oldt[k as int].id != oldt[k2].id);
                        }
                    }
                }
                let _e = self.pending.remove(k);
                proof {
                    assert(self.table() =~= oldt.remove(k as int));
                    assert forall|i: int, j: int|
                        0 <= i < j < self.table().len() implies self.table()[i].id
                        != self.table()[j].id by {
                        let i0: int = if i < k as int {
                            i
                        } else {
                            i + 1
                        };
                        let j0: int = if j < k as int {
                            j
                        } else {
                            j + 1
                        };
                        assert(self.table()[i] == oldt[i0]);
                        assert(self.table()[j] == oldt[j0]);
                    }
                }
                return Some(Completion { id, outcome: Err(DnsError::Timeout) });
            }
            k = k + 1;
        }
        None
    }

    /// Sweeps the table by the clock: completes exactly the entries
    /// whose deadline has passed with a timeout failure, in table
    /// order, and keeps every other entry untouched. A request that
    /// outlives its own deadline is removed even while the connection
    /// stays Active; no other entry is disturbed.
    pub fn expire_due(&mut self, now: u64) -> (r: Vec<Completion>)
        requires
            old(self).wf(),
        ensures
            final(self).wf(),
            final(self).state == old(self).state,
            final(self).idle_limit == old(self).idle_limit,
            final(self).last_send == old(self).last_send,
            final(self).table() == old(self).table().filter(
                |e: PendingEntryV| e.deadline > now,
            ),
            r@.map_values(|c: Completion| c.id) == old(self).table().filter(
                |e: PendingEntryV| e.deadline <= now,
            ).map_values(|e: PendingEntryV| e.id),
            forall|i: int|
                0 <= i < r@.len() ==> (#[trigger] r@[i]).outcome == Result::<
                    Vec<Message>,
                    DnsError,
                >::Err(DnsError::Timeout),
    {
        let ghost oldt = old(self).table();
        let mut drained: Vec<PendingEntry> = Vec::new();
        core::mem::swap(&mut drained, &mut self.pending);
        let mut out: Vec<Completion> = Vec::new();
        let n = drained.len();
        let mut i: usize = 0;
        proof {
            reveal(Seq::<PendingEntryV>::filter);
            assert(drained@.map_values(|e: PendingEntry| e@) == oldt);
            assert(oldt.subrange(0, 0) =~= Seq::<PendingEntryV>::empty());
            assert(self.table() =~= oldt.subrange(0, 0).filter(|e: PendingEntryV| e.deadline
                > now));
            assert(out@.map_values(|c: Completion| c.id) =~= oldt.subrange(0, 0).filter(
                |e: PendingEntryV| e.deadline <= now,
            ).map_values(|e: PendingEntryV| e.id));
        }
        while i < n
            invariant
                0 <= i <= n,
                n == oldt.len(),
                oldt == old(self).table(),
                drained@.map_values(|e: PendingEntry| e@) == oldt.subrange(i as int, n as int),
                self.state == old(self).state,
                self.idle_limit == old(self).idle_limit,
                self.last_send == old(self).last_send,
                self.table() == oldt.subrange(0, i as int).filter(
                    |e: PendingEntryV| e.deadline > now,
                ),
                out@.map_values(|c: Completion| c.id) == oldt.subrange(0, i as int).filter(
                    |e: PendingEntryV| e.deadline <= now,
                ).map_values(|e: PendingEntryV| e.id),
                forall|j: int|
                    0 <= j < out@.len() ==> (#[trigger] out@[j]).outcome == Result::<
                        Vec<Message>,
                        DnsError,
                    >::Err(DnsError::Timeout),
            decreases n - i,
        {
            proof {
                assert(drained@.map_values(|e: PendingEntry| e@).len() == oldt.subrange(
                    i as int,
                    n as int,
                ).len());
                assert(drained@.len() == n - i);
            }
            let ghost dpre = drained@;
            let ghost rest = drained@.subrange(1, drained@.len() as int);
            let e = drained.remove(0);
            proof {
                reveal(Seq::<PendingEntryV>::filter);
                assert(drained@ == rest);
                assert(e == dpre[0]);
                assert(dpre.map_values(|x: PendingEntry| x@)[0] == oldt.subrange(
                    i as int,
                    n as int,
                )[0]);
                assert(e@ == oldt[i as int]);
                assert forall|k: int|
                    0 <= k < rest.len() implies rest.map_values(|x: PendingEntry| x@)[k]
                    == #[trigger] oldt.subrange(i + 1, n as int)[k] by {
                    assert(rest[k] == dpre[k + 1]);
                    assert(dpre.map_values(|x: PendingEntry| x@)[k + 1] == oldt.subrange(
                        i as int,
                        n as int,
                    )[k + 1]);
                }
                assert(drained@.map_values(|x: PendingEntry| x@) =~= oldt.subrange(
                    i + 1,
                    n as int,
                ));
                // One step of the prefix filters.
                assert(oldt.subrange(0, i + 1).drop_last() =~= oldt.subrange(0, i as int));
                assert(oldt.subrange(0, i + 1).last() == oldt[i as int]);
            }
            if e.deadline <= now {
                let ghost outv = out@;
                let id = e.id;
                out.push(Completion { id, outcome: Err(DnsError::Timeout) });
                proof {
                    reveal(Seq::<PendingEntryV>::filter);
                    outv.lemma_push_map_commute(
                        |c: Completion| c.id,
                        Completion { id, outcome: Err(DnsError::Timeout) },
                    );
                    let due = oldt.subrange(0, i as int).filter(
                        |x: PendingEntryV| x.deadline <= now,
                    );
                    due.lemma_push_map_commute(|x: PendingEntryV| x.id, oldt[i as int]);
                    assert(out@.map_values(|c: Completion| c.id) =~= oldt.subrange(
                        0,
                        i + 1,
                    ).filter(|x: PendingEntryV| x.deadline <= now).map_values(
                        |x: PendingEntryV| x.id,
                    ));
                }
            } else {
                let ghost pendv = self.pending@;
                self.pending.push(e);
                proof {
                    reveal(Seq::<PendingEntryV>::filter);
                    pendv.lemma_push_map_commute(|x: PendingEntry| x@, e);
                    assert(self.table() =~= oldt.subrange(0, i + 1).filter(
                        |x: PendingEntryV| x.deadline > now,
                    ));
                }
            }
            i = i + 1;
        }
        proof {
            reveal(Seq::<PendingEntryV>::filter);
            assert(oldt.subrange(0, n as int) =~= oldt);
            lemma_wf_ids_filter(oldt, |e: PendingEntryV| e.deadline > now);
        }
        out
    }

    /// Advances the idle clock: an Active connection with no outbound
    /// request for the idle period starts draining, and a drained
    /// connection with nothing pending closes. A connection with no
    /// demand has no reason to stay open.
    pub fn on_idle(&mut self, now: u64)
        requires
            old(self).wf(),
        ensures
            final(self).wf(),
            final(self).table() == old(self).table(),
            final(self).idle_limit == old(self).idle_limit,
            final(self).last_send == old(self).last_send,
            final(self).state == (if old(self).state == ConnState::Active && now
                >= old(self).last_send && now - old(self).last_send >= old(self).idle_limit {
                ConnState::Draining
            } else if old(self).state == ConnState::Draining && old(self).table().len() == 0 {
                ConnState::Closed
            } else {
                old(self).state
            }),
    {
        if matches!(self.state, ConnState::Active) {
            if now >= self.last_send && now - self.last_send >= self.idle_limit {
                self.state = ConnState::Draining;
            }
        } else if matches!(self.state, ConnState::Draining) {
            if self.pending.len() == 0 {
                self.state = ConnState::Closed;
            }
        }
    }

    /// Teardown: the transport's inbound sequence ended or failed, so
    /// the connection closes and every still-pending request completes
    /// with a connection-closed failure in this same step — one
    /// completion per entry, in table order, nobody left hanging.
    pub fn on_transport_closed(&mut self) -> (r: Vec<Completion>)
        requires
            old(self).wf(),
        ensures
            final(self).state == ConnState::Closed,
            final(self).table().len() == 0,
            final(self).wf(),
            final(self).idle_limit == old(self).idle_limit,
            final(self).last_send == old(self).last_send,
            r@.len() == old(self).table().len(),
            forall|i: int|
                0 <= i < r@.len() ==> (#[trigger] r@[i]).id == old(self).table()[i].id
                    && r@[i].outcome == Result::<Vec<Message>, DnsError>::Err(
                    DnsError::ConnectionClosed,
                ),
    {
        self.state = ConnState::Closed;
        let mut out: Vec<Completion> = Vec::new();
        let ghost oldt = self.table();
        let n = self.pending.len();
        let mut i: usize = 0;
        while i < n
            invariant
                0 <= i <= n,
                n == oldt.len(),
                self.table() == oldt,
                self.pending@ == old(self).pending@,
                self.state == ConnState::Closed,
                self.idle_limit == old(self).idle_limit,
                self.last_send == old(self).last_send,
                out@.len() == i,
                forall|j: int|
                    0 <= j < i ==> (#[trigger] out@[j]).id == oldt[j].id && out@[j].outcome
                        == Result::<Vec<Message>, DnsError>::Err(DnsError::ConnectionClosed),
            decreases n - i,
        {
            let id = self.pending[i].id;
            out.push(Completion { id, outcome: Err(DnsError::ConnectionClosed) });
            i = i + 1;
        }
        self.pending = Vec::new();
        proof {
            assert(self.table() =~= Seq::<PendingEntryV>::empty());
        }
        out
    }
}

/// Executable form of the matching rule.
fn entry_matches(e: &PendingEntry, m: &Message, from: &Option<PeerAddr>) -> (r: bool)
    ensures
        r == response_matches(e@, m@, *from),
{
    if !m.header.response {
        return false;
    }
    if m.header.id != e.id {
        return false;
    }
    if m.questions.len() != e.questions.len() {
        return false;
    }
    let n = e.questions.len();
    let mut i: usize = 0;
    while i < n
        invariant
            0 <= i <= n,
            n == e@.questions.len(),
            n == m@.questions.len(),
            forall|j: int|
                0 <= j < i ==> question_matches(#[trigger] e@.questions[j], m@.questions[j]),
        decreases n - i,
    {
        let a = &e.questions[i];
        let b = &m.questions[i];
        if !a.name.eq_ignore_case(&b.name) || a.qtype != b.qtype || a.qclass != b.qclass {
            proof {
                assert(!question_matches(e@.questions[i as int], m@.questions[i as int]));
            }
            return false;
        }
        i = i + 1;
    }
    match &e.peer {
        Some(a) => match from {
            Some(b) => a.ip == b.ip && a.port == b.port,
            None => false,
        },
        None => true,
    }
}

/// Removing entries never introduces a duplicate id: any filtered form
/// of a well-formed table is well formed, and every id it holds comes
/// from the table it was filtered from.
pub proof fn lemma_wf_ids_filter(t: Seq<PendingEntryV>, pred: spec_fn(PendingEntryV) -> bool)
    requires
        wf_ids(t),
    ensures
        wf_ids(t.filter(pred)),
        forall|i: int|
            0 <= i < t.filter(pred).len() ==> has_id(t, (#[trigger] t.filter(pred)[i]).id),
    decreases t.len(),
{
    reveal(Seq::<PendingEntryV>::filter);
    if t.len() > 0 {
        let u = t.drop_last();
        let f = t.filter(pred);
        let fu = u.filter(pred);
        assert(wf_ids(u)) by {
            assert forall|i: int, j: int| 0 <= i < j < u.len() implies u[i].id != u[j].id by {
                assert(t[i].id != t[j].id);
            }
        }
        lemma_wf_ids_filter(u, pred);
        if pred(t.last()) {
            assert(f == fu.push(t.last()));
            assert forall|i: int, j: int| 0 <= i < j < f.len() implies f[i].id != f[j].id by {
                if j < fu.len() {
                } else {
                    assert(f[j] == t.last());
                    assert(has_id(u, fu[i].id));
                    let w = choose|w: int| 0 <= w < u.len() && u[w].id == fu[i].id;
                    assert(t[w].id != t[t.len() - 1].id);
                }
            }
            assert forall|i: int| 0 <= i < f.len() implies has_id(t, (#[trigger] f[i]).id) by {
                if i < fu.len() {
                    let w = choose|w: int| 0 <= w < u.len() && u[w].id == fu[i].id;
                    assert(t[w].id == f[i].id);
                } else {
                    assert(t[t.len() - 1].id == f[i].id);
                }
            }
        } else {
            assert(f == fu);
            assert forall|i: int| 0 <= i < f.len() implies has_id(t, (#[trigger] f[i]).id) by {
                let w = choose|w: int| 0 <= w < u.len() && u[w].id == fu[i].id;
                assert(t[w].id == f[i].id);
            }
        }
    }
}

/// At-most-one completion: once a response completes the entry for a
/// transaction id, the table holds no entry with that id, so no later
/// response carrying it can match and complete the request again.
pub proof fn lemma_at_most_one_completion(
    t: Seq<PendingEntryV>,
    k: int,
    m: MessageV,
    from: Option<PeerAddr>,
    m2: MessageV,
    from2: Option<PeerAddr>,
)
    requires
        wf_ids(t),
        0 <= k < t.len(),
        response_matches(t[k], m, from),
        m2.header.id == m.header.id,
    ensures
        forall|j: int|
            0 <= j < t.remove(k).len() ==> !response_matches(#[trigger] t.remove(k)[j], m2, from2),
{
    let u = t.remove(k);
    assert forall|j: int| 0 <= j < u.len() implies !response_matches(u[j], m2, from2) by {
        let j0: int = if j < k {
            j
        } else {
            j + 1
        };
        assert(u[j] == t[j0]);
        assert(t[j0].id != t[k].id);
    }
}

/// The matching entry is unique: two pending requests with distinct
/// ids can never both match one response, because matching fixes the
/// response's id to the entry's.
pub proof fn lemma_match_unique(
    t: Seq<PendingEntryV>,
    i: int,
    j: int,
    m: MessageV,
    from: Option<PeerAddr>,
)
    requires
        wf_ids(t),
        0 <= i < t.len(),
        0 <= j < t.len(),
        response_matches(t[i], m, from),
        response_matches(t[j], m, from),
    ensures
        i == j,
{
    if i < j {
        assert(t[i].id != t[j].id);
    } else if j < i {
        assert(t[j].id != t[i].id);
    }
}

} // verus!
