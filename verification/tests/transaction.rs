use dns_proto::encode::encode;
use dns_proto::error::DnsError;
use dns_proto::ident::IdSource;
use dns_proto::message::Header;
use dns_proto::message::Message;
use dns_proto::message::Question;
use dns_proto::mux::ConnState;
use dns_proto::mux::Inbound;
use dns_proto::mux::Multiplexer;
use dns_proto::mux::PeerAddr;
use dns_proto::name::DomainName;
use dns_proto::retry::Attempt;
use dns_proto::retry::drive;
use dns_proto::validate::ChainStep;
use dns_proto::validate::Verdict;
use dns_proto::validate::release;
use dns_proto::validate::validate;
use dns_proto::validate::walk_chain;

fn name_of(labels: &[&[u8]]) -> DomainName {
    let v: Vec<Vec<u8>> = labels.iter().map(|l| l.to_vec()).collect();
    DomainName::from_labels(v).expect("well-formed name")
}

fn query(id: u16, host: &[&[u8]]) -> Message {
    Message::new_query(id, Question { name: name_of(host), qtype: 1, qclass: 1 })
}

fn response_for(m: &Message) -> Message {
    let mut r = query(m.header.id, &[]);
    r.questions = vec![Question {
        name: m.questions[0].name.clone_name(),
        qtype: m.questions[0].qtype,
        qclass: m.questions[0].qclass,
    }];
    r.header.response = true;
    r
}

const PEER: PeerAddr = PeerAddr { ip: 0x7F00_0001, port: 53 };

#[test]
fn matching_response_completes_once() {
    let mut mux = Multiplexer::new(1000, 0);
    let m = query(0x1111, &[b"example", b"test"]);
    let bytes = mux
        .send_request(&m, 1, 500, Some(PEER), false)
        .expect("sends");
    assert_eq!(bytes, encode(&m).unwrap());
    assert!(mux.has_pending(0x1111));

    let resp = encode(&response_for(&m)).unwrap();
    match mux.on_inbound(&resp, Some(PEER)) {
        Inbound::Done(c) => {
            assert_eq!(c.id, 0x1111);
            let msgs = c.outcome.expect("success");
            assert_eq!(msgs.len(), 1);
            assert_eq!(msgs[0].header.id, 0x1111);
        }
        _ => panic!("matching response must complete the request"),
    }
    assert!(!mux.has_pending(0x1111));
    // The same response again finds nothing: at most one completion.
    match mux.on_inbound(&resp, Some(PEER)) {
        Inbound::Dropped => {}
        _ => panic!("an entry completes at most once"),
    }
}

#[test]
fn unmatched_response_disturbs_nothing() {
    let mut mux = Multiplexer::new(1000, 0);
    let a = query(0x0001, &[b"a", b"test"]);
    let b = query(0x0002, &[b"b", b"test"]);
    mux.send_request(&a, 1, 500, None, false).expect("sends");
    mux.send_request(&b, 1, 500, None, false).expect("sends");

    // Matching id but wrong question: dropped, neither entry touched.
    let mut stray = response_for(&a);
    stray.questions[0].qtype = 28;
    let stray_bytes = encode(&stray).unwrap();
    match mux.on_inbound(&stray_bytes, None) {
        Inbound::Dropped => {}
        _ => panic!("mismatched question must be dropped"),
    }
    // Unknown id: dropped too.
    let other = encode(&response_for(&query(0x0099, &[b"a", b"test"]))).unwrap();
    match mux.on_inbound(&other, None) {
        Inbound::Dropped => {}
        _ => panic!("unknown id must be dropped"),
    }
    // Garbage bytes: dropped, connection unaffected.
    match mux.on_inbound(&[0xFF, 0x00, 0x01], None) {
        Inbound::Dropped => {}
        _ => panic!("garbage must be dropped"),
    }
    assert!(mux.has_pending(0x0001));
    assert!(mux.has_pending(0x0002));
    assert_eq!(mux.state, ConnState::Active);
}

#[test]
fn datagram_source_must_match() {
    let mut mux = Multiplexer::new(1000, 0);
    let m = query(0x2222, &[b"example", b"test"]);
    mux.send_request(&m, 1, 500, Some(PEER), false).expect("sends");
    let resp = encode(&response_for(&m)).unwrap();
    let wrong = PeerAddr { ip: 0x7F00_0002, port: 53 };
    match mux.on_inbound(&resp, Some(wrong)) {
        Inbound::Dropped => {}
        _ => panic!("response from the wrong peer must be dropped"),
    }
    assert!(mux.has_pending(0x2222));
    match mux.on_inbound(&resp, Some(PEER)) {
        Inbound::Done(_) => {}
        _ => panic!("response from the right peer must match"),
    }
}

#[test]
fn case_insensitive_question_match() {
    let mut mux = Multiplexer::new(1000, 0);
    let m = query(0x3333, &[b"Example", b"Test"]);
    mux.send_request(&m, 1, 500, None, false).expect("sends");
    let mut resp = response_for(&m);
    resp.questions[0].name = name_of(&[b"eXaMPLE", b"tesT"]);
    let bytes = encode(&resp).unwrap();
    match mux.on_inbound(&bytes, None) {
        Inbound::Done(c) => assert_eq!(c.id, 0x3333),
        _ => panic!("names differing only in case must match"),
    }
}

#[test]
fn multi_message_answers_accumulate() {
    let mut mux = Multiplexer::new(1000, 0);
    let m = query(0x4444, &[b"zone", b"test"]);
    mux.send_request(&m, 1, 500, None, true).expect("sends");
    let resp = encode(&response_for(&m)).unwrap();
    match mux.on_inbound(&resp, None) {
        Inbound::Appended(id) => assert_eq!(id, 0x4444),
        _ => panic!("multi-message entries accumulate"),
    }
    assert!(mux.has_pending(0x4444));
    match mux.on_inbound(&resp, None) {
        Inbound::Appended(_) => {}
        _ => panic!("still accumulating"),
    }
}

#[test]
fn teardown_fails_every_pending_request() {
    let mut mux = Multiplexer::new(1000, 0);
    for (i, host) in [&b"a"[..], b"b", b"c"].iter().enumerate() {
        let m = query(0x1000 + i as u16, &[host, b"test"]);
        mux.send_request(&m, 1, 500, None, false).expect("sends");
    }
    let completions = mux.on_transport_closed();
    assert_eq!(mux.state, ConnState::Closed);
    assert_eq!(completions.len(), 3);
    for (i, c) in completions.iter().enumerate() {
        assert_eq!(c.id, 0x1000 + i as u16);
        assert!(matches!(c.outcome, Err(DnsError::ConnectionClosed)));
    }
    assert!(!mux.has_pending(0x1000));
    // A closed connection refuses new work.
    let m = query(0x5555, &[b"d", b"test"]);
    assert_eq!(
        mux.send_request(&m, 2, 500, None, false).err(),
        Some(DnsError::ConnectionClosed)
    );
}

#[test]
fn timeout_is_scoped_to_one_request() {
    let mut mux = Multiplexer::new(1000, 0);
    let a = query(0x0101, &[b"a", b"test"]);
    let b = query(0x0202, &[b"b", b"test"]);
    mux.send_request(&a, 1, 10, None, false).expect("sends");
    mux.send_request(&b, 1, 900, None, false).expect("sends");
    let c = mux.expire(0x0101).expect("entry existed");
    assert_eq!(c.id, 0x0101);
    assert!(matches!(c.outcome, Err(DnsError::Timeout)));
    assert!(!mux.has_pending(0x0101));
    assert!(mux.has_pending(0x0202));
    assert!(mux.expire(0x0101).is_none());
}

#[test]
fn idle_timeout_drains_then_closes() {
    let mut mux = Multiplexer::new(100, 0);
    mux.on_idle(50);
    assert_eq!(mux.state, ConnState::Active);
    mux.on_idle(150);
    assert_eq!(mux.state, ConnState::Draining);
    // Draining rejects new requests.
    let m = query(0x0042, &[b"a", b"test"]);
    assert_eq!(
        mux.send_request(&m, 151, 500, None, false).err(),
        Some(DnsError::ConnectionClosed)
    );
    mux.on_idle(200);
    assert_eq!(mux.state, ConnState::Closed);
}

#[test]
fn fresh_ids_avoid_pending_entries() {
    let mut mux = Multiplexer::new(1000, 0);
    let mut ids = IdSource::from_seed(7);
    let first = mux.fresh_id(&mut ids).expect("an id is free");
    let m = query(first, &[b"a", b"test"]);
    mux.send_request(&m, 1, 500, None, false).expect("sends");
    let second = mux.fresh_id(&mut ids).expect("an id is free");
    assert_ne!(first, second);
    // Seeded sources are deterministic.
    let mut s1 = IdSource::from_seed(42);
    let mut s2 = IdSource::from_seed(42);
    for _ in 0..8 {
        assert_eq!(s1.next_raw(), s2.next_raw());
    }
}

#[test]
fn retry_exhausts_exactly_the_cap() {
    let outcomes = vec![
        Attempt::Failure(DnsError::Transport),
        Attempt::Failure(DnsError::Timeout),
        Attempt::Failure(DnsError::Transport),
        Attempt::Failure(DnsError::Transport),
    ];
    let (result, attempts) = drive(outcomes, 3);
    assert_eq!(attempts, 3);
    assert_eq!(result.err(), Some(DnsError::Transport));
}

#[test]
fn retry_stops_on_success_or_fatal() {
    let ok = Message::new_query(9, Question { name: name_of(&[b"a"]), qtype: 1, qclass: 1 });
    let outcomes = vec![
        Attempt::Failure(DnsError::Transport),
        Attempt::Success(ok),
        Attempt::Failure(DnsError::Transport),
    ];
    let (result, attempts) = drive(outcomes, 3);
    assert_eq!(attempts, 2);
    assert_eq!(result.unwrap().header.id, 9);

    // A validation failure is never retried.
    let outcomes = vec![
        Attempt::Failure(DnsError::Validation),
        Attempt::Failure(DnsError::Transport),
    ];
    let (result, attempts) = drive(outcomes, 2);
    assert_eq!(attempts, 1);
    assert_eq!(result.err(), Some(DnsError::Validation));
}

#[test]
fn retry_classification() {
    assert!(DnsError::Transport.is_retryable());
    assert!(DnsError::Timeout.is_retryable());
    assert!(DnsError::ConnectionClosed.is_retryable());
    assert!(!DnsError::Validation.is_retryable());
    assert!(!DnsError::Decode(dns_proto::error::DecodeErrorKind::Truncated).is_retryable());
    assert!(!DnsError::Encode(dns_proto::error::EncodeErrorKind::BadLabel).is_retryable());
}

#[test]
fn bogus_response_is_withheld() {
    let resp = Message {
        header: Header {
            id: 5,
            response: true,
            opcode: 0,
            authoritative: false,
            truncated: false,
            recursion_desired: false,
            recursion_available: false,
            rcode: 0,
        },
        questions: vec![],
        answers: vec![],
        authorities: vec![],
        additionals: vec![],
    };
    assert_eq!(
        release(resp, Verdict::Bogus).err(),
        Some(DnsError::Validation)
    );
}

#[test]
fn chain_walk_grounds_or_fails() {
    assert_eq!(walk_chain(&vec![ChainStep::Anchor], 8), Ok(0));
    assert_eq!(
        walk_chain(&vec![ChainStep::Delegate, ChainStep::Delegate, ChainStep::Anchor], 8),
        Ok(2)
    );
    assert_eq!(
        walk_chain(&vec![ChainStep::Delegate, ChainStep::Broken], 8),
        Err(DnsError::Validation)
    );
    // Depth bound: an endless delegation fails rather than looping.
    assert_eq!(
        walk_chain(&vec![ChainStep::Delegate; 16], 8),
        Err(DnsError::Validation)
    );
    // Running off the fetched levels fails.
    assert_eq!(
        walk_chain(&vec![ChainStep::Delegate; 3], 8),
        Err(DnsError::Validation)
    );
}

#[test]
fn validation_decision() {
    let mk = || query(6, &[b"signed", b"test"]);
    // Unsigned zone: passes through.
    assert!(validate(mk(), &vec![], 8, false).is_ok());
    // Grounded chain: passes.
    assert!(validate(mk(), &vec![ChainStep::Delegate, ChainStep::Anchor], 8, true).is_ok());
    // Broken chain: withheld.
    assert_eq!(
        validate(mk(), &vec![ChainStep::Broken], 8, true).err(),
        Some(DnsError::Validation)
    );
    // Too-deep chain: withheld.
    assert_eq!(
        validate(mk(), &vec![ChainStep::Delegate; 20], 8, true).err(),
        Some(DnsError::Validation)
    );
}

#[test]
fn error_descriptions() {
    assert_eq!(DnsError::Timeout.describe(), "deadline exceeded");
    assert_eq!(DnsError::Validation.describe(), "validation failed");
}

#[test]
fn deadline_sweep_expires_exactly_the_due() {
    let mut mux = Multiplexer::new(1000, 0);
    let a = query(0x0A01, &[b"a", b"test"]);
    let b = query(0x0A02, &[b"b", b"test"]);
    let c = query(0x0A03, &[b"c", b"test"]);
    mux.send_request(&a, 1, 10, None, false).expect("sends");
    mux.send_request(&b, 1, 900, None, false).expect("sends");
    mux.send_request(&c, 1, 40, None, false).expect("sends");
    // Nothing is due yet.
    assert!(mux.expire_due(5).is_empty());
    // Two of three pass their deadline; completions come in table order.
    let done = mux.expire_due(50);
    assert_eq!(done.len(), 2);
    assert_eq!(done[0].id, 0x0A01);
    assert_eq!(done[1].id, 0x0A03);
    assert!(matches!(done[0].outcome, Err(DnsError::Timeout)));
    assert!(matches!(done[1].outcome, Err(DnsError::Timeout)));
    assert!(!mux.has_pending(0x0A01));
    assert!(mux.has_pending(0x0A02));
    assert!(!mux.has_pending(0x0A03));
    assert_eq!(mux.state, ConnState::Active);
}

#[test]
fn whole_question_section_must_match() {
    let mut mux = Multiplexer::new(1000, 0);
    // A request with two questions.
    let mut m = query(0x0B01, &[b"a", b"test"]);
    m.questions.push(Question { name: name_of(&[b"b", b"test"]), qtype: 28, qclass: 1 });
    mux.send_request(&m, 1, 500, None, false).expect("sends");
    // A response carrying only the first question does not match.
    let partial = encode(&response_for(&m)).unwrap();
    match mux.on_inbound(&partial, None) {
        Inbound::Dropped => {}
        _ => panic!("a shorter question section must not match"),
    }
    assert!(mux.has_pending(0x0B01));
    // A response with both questions (case-folded) matches.
    let mut full = response_for(&m);
    full.questions = vec![
        Question { name: name_of(&[b"A", b"TEST"]), qtype: 1, qclass: 1 },
        Question { name: name_of(&[b"B", b"Test"]), qtype: 28, qclass: 1 },
    ];
    let bytes = encode(&full).unwrap();
    match mux.on_inbound(&bytes, None) {
        Inbound::Done(c) => assert_eq!(c.id, 0x0B01),
        _ => panic!("an equal question section must match"),
    }
}
