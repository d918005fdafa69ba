use carrier::endpoint::{
    BrokerPath, Config, Endpoint, EndpointBuilder, HeaderDisposition, Stream, StreamDisposition,
};
use carrier::identity::{Identity, Secret};
use carrier::paths::{AddressMode, Candidate, SETTLE_COUNT};
use carrier::proto::{Category, NetAddr, PeerConnectRequest};
use carrier::subscriber;
use carrier::subscriber::SubscriberAction;
use carrier::proto::{Publish, Supersede, SubscribeChange, SubscribeChangeM, Unpublish};

fn addr(ip: u128, port: u16) -> NetAddr {
    NetAddr { ip, port }
}

fn ident(tag: u8) -> Identity {
    Identity::from_bytes(vec![tag; 32])
}

fn secret(tag: u8) -> Secret {
    Secret::from_bytes(vec![tag; 32])
}

fn discovering(cands: Vec<Candidate>) -> AddressMode {
    AddressMode::Discovering(cands)
}

#[test]
fn settle_after_five_datagrams() {
    let a = addr(1, 10);
    let b = addr(2, 20);
    let c = addr(3, 30);
    let mut mode = discovering(vec![
        Candidate { addr: a, category: Category::Local, count: 0 },
        Candidate { addr: b, category: Category::Internet, count: 0 },
        Candidate { addr: c, category: Category::Internet, count: 0 },
    ]);
    for _ in 0..SETTLE_COUNT - 1 {
        mode.on_datagram(b);
        assert!(matches!(mode, AddressMode::Discovering(..)));
    }
    mode.on_datagram(b);
    match &mode {
        AddressMode::Established(chosen, _) => {
            // only `b` was heard from, so it is the only counted candidate
            assert_eq!(*chosen, b);
        }
        _ => panic!("expected the channel to settle"),
    }
}

#[test]
fn migration_to_cheaper_known_path() {
    let a = addr(1, 10);
    let b = addr(2, 20);
    let mut mode = AddressMode::Established(
        b,
        vec![
            Candidate { addr: a, category: Category::Local, count: 1 },
            Candidate { addr: b, category: Category::Internet, count: 5 },
        ],
    );
    mode.migrate(a);
    match &mode {
        AddressMode::Established(chosen, _) => assert_eq!(*chosen, a),
        _ => panic!("expected established"),
    }
}

#[test]
fn no_migration_to_costlier_path() {
    let a = addr(1, 10);
    let b = addr(2, 20);
    let mut mode = AddressMode::Established(
        a,
        vec![
            Candidate { addr: a, category: Category::Local, count: 5 },
            Candidate { addr: b, category: Category::Internet, count: 1 },
        ],
    );
    mode.migrate(b);
    match &mode {
        AddressMode::Established(chosen, _) => assert_eq!(*chosen, a),
        _ => panic!("expected established"),
    }
}

#[test]
fn outgoing_connect_state_machine() {
    let broker = addr(9, 99);
    let mut ep = Endpoint::new(2, ident(1), broker, secret(1));
    ep.connect(ident(7), 1234, vec![1, 2], Vec::new(), 7, 41);
    // first inbound frame on the stream: headers; one state transition
    assert_eq!(ep.on_receive_stream(2, 7), StreamDisposition::OutgoingAdvanced);
    // second inbound frame: the response body; the connect completes
    assert_eq!(
        ep.on_receive_stream(2, 7),
        StreamDisposition::OutgoingComplete { noise: 41 }
    );
    // the table entry is gone: further frames are ordinary traffic
    assert_eq!(ep.on_receive_stream(2, 7), StreamDisposition::DropFrame);
}

#[test]
fn outgoing_connect_closed_early_fails() {
    let broker = addr(9, 99);
    let mut ep = Endpoint::new(2, ident(1), broker, secret(1));
    ep.connect(ident(7), 1234, vec![1, 2], Vec::new(), 7, 41);
    let failed = ep.on_close(2, 7).expect("a failure event");
    assert!(failed.cr.is_none());
    assert!(failed.requester.is_none());
}

#[test]
fn header_dispatch_on_broker() {
    let broker = addr(9, 99);
    let mut ep = Endpoint::new(2, ident(1), broker, secret(1));
    assert_eq!(
        ep.on_receive_header(2, 5, BrokerPath::PeerConnect),
        HeaderDisposition::RecordIncoming
    );
    assert_eq!(
        ep.on_receive_header(2, 6, BrokerPath::Other),
        HeaderDisposition::RejectUnknownPath
    );
    assert_eq!(
        ep.on_receive_header(77, 6, BrokerPath::Other),
        HeaderDisposition::UnknownRoute
    );
}

#[test]
fn security_violation_on_identity_mismatch() {
    let cr = PeerConnectRequest {
        identity: vec![3; 32],
        timestamp: 77,
        handshake: Vec::new(),
        route: 8,
        paths: Vec::new(),
    };
    let r = Endpoint::peer_connect_request(5, cr, ident(4), 77, 1);
    match r {
        Err(e) => assert!(e.is_security_violation()),
        Ok(_) => panic!("mismatched identity must be refused"),
    }
    let nack = Endpoint::peer_connect_failure();
    assert!(!nack.ok);

    let cr = PeerConnectRequest {
        identity: vec![4; 32],
        timestamp: 77,
        handshake: Vec::new(),
        route: 8,
        paths: Vec::new(),
    };
    let q = Endpoint::peer_connect_request(5, cr, ident(4), 77, 1).unwrap();
    assert_eq!(q.qstream, 5);
}

#[test]
fn backoff_schedule() {
    assert_eq!(EndpointBuilder::connect_backoff_ms(1), Some(400));
    assert_eq!(EndpointBuilder::connect_backoff_ms(2), Some(800));
    assert_eq!(EndpointBuilder::connect_backoff_ms(3), Some(1600));
    assert_eq!(EndpointBuilder::connect_backoff_ms(4), Some(3200));
    assert_eq!(EndpointBuilder::connect_backoff_ms(5), None);
}

#[test]
fn builder_keeps_secret() {
    let cfg = Config { secret: secret(6) };
    let b = EndpointBuilder::new(&cfg).unwrap();
    let _ = b;
}

#[test]
fn message_is_chunked_behind_length_prefix() {
    let mut s = Stream::new(1, 2);
    let body: Vec<u8> = (0..1250u32).map(|i| (i % 251) as u8).collect();
    s.message(&body);
    let chunks = s.take_outbox();
    // envelope first: field 1 varint of 1250 = 9 * 128 + 98
    assert_eq!(chunks[0], vec![0x08, 98 + 128, 9]);
    assert_eq!(chunks.len(), 4);
    assert_eq!(chunks[1].len(), 600);
    assert_eq!(chunks[2].len(), 600);
    assert_eq!(chunks[3].len(), 50);
    let mut joined = Vec::new();
    for c in &chunks[1..] {
        joined.extend_from_slice(c);
    }
    assert_eq!(joined, body);
}

#[test]
fn send_targets_follow_address_mode() {
    let broker = addr(9, 99);
    let mut ep = Endpoint::new(2, ident(1), broker, secret(1));
    assert_eq!(ep.send_targets(2), vec![broker]);
    // a disconnect removes the channel and surfaces the event
    let ev = ep.on_disconnect(2);
    assert!(ev.is_some());
    assert!(ep.send_targets(2).is_empty());
}

#[test]
fn subscriber_dispatch() {
    let cfg = Config { secret: secret(3) };
    let b = subscriber::new(cfg).on_publish();
    let change = SubscribeChange {
        m: Some(SubscribeChangeM::Publish(Publish { identity: vec![5; 32], xaddr: vec![] })),
    };
    match b.handler_step(change) {
        SubscriberAction::NotifyPublish(id) => assert_eq!(id, vec![5; 32]),
        _ => panic!("expected a publish notification"),
    }
    // unpublish without a callback registered is ignored
    let change = SubscribeChange {
        m: Some(SubscribeChangeM::Unpublish(Unpublish { identity: vec![5; 32] })),
    };
    assert!(matches!(b.handler_step(change), SubscriberAction::Nothing));
    let change = SubscribeChange { m: Some(SubscribeChangeM::Supersede(Supersede { dummy: true })) };
    assert!(matches!(b.handler_step(change), SubscriberAction::Stop));
    let change = SubscribeChange { m: None };
    assert!(matches!(b.handler_step(change), SubscriberAction::Nothing));
}
