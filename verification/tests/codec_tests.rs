use butterfly::codec::RumorEnvelope;
use butterfly::error::RumorError;
use butterfly::expiration::Expiration;
use butterfly::rumor::{
    Election, ElectionStatus, Health, Membership, RumorKind, RumorType, ServiceConfig,
    ServiceFile,
};

fn roundtrip(kind: RumorKind, from_id: &str) -> RumorKind {
    let env = RumorEnvelope {
        kind_tag: kind.kind(),
        from_id: from_id.to_string(),
        kind,
    };
    let bytes = env.encode();
    let back = RumorEnvelope::decode(&bytes).expect("canonical bytes decode");
    assert_eq!(back.from_id, from_id);
    back.kind
}

#[test]
fn membership_round_trip() {
    let m = Membership {
        member_id: "m-17".to_string(),
        address: "10.0.0.9".to_string(),
        swim_port: 9638,
        gossip_port: 9639,
        health: Health::Suspect,
        incarnation: 42,
        expiration: Expiration::new(1_600_000_000_000_000_000),
    };
    match roundtrip(RumorKind::Membership(m), "sender-1") {
        RumorKind::Membership(b) => {
            assert_eq!(b.member_id, "m-17");
            assert_eq!(b.address, "10.0.0.9");
            assert_eq!(b.swim_port, 9638);
            assert_eq!(b.gossip_port, 9639);
            assert!(matches!(b.health, Health::Suspect));
            assert_eq!(b.incarnation, 42);
            assert_eq!(b.expiration.at_nanos, 1_600_000_000_000_000_000);
        }
        _ => panic!("wrong kind decoded"),
    }
}

#[test]
fn election_round_trip_keeps_sorted_votes() {
    let e = Election {
        member_id: "candidate".to_string(),
        service_group: "redis.default".to_string(),
        term: 9,
        suitability: 3,
        status: ElectionStatus::Running,
        votes: vec!["alpha".to_string(), "beta".to_string(), "gamma".to_string()],
        expiration: Expiration::new(1_500_000_000_000_000_000),
    };
    match roundtrip(RumorKind::Election(e), "sender-2") {
        RumorKind::Election(b) => {
            assert_eq!(b.term, 9);
            assert_eq!(b.suitability, 3);
            assert_eq!(b.votes, vec!["alpha", "beta", "gamma"]);
        }
        _ => panic!("wrong kind decoded"),
    }
}

#[test]
fn service_config_round_trip() {
    let c = ServiceConfig {
        service_group: "redis.default".to_string(),
        incarnation: 3,
        encrypted: true,
        config: vec![9, 8, 7, 6],
        expiration: Expiration::new(1_400_000_000_000_000_000),
    };
    match roundtrip(RumorKind::ServiceConfig(c), "sender-3") {
        RumorKind::ServiceConfig(b) => {
            assert_eq!(b.incarnation, 3);
            assert!(b.encrypted);
            assert_eq!(b.config, vec![9, 8, 7, 6]);
        }
        _ => panic!("wrong kind decoded"),
    }
}

#[test]
fn service_file_round_trip() {
    let f = ServiceFile {
        service_group: "redis.default".to_string(),
        filename: "cert.pem".to_string(),
        incarnation: 11,
        body: vec![0, 255, 1, 254],
        expiration: Expiration::new(1_300_000_000_000_000_000),
    };
    match roundtrip(RumorKind::ServiceFile(f), "sender-4") {
        RumorKind::ServiceFile(b) => {
            assert_eq!(b.filename, "cert.pem");
            assert_eq!(b.body, vec![0, 255, 1, 254]);
        }
        _ => panic!("wrong kind decoded"),
    }
}

#[test]
fn unknown_kind_tag_is_a_type_mismatch() {
    // a canonical envelope, its kind tag rewritten to eight
    let m = Membership {
        member_id: "m".to_string(),
        address: "a".to_string(),
        swim_port: 1,
        gossip_port: 2,
        health: Health::Alive,
        incarnation: 1,
        expiration: Expiration::new(0),
    };
    let env = RumorEnvelope {
        kind_tag: RumorType::Member,
        from_id: "s".to_string(),
        kind: RumorKind::Membership(m),
    };
    let mut bytes = env.encode();
    assert_eq!(bytes[1], 1);
    bytes[1] = 8;
    match RumorEnvelope::decode(&bytes) {
        Err(RumorError::ProtocolMismatch { field }) => assert_eq!(field, "type"),
        _ => panic!("expected a type mismatch"),
    }
}

#[test]
fn missing_from_id_is_a_mismatch() {
    // field one (the kind tag), then field three (the payload) directly
    let bytes: Vec<u8> = vec![8, 2, 26, 2, 10, 0];
    match RumorEnvelope::decode(&bytes) {
        Err(RumorError::ProtocolMismatch { field }) => assert_eq!(field, "from-id"),
        _ => panic!("expected a from-id mismatch"),
    }
}

#[test]
fn malformed_expiration_is_a_mismatch() {
    let d = butterfly::rumor::Departure {
        member_id: "m1".to_string(),
        expiration: Expiration::new(0),
    };
    let env = RumorEnvelope {
        kind_tag: RumorType::Departure,
        from_id: "s".to_string(),
        kind: RumorKind::Departure(d),
    };
    let good = env.encode();
    // rebuild the envelope with the expiration text clobbered: the payload
    // is the last length-delimited field, the text its tail
    let mut bad = good.clone();
    let n = bad.len();
    for i in (n - 10)..n {
        bad[i] = b'x';
    }
    match RumorEnvelope::decode(&bad) {
        Err(RumorError::ProtocolMismatch { field }) => assert_eq!(field, "expiration"),
        other => panic!("expected an expiration mismatch, got {:?}", other),
    }
}

#[test]
fn expiration_text_round_trips() {
    let e = Expiration::new(1_600_000_000_123_456_789);
    let text = e.for_proto();
    assert!(text.contains('T'));
    let back = Expiration::from_proto(Some(text.as_str())).expect("valid RFC 3339");
    assert_eq!(back.at_nanos, 1_600_000_000_123_456_789);
}

#[test]
fn bad_expiration_text_is_rejected() {
    match Expiration::from_proto(Some("not-a-date")) {
        Err(RumorError::ProtocolMismatch { field }) => assert_eq!(field, "expiration"),
        _ => panic!("expected a protocol mismatch"),
    }
}

#[test]
fn absent_expiration_means_forever() {
    let e = Expiration::from_proto(None).expect("absent text is forever");
    // about one hundred years out: far past any plausible test run
    assert!(e.at_nanos > 4_000_000_000_000_000_000);
}
