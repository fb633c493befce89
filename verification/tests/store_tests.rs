use butterfly::expiration::Expiration;
use butterfly::rumor::{
    Departure, Election, ElectionStatus, Health, Membership, RumorKey, RumorKind, RumorType,
    Service,
};
use butterfly::store::RumorStore;

fn service_rumor(member: &str, group: &str, incarnation: u64) -> RumorKind {
    RumorKind::Service(Service {
        member_id: member.to_string(),
        service_group: group.to_string(),
        pkg: "core/redis/4.0.14/20200421191514".to_string(),
        incarnation,
        initialized: true,
        cfg: vec![1, 2, 3],
        sys: vec![],
        expiration: Expiration::new(i64::MAX),
    })
}

fn membership_rumor(member: &str, health: Health, incarnation: u64) -> RumorKind {
    RumorKind::Membership(Membership {
        member_id: member.to_string(),
        address: "127.0.0.1".to_string(),
        swim_port: 9638,
        gossip_port: 9639,
        health,
        incarnation,
        expiration: Expiration::new(i64::MAX),
    })
}

fn departure_rumor(member: &str) -> RumorKind {
    RumorKind::Departure(Departure {
        member_id: member.to_string(),
        expiration: Expiration::new(i64::MAX),
    })
}

fn election_rumor(candidate: &str, group: &str, term: u64, status: ElectionStatus) -> RumorKind {
    RumorKind::Election(Election {
        member_id: candidate.to_string(),
        service_group: group.to_string(),
        term,
        suitability: 1,
        status,
        votes: Vec::new(),
        expiration: Expiration::new(i64::MAX),
    })
}

#[test]
fn rumor_keys_kind_can_be_represented_as_a_string() {
    let r = RumorKey::new(RumorType::Member, "my-sweet-id", "my-sweet-key");
    assert_eq!(r.kind.label(), "member");
}

#[test]
fn update_counter() {
    let mut rs = RumorStore::new(0);
    rs.increment_update_counter();
    assert_eq!(rs.get_update_counter(), 1);
}

#[test]
fn update_counter_overflows_safely() {
    let mut rs = RumorStore::new(usize::MAX);
    rs.increment_update_counter();
    assert_eq!(rs.get_update_counter(), 0);
}

#[test]
fn insert_adds_rumor_when_empty() {
    let mut rs = RumorStore::new(0);
    let f = service_rumor("member-1", "fakerton.default", 1);
    assert!(rs.insert(f));
    assert_eq!(rs.get_update_counter(), 1);
}

#[test]
fn insert_adds_multiple_rumors_for_same_key() {
    let mut rs = RumorStore::new(0);
    let f1 = service_rumor("member-1", "fakerton.default", 1);
    let f2 = service_rumor("member-2", "fakerton.default", 1);

    assert!(rs.insert(f1));
    assert!(rs.insert(f2));
    assert_eq!(rs.len_for_key("fakerton.default"), 2);
    assert!(rs.contains_rumor("fakerton.default", "member-1"));
    assert!(rs.contains_rumor("fakerton.default", "member-2"));
}

#[test]
fn insert_adds_multiple_members() {
    let mut rs = RumorStore::new(0);
    let f1 = service_rumor("member-1", "fakerton.default", 1);
    let f2 = service_rumor("member-2", "fakerton.default", 1);
    assert!(rs.insert(f1));
    assert!(rs.insert(f2));
    assert_eq!(rs.len_for_key("fakerton.default"), 2);
}

#[test]
fn insert_returns_false_on_no_changes() {
    let mut rs = RumorStore::new(0);
    let f1 = service_rumor("member-1", "fakerton.default", 1);
    let f2 = service_rumor("member-1", "fakerton.default", 1);
    assert!(rs.insert(f1));
    assert_eq!(rs.insert(f2), false);
}

#[test]
fn with_rumor_calls_closure_with_none_if_rumor_missing() {
    let rs = RumorStore::new(0);
    assert!(rs.get("bar", "foo").is_none());
    assert!(!rs.contains_rumor("bar", "foo"));
}

#[test]
fn get_reads_a_stored_rumor() {
    let mut rs = RumorStore::new(0);
    assert!(rs.insert(service_rumor("m1", "redis.default", 3)));
    match rs.get("redis.default", "m1") {
        Some(RumorKind::Service(s)) => assert_eq!(s.incarnation, 3),
        _ => panic!("expected the stored service rumor"),
    }
}

#[test]
fn rumors_for_key_lists_a_group() {
    let mut rs = RumorStore::new(0);
    assert!(rs.insert(service_rumor("m1", "redis.default", 1)));
    assert!(rs.insert(service_rumor("m2", "redis.default", 1)));
    let rumors = rs.rumors_for_key("redis.default");
    assert_eq!(rumors.len(), 2);
    assert!(rs.rumors_for_key("absent.group").is_empty());
}

#[test]
fn live_and_expired_partition_the_store() {
    let mut rs = RumorStore::new(0);
    let now: i64 = 1_600_000_000_000_000_000;
    assert!(rs.insert(service_rumor("m1", "redis.default", 1)));
    let mut stale = service_rumor("m2", "redis.default", 1);
    if let RumorKind::Service(ref mut s) = stale {
        s.expiration = Expiration::new(now - 1);
    }
    assert!(rs.insert(stale));
    let live = rs.live_rumors_at(now);
    let gone = rs.expired_rumors_at(now);
    assert_eq!(live.len(), 1);
    assert_eq!(gone.len(), 1);
}

#[test]
fn projection_rows_cover_the_store() {
    let mut rs = RumorStore::new(0);
    assert!(rs.insert(service_rumor("m1", "redis.default", 1)));
    assert!(rs.insert(departure_rumor("m2")));
    let rows = rs.projection_rows();
    assert_eq!(rows.len(), 2);
    assert!(rows.iter().any(|r| r.0 == "redis.default" && r.1 == "m1"));
    assert!(rows.iter().any(|r| r.0 == "departure" && r.1 == "m2"));
}

#[test]
fn rumor_is_checks_the_stored_value() {
    let mut rs = RumorStore::new(0);
    assert!(rs.insert(service_rumor("m1", "redis.default", 5)));
    assert!(rs.rumor_is("redis.default", "m1", |r: &RumorKind| match r {
        RumorKind::Service(s) => s.incarnation == 5,
        _ => false,
    }));
    assert!(!rs.rumor_is("redis.default", "missing", |_r: &RumorKind| true));
}

#[test]
fn insert_and_merge_keeps_one_slot_and_newest_incarnation() {
    let mut rs = RumorStore::new(0);
    assert!(rs.insert(service_rumor("m1", "redis.default", 1)));
    assert!(rs.insert(service_rumor("m1", "redis.default", 2)));
    assert_eq!(rs.len_for_key("redis.default"), 1);
    assert_eq!(rs.get_update_counter(), 2);
    let bytes = rs.encode("redis.default", "m1").expect("stored rumor encodes");
    let env = butterfly::codec::RumorEnvelope::decode(&bytes).expect("round trip");
    match env.kind {
        RumorKind::Service(s) => assert_eq!(s.incarnation, 2),
        _ => panic!("expected a service rumor"),
    }
}

#[test]
fn departure_insert_is_idempotent() {
    let mut rs = RumorStore::new(0);
    assert!(rs.insert(departure_rumor("m1")));
    assert_eq!(rs.insert(departure_rumor("m1")), false);
    assert!(rs.contains_rumor("departure", "m1"));
    assert_eq!(rs.get_update_counter(), 1);
    assert_eq!(rs.get_ignored_count(RumorType::Departure), 1);
}

#[test]
fn election_adopts_higher_term() {
    let mut rs = RumorStore::new(0);
    assert!(rs.insert(election_rumor("a", "g", 3, ElectionStatus::Running)));
    assert!(rs.insert(election_rumor("b", "g", 4, ElectionStatus::Finished)));
    assert_eq!(rs.get_update_counter(), 2);
    let bytes = rs.encode("g", "election").expect("stored rumor encodes");
    let env = butterfly::codec::RumorEnvelope::decode(&bytes).expect("round trip");
    match env.kind {
        RumorKind::Election(e) => {
            assert_eq!(e.term, 4);
            assert_eq!(e.member_id, "b");
            assert!(matches!(e.status, ElectionStatus::Finished));
        }
        _ => panic!("expected an election rumor"),
    }
}

#[test]
fn election_rejects_lower_term() {
    let mut rs = RumorStore::new(0);
    assert!(rs.insert(election_rumor("a", "g", 5, ElectionStatus::Running)));
    assert_eq!(rs.insert(election_rumor("b", "g", 4, ElectionStatus::Running)), false);
    assert_eq!(rs.get_update_counter(), 1);
    assert_eq!(rs.get_ignored_count(RumorType::Election), 1);
}

#[test]
fn purge_drops_expired_rumors() {
    let mut rs = RumorStore::new(0);
    let now: i64 = 1_600_000_000_000_000_000;
    let mut service = service_rumor("m1", "redis.default", 1);
    if let RumorKind::Service(ref mut s) = service {
        s.expiration = Expiration::new(now - 1_000_000_000);
    }
    assert!(rs.insert(service));
    assert!(rs.contains_rumor("redis.default", "m1"));
    rs.purge_expired(now);
    assert!(!rs.contains_rumor("redis.default", "m1"));
}

#[test]
fn departure_dominates_membership() {
    let mut rs = RumorStore::new(0);
    assert!(rs.insert(departure_rumor("m1")));
    assert!(rs.insert(membership_rumor("m1", Health::Alive, 7)));
    let bytes = rs.encode("", "m1").expect("stored rumor encodes");
    let env = butterfly::codec::RumorEnvelope::decode(&bytes).expect("round trip");
    match env.kind {
        RumorKind::Membership(m) => {
            assert!(matches!(m.health, Health::Departed));
            assert_eq!(m.incarnation, 7);
        }
        _ => panic!("expected a membership rumor"),
    }
}

#[test]
fn departure_forces_stored_membership() {
    let mut rs = RumorStore::new(0);
    assert!(rs.insert(membership_rumor("m1", Health::Alive, 1)));
    assert!(rs.insert(departure_rumor("m1")));
    let bytes = rs.encode("", "m1").expect("stored rumor encodes");
    let env = butterfly::codec::RumorEnvelope::decode(&bytes).expect("round trip");
    match env.kind {
        RumorKind::Membership(m) => assert!(matches!(m.health, Health::Departed)),
        _ => panic!("expected a membership rumor"),
    }
}

#[test]
fn membership_merge_prefers_more_terminal_health() {
    let mut rs = RumorStore::new(0);
    assert!(rs.insert(membership_rumor("m1", Health::Alive, 3)));
    assert!(rs.insert(membership_rumor("m1", Health::Suspect, 3)));
    assert_eq!(rs.insert(membership_rumor("m1", Health::Alive, 3)), false);
    assert_eq!(rs.get_update_counter(), 2);
}

#[test]
fn convergence_on_permuted_inserts() {
    // the same set of rumors, two arrival orders, one store state
    let rumors = vec![
        service_rumor("m1", "redis.default", 1),
        service_rumor("m1", "redis.default", 2),
        departure_rumor("m2"),
        membership_rumor("m2", Health::Alive, 5),
        election_rumor("a", "g", 3, ElectionStatus::Running),
        election_rumor("b", "g", 4, ElectionStatus::Finished),
    ];
    let mut s1 = RumorStore::new(0);
    for r in rumors.iter() {
        s1.insert(r.duplicate());
    }
    let mut s2 = RumorStore::new(0);
    for r in rumors.iter().rev() {
        s2.insert(r.duplicate());
    }
    for (key, id) in [
        ("redis.default", "m1"),
        ("departure", "m2"),
        ("", "m2"),
        ("g", "election"),
    ] {
        assert_eq!(
            s1.encode(key, id).expect("stored in s1"),
            s2.encode(key, id).expect("stored in s2"),
        );
    }
    assert_eq!(s1.snapshot_bytes(), s2.snapshot_bytes());
}

#[test]
fn snapshot_round_trip() {
    let mut s = RumorStore::new(0);
    assert!(s.insert(service_rumor("m1", "redis.default", 2)));
    assert!(s.insert(departure_rumor("m2")));
    assert!(s.insert(membership_rumor("m3", Health::Confirmed, 4)));
    assert!(s.insert(election_rumor("a", "g", 3, ElectionStatus::Running)));
    let snap = s.snapshot_bytes();
    let mut restored = RumorStore::new(9);
    restored.restore_from_bytes(&snap).expect("snapshot restores");
    assert_eq!(restored.snapshot_bytes(), snap);
    assert_eq!(restored.get_update_counter(), 10);
    assert!(restored.contains_rumor("redis.default", "m1"));
    assert!(restored.contains_rumor("departure", "m2"));
    assert!(restored.contains_rumor("", "m3"));
    assert!(restored.contains_rumor("g", "election"));
}

#[test]
fn snapshot_with_wrong_version_is_incompatible() {
    let mut s = RumorStore::new(0);
    assert!(s.insert(service_rumor("m1", "redis.default", 1)));
    let mut snap = s.snapshot_bytes();
    snap[0] = 3;
    match s.restore_from_bytes(&snap) {
        Err(butterfly::error::RumorError::IncompatibleDatFile { version }) => {
            assert_eq!(version, 3)
        }
        other => panic!("expected an incompatible dat file, got {:?}", other),
    }
}

#[test]
fn truncated_snapshot_is_corrupt() {
    let mut s = RumorStore::new(0);
    assert!(s.insert(service_rumor("m1", "redis.default", 1)));
    let snap = s.snapshot_bytes();
    let cut = &snap[..snap.len() - 4];
    assert!(matches!(
        s.restore_from_bytes(cut),
        Err(butterfly::error::RumorError::CorruptDatFile { .. })
    ));
}

#[test]
fn clear_resets_and_reports_prior_counter() {
    let mut rs = RumorStore::new(0);
    assert!(rs.insert(service_rumor("m1", "redis.default", 1)));
    let prior = rs.clear();
    assert_eq!(prior, 1);
    assert_eq!(rs.get_update_counter(), 0);
    assert!(!rs.contains_rumor("redis.default", "m1"));
}

#[test]
fn remove_deletes_a_stored_rumor() {
    let mut rs = RumorStore::new(0);
    assert!(rs.insert(service_rumor("m1", "redis.default", 1)));
    rs.remove("redis.default", "m1");
    assert!(!rs.contains_rumor("redis.default", "m1"));
}

#[test]
fn expire_all_for_key_retires_a_group() {
    let mut rs = RumorStore::new(0);
    let now: i64 = 1_600_000_000_000_000_000;
    assert!(rs.insert(election_rumor("a", "g", 3, ElectionStatus::Running)));
    rs.expire_all_for_key("g", now - 1);
    rs.purge_expired(now);
    assert!(!rs.contains_rumor("g", "election"));
}

#[test]
fn contains_group_without_member_distinguishes_cases() {
    let mut rs = RumorStore::new(0);
    assert!(!rs.contains_group_without_member("redis.default", "m2"));
    assert!(rs.insert(service_rumor("m1", "redis.default", 1)));
    assert!(rs.contains_group_without_member("redis.default", "m2"));
    assert!(!rs.contains_group_without_member("redis.default", "m1"));
}

#[test]
fn rumor_keys_lists_live_rumors() {
    let mut rs = RumorStore::new(0);
    let now: i64 = 1_600_000_000_000_000_000;
    assert!(rs.insert(service_rumor("m1", "redis.default", 1)));
    let mut stale = service_rumor("m2", "redis.default", 1);
    if let RumorKind::Service(ref mut s) = stale {
        s.expiration = Expiration::new(now - 1);
    }
    assert!(rs.insert(stale));
    let keys = rs.rumor_keys_at(now);
    assert_eq!(keys.len(), 1);
    assert_eq!(keys[0].id, "m1");
    assert_eq!(keys[0].key, "redis.default");
    assert!(matches!(keys[0].kind, RumorType::Service));
}

#[test]
fn min_member_id_with_takes_the_least_match() {
    let mut rs = RumorStore::new(0);
    assert!(rs.insert(service_rumor("m3", "redis.default", 1)));
    assert!(rs.insert(service_rumor("m1", "redis.default", 1)));
    assert!(rs.insert(service_rumor("m2", "redis.default", 1)));
    let min = rs.min_member_id_with("redis.default", |id: &String| id != "m1");
    assert_eq!(min, Some("m2".to_string()));
    let none = rs.min_member_id_with("redis.default", |_id: &String| false);
    assert_eq!(none, None);
}
