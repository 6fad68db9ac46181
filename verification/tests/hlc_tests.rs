use aas_deltasync::{Hlc, Timestamp};
use uuid::Uuid;

#[test]
fn hlc_monotonic() {
    let actor = Uuid::new_v4().as_u128();
    let mut hlc = Hlc::new(actor);

    let t1 = hlc.tick();
    let t2 = hlc.tick();
    let t3 = hlc.tick();

    assert!(t1 < t2);
    assert!(t2 < t3);
}

#[test]
fn hlc_update_advances() {
    let actor_a = Uuid::new_v4().as_u128();
    let actor_b = Uuid::new_v4().as_u128();

    let mut hlc_a = Hlc::new(actor_a);
    let mut hlc_b = Hlc::new(actor_b);

    // A generates a timestamp
    let t_a = hlc_a.tick();

    // B receives it and updates
    hlc_b.update(t_a);

    // B's next timestamp should be ahead of A's
    let t_b = hlc_b.tick();
    assert!(t_b > t_a);
}

#[test]
fn timestamp_serialization_roundtrip() {
    let ts = Timestamp {
        physical_ms: 1_704_067_200_000,
        logical: 42,
        actor_id: Uuid::new_v4().as_u128(),
    };

    let bytes = ts.to_bytes();
    let decoded = Timestamp::from_bytes(&bytes).unwrap();

    assert_eq!(ts, decoded);
}

#[test]
fn timestamp_ordering_tiebreaker() {
    let actor_a = Uuid::parse_str("00000000-0000-0000-0000-000000000001").unwrap().as_u128();
    let actor_b = Uuid::parse_str("00000000-0000-0000-0000-000000000002").unwrap().as_u128();

    let t1 = Timestamp { physical_ms: 1000, logical: 0, actor_id: actor_a };

    let t2 = Timestamp { physical_ms: 1000, logical: 0, actor_id: actor_b };

    // Same time and counter, so actor_id breaks tie
    assert!(t1 < t2);
}

#[test]
fn timestamp_from_short_input_fails() {
    let r = Timestamp::from_bytes(&[0u8; 27]);
    assert!(r.is_err());
}

#[test]
fn clock_advance_absorbs_backward_wall_clock() {
    let mut hlc = Hlc::new(7);
    let t0 = hlc.current();
    // the wall clock jumps backwards; the logical counter absorbs it
    let t1 = hlc.advance(0);
    let t2 = hlc.advance(0);
    assert!(t0 < t1);
    assert!(t1 < t2);
    assert_eq!(t1.physical_ms, t0.physical_ms);
    assert_eq!(t1.logical, t0.logical + 1);
}
