use web_research_mcp::sessions::{AllocError, LookupError, SessionRegistry};

const MILLI: u128 = 1_000_000;
const SECOND: u128 = 1_000 * MILLI;

#[test]
fn allocate_under_cap() {
    let mut r = SessionRegistry::new(2);
    assert!(r.allocate("a".into(), 60 * SECOND, 60 * SECOND, 0).is_ok());
    assert!(r.allocate("b".into(), 60 * SECOND, 60 * SECOND, 0).is_ok());
}

#[test]
fn allocate_at_cap_fails() {
    let mut r = SessionRegistry::new(1);
    r.allocate("a".into(), 60 * SECOND, 60 * SECOND, 0).unwrap();
    assert_eq!(
        r.allocate("b".into(), 60 * SECOND, 60 * SECOND, 0),
        Err(AllocError::AtCapacity)
    );
}

#[test]
fn touch_unknown_session() {
    let mut r = SessionRegistry::new(1);
    assert_eq!(r.touch("nope", 0), Err(LookupError::NotFound));
}

#[test]
fn ttl_expiration() {
    let mut r = SessionRegistry::new(1);
    r.allocate("a".into(), 20 * MILLI, 60 * SECOND, 0).unwrap();
    assert_eq!(r.touch("a", 40 * MILLI), Err(LookupError::Expired));
    assert_eq!(r.count(), 0);
}

#[test]
fn idle_expiration() {
    let mut r = SessionRegistry::new(1);
    r.allocate("a".into(), 60 * SECOND, 20 * MILLI, 0).unwrap();
    assert_eq!(r.touch("a", 40 * MILLI), Err(LookupError::Expired));
}

#[test]
fn remove_session() {
    let mut r = SessionRegistry::new(2);
    r.allocate("a".into(), 60 * SECOND, 60 * SECOND, 0).unwrap();
    assert!(r.remove("a"));
    assert!(!r.remove("a"));
}

#[test]
fn cap_recovers_after_sweep() {
    let mut r = SessionRegistry::new(1);
    r.allocate("a".into(), 10 * MILLI, 60 * SECOND, 0).unwrap();
    // Expired but still in the map until next op.
    assert!(r
        .allocate("b".into(), 60 * SECOND, 60 * SECOND, 30 * MILLI)
        .is_ok());
}

#[test]
fn use_keeps_an_idle_session_alive() {
    let mut r = SessionRegistry::new(1);
    r.allocate("a".into(), 10 * SECOND, 2 * SECOND, 0).unwrap();
    assert_eq!(r.touch("a", SECOND), Ok(()));
    assert_eq!(r.touch("a", 2 * SECOND), Ok(()));
    assert_eq!(r.touch("a", 3 * SECOND + MILLI), Ok(()));
    assert_eq!(
        r.touch("a", 5 * SECOND + MILLI),
        Err(LookupError::Expired)
    );
    assert_eq!(r.touch("a", 5 * SECOND + MILLI), Err(LookupError::NotFound));
}

#[test]
fn a_session_ends_at_its_very_deadline() {
    let mut r = SessionRegistry::new(1);
    r.allocate("a".into(), SECOND, 60 * SECOND, 0).unwrap();
    assert_eq!(r.touch("a", SECOND - 1), Ok(()));
    assert_eq!(r.touch("a", SECOND), Err(LookupError::Expired));
}

#[test]
fn sweeping_names_what_it_takes_out() {
    let mut r = SessionRegistry::new(3);
    r.allocate("a".into(), SECOND, SECOND, 0).unwrap();
    r.allocate("b".into(), 9 * SECOND, 9 * SECOND, 0).unwrap();
    r.allocate("c".into(), SECOND, SECOND, 0).unwrap();
    assert_eq!(r.sweep(SECOND), vec!["a".to_string(), "c".to_string()]);
    assert_eq!(r.count(), 1);
    assert_eq!(r.touch("b", SECOND), Ok(()));
}

#[test]
fn an_identifier_stands_for_one_session() {
    let mut r = SessionRegistry::new(2);
    r.allocate("a".into(), SECOND, SECOND, 0).unwrap();
    r.allocate("a".into(), 5 * SECOND, 5 * SECOND, 0).unwrap();
    assert_eq!(r.count(), 1);
    assert_eq!(r.touch("a", 2 * SECOND), Ok(()));
}
