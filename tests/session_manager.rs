use boltr::error::BoltError;
use boltr::session_manager::{SessionHandle, SessionManager};

fn addr() -> String {
    "127.0.0.1:9999".to_string()
}

#[test]
fn register_and_remove() {
    let mut mgr = SessionManager::new(None);
    mgr.register(SessionHandle("s1".into()), addr(), 0).unwrap();
    assert_eq!(mgr.count(), 1);
    mgr.remove("s1");
    assert_eq!(mgr.count(), 0);
}

#[test]
fn capacity_limit() {
    let mut mgr = SessionManager::new(Some(1));
    mgr.register(SessionHandle("s1".into()), addr(), 0).unwrap();
    let result = mgr.register(SessionHandle("s2".into()), addr(), 0);
    assert!(result.is_err());
}

#[test]
fn capacity_error_keeps_count() {
    let mut mgr = SessionManager::new(Some(2));
    mgr.register(SessionHandle("a".into()), addr(), 0).unwrap();
    mgr.register(SessionHandle("b".into()), addr(), 0).unwrap();
    let third = mgr.register(SessionHandle("c".into()), addr(), 0);
    assert!(matches!(third, Err(BoltError::ResourceExhausted(_))));
    assert_eq!(mgr.count(), 2);
}

#[test]
fn reap_idle_removes_only_stale_sessions() {
    let mut mgr = SessionManager::new(None);
    mgr.register(SessionHandle("old".into()), addr(), 0).unwrap();
    mgr.register(SessionHandle("fresh".into()), addr(), 0).unwrap();
    mgr.register(SessionHandle("edge".into()), addr(), 0).unwrap();
    mgr.touch("fresh", 900);
    mgr.touch("edge", 500);
    let reaped = mgr.reap_idle(1000, 500);
    assert_eq!(reaped, vec!["old".to_string()]);
    assert_eq!(mgr.count(), 2);
    for s in &mgr.sessions {
        assert!(1000 - s.last_active <= 500);
    }
}

#[test]
fn touch_unknown_and_remove_unknown_change_nothing() {
    let mut mgr = SessionManager::new(None);
    mgr.register(SessionHandle("s".into()), addr(), 5).unwrap();
    mgr.touch("nope", 50);
    mgr.remove("nope");
    assert_eq!(mgr.count(), 1);
    assert_eq!(mgr.sessions[0].last_active, 5);
}
