use shangyou::logger::Logger;
use shangyou::session::{RegisterError, Registry};

#[test]
fn registration_enforces_unique_names() {
    let mut reg = Registry::new();
    assert!(reg.register("ada".to_string(), 1, 100).is_ok());
    assert_eq!(
        reg.register("ada".to_string(), 2, 101),
        Err(RegisterError::DuplicateName)
    );
    assert!(reg.register("bob".to_string(), 2, 101).is_ok());
    assert_eq!(reg.entries.len(), 2);
}

#[test]
fn names_with_the_separator_are_refused() {
    let mut reg = Registry::new();
    assert_eq!(
        reg.register("a/b".to_string(), 1, 100),
        Err(RegisterError::InvalidName)
    );
    assert_eq!(reg.entries.len(), 0);
}

#[test]
fn names_with_an_embedded_nul_are_refused() {
    let mut reg = Registry::new();
    assert_eq!(
        reg.register("a\0b".to_string(), 1, 100),
        Err(RegisterError::InvalidName)
    );
    assert_eq!(reg.entries.len(), 0);
}

#[test]
fn names_with_a_space_are_refused() {
    let mut reg = Registry::new();
    assert_eq!(
        reg.register("a b".to_string(), 1, 100),
        Err(RegisterError::InvalidName)
    );
    assert_eq!(reg.entries.len(), 0);
}

#[test]
fn heartbeat_refreshes_liveness() {
    let mut reg = Registry::new();
    reg.register("ada".to_string(), 1, 100).unwrap();
    assert!(reg.heartbeat("ada", 150));
    assert_eq!(reg.entries[0].last_active, 150);
    assert!(!reg.heartbeat("ghost", 150));
}

#[test]
fn prune_drops_only_silent_players() {
    let mut reg = Registry::new();
    reg.register("ada".to_string(), 1, 100).unwrap();
    reg.register("bob".to_string(), 2, 100).unwrap();
    reg.register("eve".to_string(), 3, 100).unwrap();
    reg.heartbeat("bob", 125);
    // At time 130 with a 20-unit timeout, ada and eve (last heard at 100)
    // are stale; bob (heard at 125) stays.
    let removed = reg.prune(130, 20);
    assert_eq!(reg.entries.len(), 1);
    assert_eq!(reg.entries[0].player.name, "bob".to_string());
    assert_eq!(removed.len(), 2);
    assert_eq!(removed[0].player.name, "ada".to_string());
    assert_eq!(removed[1].player.name, "eve".to_string());
    // Their connection handles come back so the caller can close them.
    assert_eq!(removed[0].conn, 1);
    assert_eq!(removed[1].conn, 3);
}

#[test]
fn find_reports_positions() {
    let mut reg = Registry::new();
    reg.register("ada".to_string(), 1, 100).unwrap();
    reg.register("bob".to_string(), 2, 100).unwrap();
    assert_eq!(reg.find("bob"), Some(1));
    assert_eq!(reg.find("eve"), None);
}

#[test]
fn logger_keeps_entries_until_they_time_out() {
    let mut log = Logger::new();
    log.log("forever".to_string(), 100, 0);
    log.log("short".to_string(), 100, 5);
    log.log("long".to_string(), 100, 50);
    assert_eq!(log.entries.len(), 3);
    log.clean(104);
    assert_eq!(log.entries.len(), 3);
    log.clean(110);
    assert_eq!(log.entries.len(), 2);
    assert_eq!(log.entries[0].message, "forever".to_string());
    assert_eq!(log.entries[1].message, "long".to_string());
    log.clean(500);
    assert_eq!(log.entries.len(), 1);
    assert_eq!(log.entries[0].message, "forever".to_string());
}
