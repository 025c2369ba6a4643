use noda_core::crypto::{decimal, decrypt_bytes, derive_kek, effective_timeout_setting, encrypt_bytes, Session};
use noda_core::errors::NodaError;
use noda_core::time::Timestamp;

fn at(secs: i64) -> Timestamp {
    Timestamp { secs, nanos: 0 }
}

#[test]
fn bytes_round_trip_through_the_cipher() {
    let key = vec![7u8; 32];
    let (sealed, nonce) = encrypt_bytes(&key, b"secret body").unwrap();
    assert_eq!(nonce.len(), 24);
    assert_ne!(sealed, b"secret body".to_vec());
    assert_eq!(decrypt_bytes(&key, &sealed, &nonce).unwrap(), b"secret body".to_vec());
    let wrong = vec![8u8; 32];
    match decrypt_bytes(&wrong, &sealed, &nonce) {
        Err(NodaError::Vault(_)) => {}
        other => panic!("unexpected {:?}", other),
    }
    assert!(decrypt_bytes(&key, &sealed, &nonce[..12]).is_err());
}

#[test]
fn key_derivation_depends_on_password_and_salt() {
    let salt = b"0123456789abcdef";
    let a = derive_kek("hunter2", salt).unwrap();
    assert_eq!(a.len(), 32);
    assert_eq!(a, derive_kek("hunter2", salt).unwrap());
    assert_ne!(a, derive_kek("hunter3", salt).unwrap());
    match derive_kek("pw", b"s") {
        Err(NodaError::Vault(m)) => assert!(m.starts_with("Argon2 KEK derivation failed: ")),
        other => panic!("unexpected {:?}", other),
    }
}

#[test]
fn idle_sessions_lock_after_their_timeout() {
    let mut s = Session::new(at(0));
    assert!(!s.is_unlocked());
    assert!(!s.expire_if_idle(at(10_000)));
    s.unlock(vec![1u8; 32], "5m".to_string(), at(100));
    assert!(s.is_unlocked());
    s.remember_dek("N1".to_string(), vec![2u8; 32]);
    assert_eq!(s.cached_dek("N1"), Some(vec![2u8; 32]));
    assert!(!s.expire_if_idle(at(399)));
    s.record_interaction(at(300));
    assert!(!s.expire_if_idle(at(599)));
    assert!(s.expire_if_idle(at(600)));
    assert!(!s.is_unlocked());
    assert_eq!(s.cached_dek("N1"), None);
}

#[test]
fn every_time_locks_at_once_and_forgotten_keys_are_gone() {
    let mut s = Session::new(at(0));
    s.unlock(vec![1u8; 32], "Every Time".to_string(), at(0));
    s.remember_dek("A".to_string(), vec![3u8; 32]);
    s.remember_dek("B".to_string(), vec![4u8; 32]);
    s.forget_dek("A");
    assert_eq!(s.cached_dek("A"), None);
    assert_eq!(s.cached_dek("B"), Some(vec![4u8; 32]));
    s.set_timeout("1h".to_string(), at(5));
    assert_eq!(s.last_interaction.secs, 5);
    assert!(!s.expire_if_idle(at(3604)));
    assert!(s.expire_if_idle(at(3605)));
    s.unlock(vec![1u8; 32], "Every Time".to_string(), at(10));
    assert!(s.expire_if_idle(at(10)));
}

#[test]
fn shown_timeout_prefers_the_open_session() {
    let mut s = Session::new(at(0));
    assert_eq!(effective_timeout_setting(&s, None), "15m");
    assert_eq!(effective_timeout_setting(&s, Some("1m".to_string())), "1m");
    s.unlock(vec![1u8; 32], "5m".to_string(), at(0));
    assert_eq!(effective_timeout_setting(&s, Some("1m".to_string())), "5m");
    s.lock();
    assert_eq!(effective_timeout_setting(&s, Some("1m".to_string())), "1m");
}

#[test]
fn decimal_digits() {
    assert_eq!(decimal(0).into_iter().collect::<String>(), "0");
    assert_eq!(decimal(1907).into_iter().collect::<String>(), "1907");
}
