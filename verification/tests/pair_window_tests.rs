use privatium_core::pair::code::{Code, WordList};
use privatium_core::pair::{Pairing, PairError};

fn at(secs: i128) -> i128 {
    (1_800_000_000 + secs) * 1_000_000_000
}

fn word_file() -> String {
    let mut out = String::new();
    for i in 0..256usize {
        out.push_str(&format!("w{i:03}x\n"));
    }
    out
}

#[test]
fn a_window_clamps_its_ttl_and_refuses_zero() {
    assert_eq!(
        Pairing::open("01J".to_string(), 0, 0, at(0)).err(),
        Some(PairError::Ttl)
    );
    let Ok(window) = Pairing::open("01J".to_string(), 10_000, 0, at(0)) else {
        panic!("open")
    };
    assert_eq!(window.expires_at(), at(120));
    assert!(window.is_open(at(119)));
    assert!(!window.is_open(at(120)));
}

#[test]
fn a_fraction_of_a_second_is_dropped_and_under_one_second_is_refused() {
    assert_eq!(
        Pairing::open("w".to_string(), 0, 999_999_999, at(0)).err(),
        Some(PairError::Ttl)
    );
    let w = Pairing::open_with(Code::from_u16(7), "w".to_string(), 1, 900_000_000, at(0)).ok().unwrap();
    assert_eq!(w.expires_at(), at(1));
    assert_eq!(w.code().as_u16(), 7);
    assert_eq!(w.attempts(), 0);
    assert_eq!(w.generation(), 0);
    assert_eq!(w.id(), "w");
}

#[test]
fn attempts_are_rate_limited_per_source_and_spent_after_five() {
    let mut w = Pairing::open_with(Code::from_u16(0x1234), "w".to_string(), 120, 0, at(0)).ok().unwrap();
    assert_eq!(w.begin_attempt(1, at(0)).ok().map(|c| c.as_u16()), Some(0x1234));
    assert_eq!(w.begin_attempt(1, at(1)).err(), Some(PairError::RateLimited));
    assert_eq!(w.attempts(), 1);
    assert!(w.begin_attempt(1, at(2)).is_ok());
    assert!(w.begin_attempt(2, at(2)).is_ok());
    assert!(w.begin_attempt(3, at(2)).is_ok());
    assert!(!w.record_failure());
    assert!(w.begin_attempt(4, at(2)).is_ok());
    assert_eq!(w.attempts(), 5);
    assert_eq!(w.begin_attempt(5, at(3)).err(), Some(PairError::Exhausted));
    assert_eq!(w.attempts(), 0);
    assert_eq!(w.generation(), 1);
    assert!(w.begin_attempt(6, at(3)).is_ok());
}

#[test]
fn a_fifth_failure_replaces_the_code() {
    let mut w = Pairing::open_with(Code::from_u16(9), "w".to_string(), 60, 0, at(0)).ok().unwrap();
    for source in 0..5u128 {
        assert!(w.begin_attempt(source, at(0)).is_ok());
    }
    assert!(w.record_failure());
    assert_eq!(w.attempts(), 0);
    assert_eq!(w.generation(), 1);
}

#[test]
fn a_consumed_or_expired_window_is_closed() {
    let mut w = Pairing::open_with(Code::from_u16(9), "w".to_string(), 60, 0, at(0)).ok().unwrap();
    w.consume("dev-a", at(5));
    assert_eq!(w.consumed_by(), Some("dev-a"));
    assert!(!w.is_open(at(6)));
    assert_eq!(w.begin_attempt(1, at(6)).err(), Some(PairError::Closed));
    let mut v = Pairing::open_with(Code::from_u16(9), "v".to_string(), 60, 0, at(0)).ok().unwrap();
    assert!(v.expired(at(60)));
    assert_eq!(v.begin_attempt(1, at(60)).err(), Some(PairError::Closed));
    assert_eq!(v.attempts(), 0);
}

#[test]
fn the_snapshot_shows_both_renderings_and_the_times() {
    let list = WordList::parse(&word_file()).unwrap();
    let w = Pairing::open_with(Code::from_u16(0x0102), "w1".to_string(), 120, 0, 0).ok().unwrap();
    let s = w.snapshot("http://node.local:8420".to_string(), &list);
    assert_eq!(s.id, "w1");
    assert_eq!(s.words, ["w001x".to_string(), "w002x".to_string()]);
    assert_eq!(s.created_at, "1970-01-01T00:00:00.000Z");
    assert_eq!(s.expires_at, "1970-01-01T00:02:00.000Z");
    assert_eq!(s.url, "http://node.local:8420");
    assert_eq!(s.consumed_by, None);
    assert_eq!(s.attempts, 0);
}

#[test]
fn a_confirmation_is_checked_against_the_code_the_window_and_the_exchange() {
    let mut w = Pairing::open_with(Code::from_u16(7), "w".to_string(), 60, 0, at(0)).ok().unwrap();
    assert_eq!(w.check_confirm(1, at(1), true), Err(PairError::Exhausted));
    assert_eq!(w.check_confirm(0, at(1), true), Ok(()));
    assert_eq!(w.check_confirm(0, at(60), true), Err(PairError::Closed));
    for k in 0..5u128 {
        assert_eq!(w.begin_attempt(k, at(1 + k as i128 * 3)).map(|c| c.as_u16()), Ok(7));
    }
    assert_eq!(w.attempts(), 5);
    assert_eq!(w.check_confirm(0, at(20), false), Err(PairError::WrongCode));
    assert_eq!(w.generation(), 1);
    assert_eq!(w.attempts(), 0);
    assert_eq!(w.check_confirm(0, at(21), true), Err(PairError::Exhausted));
    w.consume("d", at(22));
    assert_eq!(w.check_confirm(1, at(23), true), Err(PairError::Closed));
}
