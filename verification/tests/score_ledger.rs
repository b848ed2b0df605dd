use score_ledger::ledger::Ledger;
use score_ledger::ledger::LedgerError;
use score_ledger::ledger::ScoreRecord;
use score_ledger::player::PlayerId;

fn pid(tag: u8) -> PlayerId {
    PlayerId { bytes: [tag; 32] }
}

#[test]
fn create_yields_zero_owned_record() {
    let a = pid(1);
    let mut ledger = Ledger::new();
    let rec = ledger.create(&a).unwrap();
    assert_eq!(rec.score, 0);
    assert_eq!(rec.owner.bytes, a.bytes);
    assert_eq!(ledger.get_score(&a), Some(0));
}

#[test]
fn create_twice_fails_already_exists() {
    let a = pid(7);
    let mut ledger = Ledger::new();
    assert!(ledger.create(&a).is_ok());
    assert_eq!(ledger.create(&a).unwrap_err(), LedgerError::AlreadyExists);
    assert_eq!(ledger.get_score(&a), Some(0));
}

#[test]
fn submit_run_keeps_maximum() {
    let a = pid(3);
    let mut ledger = Ledger::new();
    ledger.create(&a).unwrap();
    for v in [50u32, 30, 75, 75, 2, 74] {
        ledger.submit(&a, &a, v).unwrap();
    }
    assert_eq!(ledger.get_score(&a), Some(75));
}

#[test]
fn submit_lower_or_equal_is_a_no_op() {
    let a = pid(9);
    let mut ledger = Ledger::new();
    ledger.create(&a).unwrap();
    ledger.submit(&a, &a, 50).unwrap();
    ledger.submit(&a, &a, 30).unwrap();
    assert_eq!(ledger.get_score(&a), Some(50));
    ledger.submit(&a, &a, 50).unwrap();
    assert_eq!(ledger.get_score(&a), Some(50));
}

#[test]
fn submit_by_non_owner_fails_unauthorized() {
    let a = pid(4);
    let b = pid(5);
    let mut ledger = Ledger::new();
    ledger.create(&a).unwrap();
    ledger.submit(&a, &a, 42).unwrap();
    assert_eq!(
        ledger.submit(&a, &b, 99).unwrap_err(),
        LedgerError::Unauthorized
    );
    assert_eq!(ledger.get_score(&a), Some(42));
}

#[test]
fn submit_without_record_fails_not_found() {
    let b = pid(8);
    let mut ledger = Ledger::new();
    assert_eq!(
        ledger.submit(&b, &b, 10).unwrap_err(),
        LedgerError::NotFound
    );
    assert_eq!(ledger.get_score(&b), None);
}

#[test]
fn scenario_two_players() {
    let a = pid(1);
    let b = pid(2);
    let mut ledger = Ledger::new();
    ledger.create(&a).unwrap();
    assert_eq!(ledger.get_score(&a), Some(0));
    ledger.submit(&a, &a, 50).unwrap();
    assert_eq!(ledger.get_score(&a), Some(50));
    ledger.submit(&a, &a, 30).unwrap();
    assert_eq!(ledger.get_score(&a), Some(50));
    ledger.submit(&a, &a, 75).unwrap();
    assert_eq!(ledger.get_score(&a), Some(75));
    assert_eq!(
        ledger.submit(&b, &b, 10).unwrap_err(),
        LedgerError::NotFound
    );
}

#[test]
fn records_of_different_players_are_independent() {
    let a = pid(11);
    let b = pid(12);
    let mut ledger = Ledger::new();
    ledger.create(&a).unwrap();
    ledger.create(&b).unwrap();
    ledger.submit(&a, &a, 20).unwrap();
    ledger.submit(&b, &b, 90).unwrap();
    ledger.submit(&a, &a, 60).unwrap();
    assert_eq!(ledger.get_score(&a), Some(60));
    assert_eq!(ledger.get_score(&b), Some(90));
}

#[test]
fn record_level_submit_is_monotonic() {
    let a = pid(6);
    let mut rec = ScoreRecord::new(a);
    assert_eq!(rec.score, 0);
    rec.submit_score(u32::MAX);
    assert_eq!(rec.score, u32::MAX);
    rec.submit_score(u32::MAX - 1);
    assert_eq!(rec.score, u32::MAX);
    assert_eq!(rec.owner.bytes, a.bytes);
}

#[test]
fn identities_compare_byte_for_byte() {
    let a = pid(1);
    let mut almost = pid(1);
    almost.bytes[31] = 2;
    assert!(a.is_same(&pid(1)));
    assert!(!a.is_same(&almost));
    assert!(!a.is_same(&pid(2)));
}
