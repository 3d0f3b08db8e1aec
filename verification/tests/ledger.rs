use aos_kernel::cap_ledger::{BudgetLedger, BudgetMap};

fn map(items: &[(&str, u64)]) -> BudgetMap {
    let mut out = BudgetMap::new();
    for (k, v) in items {
        out.insert(k.to_string(), *v);
    }
    out
}

fn ledger(limit: u64) -> BudgetLedger {
    BudgetLedger::from_grants(vec![
        ("g".to_string(), Some(map(&[("tokens", limit)]))),
        ("free".to_string(), None),
    ])
}

fn entry(l: &BudgetLedger) -> (u64, u64, u64) {
    let e = l.grants.get("g").unwrap().get("tokens").unwrap();
    (e.limit, e.reserved, e.spent)
}

#[test]
fn what_is_reserved_and_spent_stays_within_the_limit() {
    let mut l = ledger(10);
    assert!(l.apply_reserve("g", &map(&[("tokens", 6)])).is_ok());
    assert_eq!(entry(&l), (10, 6, 0));
    assert!(l.check_reserve("g", &map(&[("tokens", 4)])).is_ok());
    assert!(l.check_reserve("g", &map(&[("tokens", 5)])).is_err());
    assert!(l.apply_reserve("g", &map(&[("tokens", 5)])).is_err());
    assert_eq!(entry(&l), (10, 6, 0));
}

#[test]
fn a_settlement_turns_a_reservation_into_what_was_used() {
    let mut l = ledger(10);
    let six = map(&[("tokens", 6)]);
    l.apply_reserve("g", &six).unwrap();
    l.apply_settle("g", &six, &map(&[("tokens", 2)])).unwrap();
    assert_eq!(entry(&l), (10, 0, 2));
}

#[test]
fn an_unused_reservation_is_undone() {
    let mut l = ledger(10);
    let six = map(&[("tokens", 6)]);
    l.apply_reserve("g", &six).unwrap();
    l.apply_settle("g", &six, &map(&[])).unwrap();
    assert_eq!(entry(&l), (10, 0, 0));
}

#[test]
fn a_dimension_without_a_budget_is_not_limited() {
    let l = ledger(10);
    assert!(l.check_reserve("g", &map(&[("cents", 1)])).is_ok());
    let err = l.check_reserve("g", &map(&[("tokens", 11)])).unwrap_err();
    assert_eq!(err.message(), "budget exceeded for g:tokens (11 > 10)");
}

#[test]
fn a_grant_without_a_budget_is_not_limited() {
    let l = ledger(10);
    assert!(l.check_reserve("free", &map(&[("tokens", u64::MAX)])).is_ok());
}

#[test]
fn new_limits_keep_what_was_spent() {
    let mut l = ledger(10);
    let six = map(&[("tokens", 6)]);
    l.apply_reserve("g", &six).unwrap();
    l.update_from_grants(vec![("g".to_string(), Some(map(&[("tokens", 20)])))]);
    assert_eq!(entry(&l), (20, 6, 0));
}

#[test]
fn a_budget_without_an_end_is_capped() {
    let mut l = ledger(u64::MAX);
    let most = map(&[("tokens", u64::MAX)]);
    l.apply_reserve("g", &most).unwrap();
    assert_eq!(entry(&l), (u64::MAX, u64::MAX, 0));
    l.apply_settle("g", &most, &map(&[])).unwrap();
    assert_eq!(entry(&l), (u64::MAX, 0, 0));
}

#[test]
fn what_is_used_beyond_a_reservation_stays_within_the_limit() {
    let mut l = ledger(10);
    let six = map(&[("tokens", 6)]);
    l.apply_reserve("g", &six).unwrap();
    assert!(l.apply_settle("g", &six, &map(&[("tokens", 11)])).is_err());
    let (limit, reserved, spent) = entry(&l);
    assert!(reserved + spent <= limit);
}
