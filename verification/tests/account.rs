use txledger::account::Account;
use txledger::money::Money;
use txledger::transaction::Tx;

fn tx(client: u16, id: u32, amount: Option<i64>) -> Tx {
    Tx { client, id, amount: amount.map(Money::from_raw) }
}

fn balances(a: &Account) -> (i64, i64, i64) {
    let book = a.book();
    (
        book.available_funds.raw(),
        book.held_funds.raw(),
        book.total_funds.raw(),
    )
}

fn accounting_holds(a: &Account) -> bool {
    let (available, held, total) = balances(a);
    total == available + held && held >= 0
}

#[test]
fn deposit_and_withdraw_move_funds() {
    let mut a = Account::new(1);
    assert_eq!(a.client(), 1);
    assert!(!a.locked());
    a.deposit(tx(1, 1, Some(10000)));
    a.deposit(tx(1, 3, Some(20000)));
    a.withdraw(tx(1, 4, Some(15000)));
    assert_eq!(balances(&a), (15000, 0, 15000));
    assert!(accounting_holds(&a));
}

#[test]
fn withdrawal_never_overdraws() {
    let mut a = Account::new(2);
    a.deposit(tx(2, 2, Some(20000)));
    a.withdraw(tx(2, 5, Some(30000)));
    assert_eq!(balances(&a), (20000, 0, 20000));
    assert!(accounting_holds(&a));
}

#[test]
fn deposit_is_idempotent_by_id() {
    let mut a = Account::new(1);
    a.deposit(tx(1, 1, Some(50000)));
    a.deposit(tx(1, 1, Some(50000)));
    assert_eq!(balances(&a), (50000, 0, 50000));
}

#[test]
fn repeated_withdrawal_id_is_ignored() {
    let mut a = Account::new(1);
    a.deposit(tx(1, 1, Some(50000)));
    a.withdraw(tx(1, 2, Some(10000)));
    a.withdraw(tx(1, 2, Some(10000)));
    assert_eq!(balances(&a), (40000, 0, 40000));
}

#[test]
fn deposit_rejects_missing_zero_and_negative_amounts() {
    let mut a = Account::new(1);
    a.deposit(tx(1, 1, None));
    a.deposit(tx(1, 2, Some(0)));
    a.deposit(tx(1, 3, Some(-10000)));
    assert_eq!(balances(&a), (0, 0, 0));
}

#[test]
fn withdrawal_rejects_missing_zero_and_negative_amounts() {
    let mut a = Account::new(1);
    a.deposit(tx(1, 1, Some(10000)));
    a.withdraw(tx(1, 2, None));
    a.withdraw(tx(1, 3, Some(0)));
    a.withdraw(tx(1, 4, Some(-10000)));
    assert_eq!(balances(&a), (10000, 0, 10000));
}

#[test]
fn dispute_holds_funds_and_resolve_restores_them() {
    let mut a = Account::new(1);
    a.deposit(tx(1, 1, Some(100000)));
    a.dispute(tx(1, 1, None));
    assert_eq!(balances(&a), (0, 100000, 100000));
    a.resolve(tx(1, 1, None));
    assert_eq!(balances(&a), (100000, 0, 100000));
    assert!(!a.locked());
}

#[test]
fn dispute_after_spending_goes_negative() {
    let mut a = Account::new(1);
    a.deposit(tx(1, 1, Some(100000)));
    a.withdraw(tx(1, 2, Some(80000)));
    a.dispute(tx(1, 1, None));
    assert_eq!(balances(&a), (-80000, 100000, 20000));
    assert!(accounting_holds(&a));
}

#[test]
fn dispute_of_unknown_or_withdrawn_id_is_ignored() {
    let mut a = Account::new(1);
    a.deposit(tx(1, 1, Some(100000)));
    a.withdraw(tx(1, 2, Some(30000)));
    a.dispute(tx(1, 9, None));
    a.dispute(tx(1, 2, None));
    assert_eq!(balances(&a), (70000, 0, 70000));
}

#[test]
fn second_dispute_of_same_id_is_ignored() {
    let mut a = Account::new(1);
    a.deposit(tx(1, 1, Some(100000)));
    a.dispute(tx(1, 1, None));
    a.dispute(tx(1, 1, None));
    assert_eq!(balances(&a), (0, 100000, 100000));
}

#[test]
fn resolve_and_chargeback_need_an_open_dispute() {
    let mut a = Account::new(1);
    a.deposit(tx(1, 1, Some(100000)));
    a.resolve(tx(1, 1, None));
    a.chargeback(tx(1, 1, None));
    assert_eq!(balances(&a), (100000, 0, 100000));
    assert!(!a.locked());
}

#[test]
fn chargeback_removes_funds_and_locks() {
    let mut a = Account::new(1);
    a.deposit(tx(1, 1, Some(100000)));
    a.dispute(tx(1, 1, None));
    a.chargeback(tx(1, 1, None));
    assert_eq!(balances(&a), (0, 0, 0));
    assert!(a.locked());
    assert!(accounting_holds(&a));
}

#[test]
fn locked_account_refuses_funds_movement() {
    let mut a = Account::new(1);
    a.deposit(tx(1, 1, Some(100000)));
    a.deposit(tx(1, 2, Some(50000)));
    a.dispute(tx(1, 1, None));
    a.chargeback(tx(1, 1, None));
    let before = balances(&a);
    a.deposit(tx(1, 3, Some(50000)));
    a.withdraw(tx(1, 4, Some(10000)));
    assert_eq!(balances(&a), before);
    assert!(a.locked());
}

#[test]
fn disputes_still_work_after_lock() {
    let mut a = Account::new(1);
    a.deposit(tx(1, 1, Some(100000)));
    a.deposit(tx(1, 2, Some(50000)));
    a.dispute(tx(1, 1, None));
    a.chargeback(tx(1, 1, None));
    a.dispute(tx(1, 2, None));
    assert_eq!(balances(&a), (0, 50000, 50000));
    a.resolve(tx(1, 2, None));
    assert_eq!(balances(&a), (50000, 0, 50000));
    assert!(accounting_holds(&a));
}

#[test]
fn accounting_identity_after_every_event() {
    let mut a = Account::new(3);
    let events = [
        tx(3, 1, Some(100000)),
        tx(3, 2, Some(25000)),
        tx(3, 3, Some(-1)),
        tx(3, 1, Some(100000)),
    ];
    for (i, e) in events.iter().enumerate() {
        if i % 2 == 0 {
            a.deposit(*e);
        } else {
            a.withdraw(*e);
        }
        assert!(accounting_holds(&a));
    }
    a.dispute(tx(3, 1, None));
    assert!(accounting_holds(&a));
    a.chargeback(tx(3, 1, None));
    assert!(accounting_holds(&a));
}
