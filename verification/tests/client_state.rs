use ledger_replay::client_state::{ClientState, DepositState, DepositStateType, Diagnostic};
use ledger_replay::io::{Amount, ClientId, Transaction, TransactionId};

fn amt(whole: i64) -> Amount {
    Amount::from_whole(whole).unwrap()
}

fn deposit(tx: u32, amount: i64) -> Transaction {
    Transaction::Deposit { client: ClientId(1), tx: TransactionId(tx), amount: amt(amount) }
}

fn withdrawal(tx: u32, amount: i64) -> Transaction {
    Transaction::Withdrawal { client: ClientId(1), tx: TransactionId(tx), amount: amt(amount) }
}

fn dispute(tx: u32) -> Transaction {
    Transaction::Dispute { client: ClientId(1), tx: TransactionId(tx) }
}

fn resolve(tx: u32) -> Transaction {
    Transaction::Resolve { client: ClientId(1), tx: TransactionId(tx) }
}

fn chargeback(tx: u32) -> Transaction {
    Transaction::ChargeBack { client: ClientId(1), tx: TransactionId(tx) }
}

/// Checks every field of `cs`: the balances, the lock flag and the deposits
/// on record, which must be exactly `deposits`.
fn assert_state(
    cs: &ClientState,
    available: i64,
    held: i64,
    locked: bool,
    deposits: &[(u32, i64, DepositStateType)],
) {
    assert_eq!(cs.available(), amt(available));
    assert_eq!(cs.held(), amt(held));
    assert_eq!(cs.locked(), locked);
    assert_eq!(cs.deposit_count(), deposits.len());
    for (tx, amount, ty) in deposits {
        assert_eq!(
            cs.deposit(TransactionId(*tx)),
            Some(DepositState { ty: *ty, amount: amt(*amount) })
        );
    }
}

#[test]
fn test_deposit() {
    let mut cs = ClientState::default();

    cs.process_transaction(deposit(1, 3));
    assert_state(&cs, 3, 0, false, &[(1, 3, DepositStateType::Normal)]);

    cs.process_transaction(deposit(2, 5));
    assert_state(
        &cs,
        8,
        0,
        false,
        &[(1, 3, DepositStateType::Normal), (2, 5, DepositStateType::Normal)],
    );
}

#[test]
fn test_withdraw() {
    let mut cs = ClientState::default();

    // Withdraw empty account.
    let old_cs = cs.clone();
    cs.process_transaction(withdrawal(1, 2));
    assert_eq!(cs, old_cs);

    // Successful withdrawal.
    cs.process_transaction(deposit(2, 3));
    cs.process_transaction(withdrawal(3, 2));
    assert_state(&cs, 1, 0, false, &[(2, 3, DepositStateType::Normal)]);

    // Too little funds.
    let old_cs = cs.clone();
    cs.process_transaction(withdrawal(2, 2));
    assert_eq!(cs, old_cs);
}

#[test]
fn test_dispute() {
    let mut cs = ClientState::default();
    let old_cs = cs.clone();

    // Dispute empty account
    cs.process_transaction(dispute(1));
    assert_eq!(cs, old_cs);

    // Dispute deposit
    cs.process_transaction(deposit(1, 3));
    cs.process_transaction(dispute(1));
    assert_state(&cs, 0, 3, false, &[(1, 3, DepositStateType::Disputed)]);

    // Dispute already disputed.
    let old_cs = cs.clone();
    cs.process_transaction(dispute(1));
    assert_eq!(cs, old_cs);

    // Deposit->withdraw->dispute results in negative available.
    cs.process_transaction(deposit(2, 5));
    cs.process_transaction(withdrawal(3, 5));
    cs.process_transaction(dispute(2));
    assert_state(
        &cs,
        -5,
        8,
        false,
        &[(1, 3, DepositStateType::Disputed), (2, 5, DepositStateType::Disputed)],
    );

    // Dispute withdrawal
    cs.process_transaction(deposit(5, 5));
    cs.process_transaction(withdrawal(6, 5));

    let old_cs = cs.clone();
    cs.process_transaction(dispute(6));
    assert_eq!(cs, old_cs)
}

#[test]
fn test_resolve() {
    let mut cs = ClientState::default();
    let old_cs = cs.clone();

    // Resolve empty account
    cs.process_transaction(resolve(1));
    assert_eq!(cs, old_cs);

    // Resolve deposit
    cs.process_transaction(deposit(1, 3));
    let old_cs = cs.clone();
    cs.process_transaction(resolve(1));
    assert_eq!(cs, old_cs);

    // Resolve dispute
    cs.process_transaction(dispute(1));
    cs.process_transaction(resolve(1));
    assert_eq!(cs, old_cs);

    // Resolve chargeback
    cs.process_transaction(dispute(1));
    cs.process_transaction(chargeback(1));
    cs.process_transaction(resolve(1));

    assert_state(&cs, 0, 0, true, &[(1, 3, DepositStateType::ChargedBack)]);
}

#[test]
fn test_chargeback() {
    let mut cs = ClientState::default();
    let old_cs = cs.clone();

    // Chargeback empty account
    cs.process_transaction(chargeback(1));
    assert_eq!(cs, old_cs);

    // Chargeback deposit
    cs.process_transaction(deposit(1, 3));
    let old_cs = cs.clone();
    cs.process_transaction(chargeback(1));
    assert_eq!(cs, old_cs);

    // Chargeback disputed
    cs.process_transaction(dispute(1));
    cs.process_transaction(chargeback(1));
    assert_state(&cs, 0, 0, true, &[(1, 3, DepositStateType::ChargedBack)]);

    // After a chargeback, the client is locked so transactions
    // should not alter the state.
    let old_cs = cs.clone();
    // Deposit after ChargeBack
    cs.process_transaction(deposit(4, 8));
    assert_eq!(cs, old_cs);

    // Withdraw after ChargeBack
    cs.process_transaction(withdrawal(5, 8));
    assert_eq!(cs, old_cs);

    // Dispute after ChargeBack
    cs.process_transaction(dispute(1));
    assert_eq!(cs, old_cs);

    // Resolve after ChargeBack
    cs.process_transaction(resolve(1));
    assert_eq!(cs, old_cs);

    // ChargeBack after ChargeBack
    cs.process_transaction(chargeback(1));
    assert_eq!(cs, old_cs);
}

#[test]
fn test_chargeback_withdrawal() {
    let mut cs = ClientState::default();

    // Deposit->withdraw->dispute->chargeback leads to
    // negative available
    cs.process_transaction(deposit(1, 3));
    cs.process_transaction(withdrawal(2, 2));
    cs.process_transaction(dispute(1));
    cs.process_transaction(chargeback(1));
    println!("cs:{:?};", cs);
    assert_state(&cs, -2, 0, true, &[(1, 3, DepositStateType::ChargedBack)]);
}

#[test]
fn deposit_then_dispute_holds_the_amount() {
    let mut cs = ClientState::new();
    assert_eq!(cs.process_transaction(deposit(1, 3)), None);
    assert_eq!(cs.process_transaction(dispute(1)), None);
    assert_state(&cs, 0, 3, false, &[(1, 3, DepositStateType::Disputed)]);
    assert_eq!(cs.total(), 30_000);
}

#[test]
fn diagnostics_name_the_rejection() {
    let c = ClientId(1);
    let mut cs = ClientState::new();
    assert_eq!(
        cs.process_transaction(withdrawal(1, 2)),
        Some(Diagnostic::InsufficientFunds {
            client: c,
            tx: TransactionId(1),
            amount: amt(2),
            available: amt(0),
        })
    );
    assert_eq!(
        cs.process_transaction(dispute(9)),
        Some(Diagnostic::NoSuchDeposit { client: c, tx: TransactionId(9) })
    );
    assert_eq!(
        cs.process_transaction(resolve(9)),
        Some(Diagnostic::NoSuchDeposit { client: c, tx: TransactionId(9) })
    );
    assert_eq!(
        cs.process_transaction(chargeback(9)),
        Some(Diagnostic::NoSuchDeposit { client: c, tx: TransactionId(9) })
    );
    cs.process_transaction(deposit(1, 3));
    assert_eq!(
        cs.process_transaction(resolve(1)),
        Some(Diagnostic::NotDisputed { client: c, tx: TransactionId(1) })
    );
    assert_eq!(
        cs.process_transaction(chargeback(1)),
        Some(Diagnostic::NotDisputed { client: c, tx: TransactionId(1) })
    );
    assert_eq!(cs.process_transaction(dispute(1)), None);
    assert_eq!(
        cs.process_transaction(dispute(1)),
        Some(Diagnostic::AlreadyDisputed { client: c, tx: TransactionId(1) })
    );
    assert_eq!(
        cs.process_transaction(chargeback(1)),
        Some(Diagnostic::AccountLocked { client: c, tx: TransactionId(1) })
    );
    // A locked account drops everything in silence.
    assert_eq!(cs.process_transaction(chargeback(1)), None);
    assert_eq!(cs.process_transaction(deposit(2, 1)), None);
    assert_state(&cs, 0, 0, true, &[(1, 3, DepositStateType::ChargedBack)]);
}

#[test]
fn a_deposit_under_a_known_number_overwrites_the_record() {
    let mut cs = ClientState::new();
    cs.process_transaction(deposit(1, 3));
    cs.process_transaction(dispute(1));
    cs.process_transaction(deposit(1, 4));
    assert_state(&cs, 4, 3, false, &[(1, 4, DepositStateType::Normal)]);
}

#[test]
fn negative_amounts_are_taken_as_they_come() {
    let mut cs = ClientState::new();
    assert_eq!(cs.process_transaction(deposit(1, -3)), None);
    assert_state(&cs, -3, 0, false, &[(1, -3, DepositStateType::Normal)]);
    assert_eq!(cs.process_transaction(withdrawal(2, -5)), None);
    assert_state(&cs, 2, 0, false, &[(1, -3, DepositStateType::Normal)]);
}

#[test]
fn a_balance_out_of_range_rejects_the_transaction() {
    let c = ClientId(1);
    let max = Transaction::Deposit { client: c, tx: TransactionId(1), amount: Amount(i64::MAX) };
    let one = Transaction::Deposit { client: c, tx: TransactionId(2), amount: Amount(1) };
    let mut cs = ClientState::new();
    assert_eq!(cs.process_transaction(max), None);
    let before = cs.clone();
    assert_eq!(
        cs.process_transaction(one),
        Some(Diagnostic::BalanceOverflow { client: c, tx: TransactionId(2) })
    );
    assert_eq!(cs, before);
    assert_eq!(cs.deposit(TransactionId(2)), None);

    // Held funds at the top of the range cannot take a further dispute.
    assert_eq!(cs.process_transaction(dispute(1)), None);
    assert_eq!(cs.held(), Amount(i64::MAX));
    assert_eq!(cs.available(), Amount(0));
    cs.process_transaction(one);
    let before = cs.clone();
    assert_eq!(
        cs.process_transaction(dispute(2)),
        Some(Diagnostic::BalanceOverflow { client: c, tx: TransactionId(2) })
    );
    assert_eq!(cs, before);

    // A withdrawal of a negative amount that would pass the top is rejected.
    let mut cs = ClientState::new();
    cs.process_transaction(max);
    let w = Transaction::Withdrawal { client: c, tx: TransactionId(3), amount: Amount(-1) };
    assert_eq!(
        cs.process_transaction(w),
        Some(Diagnostic::BalanceOverflow { client: c, tx: TransactionId(3) })
    );
    assert_eq!(cs.available(), Amount(i64::MAX));
}

#[test]
fn the_total_is_exact_at_the_ends_of_the_range() {
    let c = ClientId(7);
    let mut cs = ClientState::new();
    cs.process_transaction(Transaction::Deposit {
        client: c,
        tx: TransactionId(1),
        amount: Amount(i64::MAX),
    });
    cs.process_transaction(Transaction::Dispute { client: c, tx: TransactionId(1) });
    cs.process_transaction(Transaction::Deposit {
        client: c,
        tx: TransactionId(2),
        amount: Amount(i64::MAX),
    });
    let o = cs.output(c);
    assert_eq!(o.client, c);
    assert_eq!(o.available, Amount(i64::MAX));
    assert_eq!(o.held, Amount(i64::MAX));
    assert_eq!(o.total, 2 * (i64::MAX as i128));
    assert!(!o.locked);
}

#[test]
fn from_whole_scales_by_ten_thousand() {
    assert_eq!(Amount::from_whole(3), Some(Amount(30_000)));
    assert_eq!(Amount::from_whole(-2), Some(Amount(-20_000)));
    assert_eq!(Amount::from_whole(0), Some(Amount(0)));
    assert_eq!(Amount::from_whole(i64::MAX / 10_000), Some(Amount(9_223_372_036_854_770_000)));
    assert_eq!(Amount::from_whole(i64::MAX / 10_000 + 1), None);
    assert_eq!(Amount::from_whole(i64::MIN), None);
}
