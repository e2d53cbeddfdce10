use ledger_replay::client_state::Diagnostic;
use ledger_replay::io::{
    Amount, ClientId, Field, Output, ParseError, Transaction, TransactionId,
};
use ledger_replay::transaction_processor::{
    process, process_records, route, TransactionProcessor,
};

fn amt(whole: i64) -> Amount {
    Amount::from_whole(whole).unwrap()
}

fn sorted(mut outputs: Vec<Output>) -> Vec<Output> {
    outputs.sort_by_key(|o| o.client);
    outputs
}

fn sample() -> Vec<Transaction> {
    let mut txs = Vec::new();
    let mut tx = 0u32;
    for round in 0..4i64 {
        for client in [0u16, 1, 2, 3, 4, 5, 7, 11, 300, 65535] {
            tx += 1;
            txs.push(Transaction::Deposit {
                client: ClientId(client),
                tx: TransactionId(tx),
                amount: amt(10 + round + client as i64 % 5),
            });
            if client % 2 == 0 {
                tx += 1;
                txs.push(Transaction::Withdrawal {
                    client: ClientId(client),
                    tx: TransactionId(tx),
                    amount: amt(4),
                });
            }
            if client % 3 == 0 {
                txs.push(Transaction::Dispute { client: ClientId(client), tx: TransactionId(tx - 1) });
            }
            if client % 3 == 0 && round == 1 {
                txs.push(Transaction::Resolve { client: ClientId(client), tx: TransactionId(tx - 1) });
            }
            if client == 3 && round == 2 {
                txs.push(Transaction::ChargeBack { client: ClientId(3), tx: TransactionId(tx) });
            }
        }
    }
    txs
}

#[test]
fn example_deposit() {
    let out = process(
        &vec![Transaction::Deposit { client: ClientId(1), tx: TransactionId(1), amount: amt(3) }],
        1,
    );
    assert_eq!(
        out,
        vec![Output {
            client: ClientId(1),
            available: amt(3),
            held: amt(0),
            total: 30_000,
            locked: false
        }]
    );
}

#[test]
fn example_deposit_withdrawal() {
    let c = ClientId(1);
    let out = process(
        &vec![
            Transaction::Deposit { client: c, tx: TransactionId(1), amount: amt(3) },
            Transaction::Withdrawal { client: c, tx: TransactionId(2), amount: amt(2) },
        ],
        1,
    );
    assert_eq!(
        out,
        vec![Output { client: c, available: amt(1), held: amt(0), total: 10_000, locked: false }]
    );
}

#[test]
fn example_deposit_dispute() {
    let c = ClientId(1);
    let out = process(
        &vec![
            Transaction::Deposit { client: c, tx: TransactionId(1), amount: amt(3) },
            Transaction::Dispute { client: c, tx: TransactionId(1) },
        ],
        1,
    );
    assert_eq!(
        out,
        vec![Output { client: c, available: amt(0), held: amt(3), total: 30_000, locked: false }]
    );
}

#[test]
fn example_chargeback_after_withdrawal() {
    let c = ClientId(1);
    let out = process(
        &vec![
            Transaction::Deposit { client: c, tx: TransactionId(1), amount: amt(3) },
            Transaction::Withdrawal { client: c, tx: TransactionId(2), amount: amt(2) },
            Transaction::Dispute { client: c, tx: TransactionId(1) },
            Transaction::ChargeBack { client: c, tx: TransactionId(1) },
        ],
        1,
    );
    assert_eq!(
        out,
        vec![Output { client: c, available: amt(-2), held: amt(0), total: -20_000, locked: true }]
    );
}

#[test]
fn example_withdrawal_from_empty_account() {
    let c = ClientId(1);
    let out = process(
        &vec![Transaction::Withdrawal { client: c, tx: TransactionId(1), amount: amt(2) }],
        1,
    );
    assert_eq!(
        out,
        vec![Output { client: c, available: amt(0), held: amt(0), total: 0, locked: false }]
    );
}

#[test]
fn no_transactions_no_outputs() {
    assert_eq!(process(&Vec::new(), 1), Vec::new());
    assert_eq!(process(&Vec::new(), 8), Vec::new());
}

#[test]
fn the_number_of_workers_does_not_change_the_outputs() {
    let txs = sample();
    let single = sorted(process(&txs, 1));
    assert_eq!(single.len(), 10);
    for workers in [2usize, 3, 4, 7, 10, 16, 1000] {
        assert_eq!(sorted(process(&txs, workers)), single);
    }
}

#[test]
fn every_output_totals_its_balances() {
    for o in process(&sample(), 3) {
        assert_eq!(o.total, o.available.0 as i128 + o.held.0 as i128);
    }
}

#[test]
fn a_locked_client_is_frozen_and_the_others_go_on() {
    let a = ClientId(1);
    let b = ClientId(2);
    let txs = vec![
        Transaction::Deposit { client: a, tx: TransactionId(1), amount: amt(3) },
        Transaction::Deposit { client: b, tx: TransactionId(2), amount: amt(5) },
        Transaction::Dispute { client: a, tx: TransactionId(1) },
        Transaction::ChargeBack { client: a, tx: TransactionId(1) },
        Transaction::Deposit { client: a, tx: TransactionId(3), amount: amt(9) },
        Transaction::Deposit { client: b, tx: TransactionId(4), amount: amt(1) },
    ];
    let expected = vec![
        Output { client: a, available: amt(0), held: amt(0), total: 0, locked: true },
        Output { client: b, available: amt(6), held: amt(0), total: 60_000, locked: false },
    ];
    assert_eq!(sorted(process(&txs, 1)), expected);
    assert_eq!(sorted(process(&txs, 2)), expected);
}

#[test]
fn a_dispute_reaches_only_the_deposits_of_its_own_client() {
    let txs = vec![
        Transaction::Deposit { client: ClientId(1), tx: TransactionId(1), amount: amt(3) },
        Transaction::Dispute { client: ClientId(2), tx: TransactionId(1) },
    ];
    let expected = vec![
        Output { client: ClientId(1), available: amt(3), held: amt(0), total: 30_000, locked: false },
        Output { client: ClientId(2), available: amt(0), held: amt(0), total: 0, locked: false },
    ];
    assert_eq!(sorted(process(&txs, 1)), expected);
    assert_eq!(sorted(process(&txs, 5)), expected);
}

#[test]
fn route_is_the_client_number_modulo_the_workers() {
    assert_eq!(route(ClientId(0), 1), 0);
    assert_eq!(route(ClientId(65535), 1), 0);
    assert_eq!(route(ClientId(7), 4), 3);
    assert_eq!(route(ClientId(8), 4), 0);
    assert_eq!(route(ClientId(65535), 65536), 65535);
    assert_eq!(route(ClientId(3), 1000), 3);
}

#[test]
fn run_replays_in_order_and_collects_the_diagnostics() {
    let c = ClientId(4);
    let mut tp = TransactionProcessor::new();
    let diags = tp.run(&vec![
        Transaction::Withdrawal { client: c, tx: TransactionId(1), amount: amt(1) },
        Transaction::Deposit { client: c, tx: TransactionId(2), amount: amt(2) },
        Transaction::Resolve { client: c, tx: TransactionId(2) },
        Transaction::Dispute { client: c, tx: TransactionId(2) },
        Transaction::ChargeBack { client: c, tx: TransactionId(2) },
        Transaction::Deposit { client: c, tx: TransactionId(3), amount: amt(2) },
    ]);
    assert_eq!(
        diags,
        vec![
            Diagnostic::InsufficientFunds {
                client: c,
                tx: TransactionId(1),
                amount: amt(1),
                available: amt(0)
            },
            Diagnostic::NotDisputed { client: c, tx: TransactionId(2) },
            Diagnostic::AccountLocked { client: c, tx: TransactionId(2) },
        ]
    );
    assert_eq!(
        tp.outputs(),
        vec![Output { client: c, available: amt(0), held: amt(0), total: 0, locked: true }]
    );
    let again = tp.run(&vec![Transaction::Deposit {
        client: c,
        tx: TransactionId(9),
        amount: amt(1),
    }]);
    assert_eq!(again, Vec::new());
    assert_eq!(
        tp.into_outputs(),
        vec![Output { client: c, available: amt(0), held: amt(0), total: 0, locked: true }]
    );
}

#[test]
fn process_creates_the_account_on_first_reference() {
    let mut tp = TransactionProcessor::new();
    assert_eq!(tp.outputs(), Vec::new());
    let d = tp.process(Transaction::Dispute { client: ClientId(9), tx: TransactionId(1) });
    assert_eq!(d, Some(Diagnostic::NoSuchDeposit { client: ClientId(9), tx: TransactionId(1) }));
    assert_eq!(
        tp.outputs(),
        vec![Output {
            client: ClientId(9),
            available: Amount(0),
            held: Amount(0),
            total: 0,
            locked: false
        }]
    );
    let o: Output = (ClientId(9), ledger_replay::client_state::ClientState::new()).into();
    assert_eq!(tp.outputs(), vec![o]);
}

#[test]
fn records_are_replayed_from_text() {
    let input = "type, client, tx, amount\n\
        deposit, 1, 1, 3.0\n\
        deposit, 2, 2, 2.5\n\
        withdrawal, 1, 3, 2\n\
        dispute, 1, 1,\n\
        chargeback, 1, 1\n\
        withdrawal, 2, 4, 3\n";
    let expected = vec![
        Output { client: ClientId(1), available: amt(-2), held: amt(0), total: -20_000, locked: true },
        Output {
            client: ClientId(2),
            available: Amount(25_000),
            held: amt(0),
            total: 25_000,
            locked: false,
        },
    ];
    assert_eq!(process_records(input, 1).map(sorted), Ok(expected.clone()));
    assert_eq!(process_records(input, 3).map(sorted), Ok(expected));
    assert_eq!(process_records("", 1), Ok(Vec::new()));
    assert_eq!(process_records("type, client, tx, amount", 2), Ok(Vec::new()));
}

#[test]
fn a_line_that_is_no_record_ends_the_run() {
    let input = "type, client, tx, amount\n\
        deposit, 1, 1, 3.0\n\
        deposit, 1, x, 3.0\n\
        deposit, 1, 2\n";
    assert_eq!(process_records(input, 1), Err(ParseError { field: Field::Tx, line: 2 }));
    assert_eq!(process_records(input, 4), Err(ParseError { field: Field::Tx, line: 2 }));
    assert_eq!(
        process_records("h\ndispute,1,1\n\n", 1),
        Err(ParseError { field: Field::Type, line: 2 })
    );
}
