use ledger_replay::generate::{draw_kind, generate, Draws, Generator};
use ledger_replay::generate_random::{generate_random, random_line, random_transaction};
use ledger_replay::io::{parse_line, Amount, ClientId, Transaction, TransactionId, TransactionType};
use ledger_replay::transaction_processor::process;

#[test]
fn draws_stand_for_kinds_in_the_shares_given() {
    let mut counts = [0usize; 5];
    for d in 0..100u64 {
        counts[match draw_kind(d).unwrap() {
            TransactionType::Deposit => 0,
            TransactionType::Withdrawal => 1,
            TransactionType::Dispute => 2,
            TransactionType::Resolve => 3,
            TransactionType::ChargeBack => 4,
        }] += 1;
    }
    assert_eq!(counts, [26, 25, 20, 28, 1]);
    assert_eq!(draw_kind(0), Some(TransactionType::Deposit));
    assert_eq!(draw_kind(25), Some(TransactionType::Deposit));
    assert_eq!(draw_kind(26), Some(TransactionType::Withdrawal));
    assert_eq!(draw_kind(50), Some(TransactionType::Withdrawal));
    assert_eq!(draw_kind(51), Some(TransactionType::Dispute));
    assert_eq!(draw_kind(70), Some(TransactionType::Dispute));
    assert_eq!(draw_kind(71), Some(TransactionType::Resolve));
    assert_eq!(draw_kind(98), Some(TransactionType::Resolve));
    assert_eq!(draw_kind(99), Some(TransactionType::ChargeBack));
    assert_eq!(draw_kind(100), Some(TransactionType::ChargeBack));
    assert_eq!(draw_kind(101), None);
    assert_eq!(draw_kind(u64::MAX), None);
}

#[test]
fn a_generator_numbers_deposits_withdrawals_and_clients_in_order() {
    let mut g = Generator::new();
    assert!(g.has_tx_left());
    assert_eq!(g.client_count(), 1);
    assert_eq!(g.deposit_count(), 0);
    assert_eq!(g.client_at(0), ClientId(0));
    assert_eq!(
        g.deposit(ClientId(0), Amount(5)),
        Transaction::Deposit { client: ClientId(0), tx: TransactionId(0), amount: Amount(5) }
    );
    assert_eq!(g.add_client(), Some(ClientId(1)));
    assert_eq!(g.add_client(), Some(ClientId(2)));
    assert_eq!(g.client_count(), 3);
    assert_eq!(g.client_at(2), ClientId(2));
    assert_eq!(
        g.withdrawal(ClientId(2), Amount(7)),
        Transaction::Withdrawal { client: ClientId(2), tx: TransactionId(1), amount: Amount(7) }
    );
    assert_eq!(
        g.deposit(ClientId(1), Amount(9)),
        Transaction::Deposit { client: ClientId(1), tx: TransactionId(2), amount: Amount(9) }
    );
    assert_eq!(g.deposit_count(), 2);
    assert_eq!(g.deposit_at(0), (TransactionId(0), ClientId(0)));
    assert_eq!(g.deposit_at(1), (TransactionId(2), ClientId(1)));
}

#[test]
fn a_generator_makes_no_more_clients_than_there_are_numbers() {
    let mut g = Generator::new();
    for n in 1..=65535u16 {
        assert_eq!(g.add_client(), Some(ClientId(n)));
    }
    assert_eq!(g.client_count(), 65536);
    assert_eq!(g.add_client(), None);
    assert_eq!(g.client_count(), 65536);
    assert_eq!(g.client_at(65535), ClientId(65535));
}

#[test]
fn generated_transactions_hang_together() {
    let mut rng = rand::thread_rng();
    let ts = generate(&mut rng, 20_000);
    assert!(ts.len() <= 20_000);
    assert!(ts.len() > 10_000);
    let mut next = 0u32;
    let mut deposits = std::collections::HashSet::new();
    let mut clients = 1u32;
    for t in &ts {
        match *t {
            Transaction::Deposit { client, tx, amount } => {
                assert_eq!(tx.0, next);
                next += 1;
                assert!(client.0 as u32 <= clients);
                if client.0 as u32 == clients {
                    clients += 1;
                }
                assert!(0 <= amount.0 && amount.0 < 10_000_000);
                deposits.insert((tx, client));
            }
            Transaction::Withdrawal { client, tx, amount } => {
                assert_eq!(tx.0, next);
                next += 1;
                assert!((client.0 as u32) < clients);
                assert!(0 <= amount.0 && amount.0 < 10_000_000);
            }
            Transaction::Dispute { client, tx }
            | Transaction::Resolve { client, tx }
            | Transaction::ChargeBack { client, tx } => {
                assert!(deposits.contains(&(tx, client)));
            }
        }
    }
    // What is generated can be written, read back and replayed.
    for (i, t) in ts.iter().enumerate() {
        assert_eq!(parse_line(&t.to_csv(), i), Ok(*t));
    }
    let mut one = process(&ts, 1);
    let mut four = process(&ts, 4);
    one.sort_by_key(|o| o.client);
    four.sort_by_key(|o| o.client);
    assert_eq!(one, four);
    assert_eq!(one.len() as u32, clients);
}

#[test]
fn the_generator_draws_line_by_line() {
    let mut rng = rand::thread_rng();
    let mut g = Generator::new();
    let mut made = 0;
    for _ in 0..2_000 {
        let clients = g.client_count();
        let deposits = g.deposit_count();
        match g.line(&mut rng) {
            Some(Transaction::Deposit { client, .. }) => {
                made += 1;
                assert_eq!(g.deposit_count(), deposits + 1);
                assert!(g.client_count() == clients || g.client_count() == clients + 1);
                assert!((client.0 as usize) < g.client_count());
            }
            Some(_) => {
                made += 1;
                assert_eq!(g.deposit_count(), deposits);
                assert_eq!(g.client_count(), clients);
            }
            None => {
                assert_eq!(g.deposit_count(), 0);
                assert_eq!(g.client_count(), clients);
            }
        }
    }
    assert!(made > 1_900);
    assert!(g.client_count() > 1);
}

#[test]
fn random_transactions_take_what_they_are_given() {
    let c = ClientId(3);
    let tx = TransactionId(4);
    let a = Amount(5);
    assert_eq!(random_transaction(0, c, tx, a), Transaction::Deposit { client: c, tx, amount: a });
    assert_eq!(
        random_transaction(1, c, tx, a),
        Transaction::Withdrawal { client: c, tx, amount: a }
    );
    assert_eq!(random_transaction(2, c, tx, a), Transaction::Dispute { client: c, tx });
    assert_eq!(random_transaction(3, c, tx, a), Transaction::Resolve { client: c, tx });
    assert_eq!(random_transaction(4, c, tx, a), Transaction::ChargeBack { client: c, tx });
}

#[test]
fn random_lines_are_of_every_kind_with_amounts_below_one() {
    let mut rng = rand::thread_rng();
    let ts = generate_random(&mut rng, 5_000);
    assert_eq!(ts.len(), 5_000);
    let mut seen = [false; 5];
    let mut clients = std::collections::HashSet::new();
    for t in &ts {
        clients.insert(t.client());
        match *t {
            Transaction::Deposit { amount, .. } => {
                seen[0] = true;
                assert!(0 <= amount.0 && amount.0 < 10_000);
            }
            Transaction::Withdrawal { amount, .. } => {
                seen[1] = true;
                assert!(0 <= amount.0 && amount.0 < 10_000);
            }
            Transaction::Dispute { .. } => seen[2] = true,
            Transaction::Resolve { .. } => seen[3] = true,
            Transaction::ChargeBack { .. } => seen[4] = true,
        }
    }
    assert_eq!(seen, [true; 5]);
    assert!(clients.len() > 1_000);
    assert_eq!(generate_random(&mut rng, 0), Vec::new());
    let t = random_line(&mut rng);
    assert_eq!(parse_line(&t.to_csv(), 0), Ok(t));
}

#[test]
fn a_line_is_what_its_draws_give() {
    let mut g = Generator::new();
    // No deposit was made yet: nothing can be disputed, resolved or charged back.
    assert_eq!(g.next(Draws { kind: 51, fresh: false, pick: 0, amount: 0 }), None);
    assert_eq!(g.next(Draws { kind: 71, fresh: true, pick: 0, amount: 9 }), None);
    assert_eq!(g.next(Draws { kind: 99, fresh: false, pick: 0, amount: 0 }), None);
    assert_eq!(g.deposit_count(), 0);
    assert_eq!(g.client_count(), 1);
    // A deposit of the client at the place drawn.
    assert_eq!(
        g.next(Draws { kind: 0, fresh: false, pick: 0, amount: 5 }),
        Some(Transaction::Deposit { client: ClientId(0), tx: TransactionId(0), amount: Amount(5) })
    );
    // A deposit of a new client: the place drawn is not used.
    assert_eq!(
        g.next(Draws { kind: 25, fresh: true, pick: 0, amount: 7 }),
        Some(Transaction::Deposit { client: ClientId(1), tx: TransactionId(1), amount: Amount(7) })
    );
    assert_eq!(g.client_count(), 2);
    assert_eq!(g.deposit_count(), 2);
    // A withdrawal takes the next number and makes no client.
    assert_eq!(
        g.next(Draws { kind: 26, fresh: true, pick: 1, amount: 3 }),
        Some(Transaction::Withdrawal {
            client: ClientId(1),
            tx: TransactionId(2),
            amount: Amount(3)
        })
    );
    assert_eq!(g.client_count(), 2);
    assert_eq!(g.deposit_count(), 2);
    assert_eq!(
        g.next(Draws { kind: 50, fresh: false, pick: 0, amount: 9_999_999 }),
        Some(Transaction::Withdrawal {
            client: ClientId(0),
            tx: TransactionId(3),
            amount: Amount(9_999_999)
        })
    );
    // The others name the deposit at the place drawn, with its client.
    assert_eq!(
        g.next(Draws { kind: 51, fresh: false, pick: 1, amount: 0 }),
        Some(Transaction::Dispute { client: ClientId(1), tx: TransactionId(1) })
    );
    assert_eq!(
        g.next(Draws { kind: 70, fresh: false, pick: 0, amount: 0 }),
        Some(Transaction::Dispute { client: ClientId(0), tx: TransactionId(0) })
    );
    assert_eq!(
        g.next(Draws { kind: 71, fresh: false, pick: 1, amount: 0 }),
        Some(Transaction::Resolve { client: ClientId(1), tx: TransactionId(1) })
    );
    assert_eq!(
        g.next(Draws { kind: 98, fresh: false, pick: 0, amount: 0 }),
        Some(Transaction::Resolve { client: ClientId(0), tx: TransactionId(0) })
    );
    assert_eq!(
        g.next(Draws { kind: 99, fresh: false, pick: 1, amount: 0 }),
        Some(Transaction::ChargeBack { client: ClientId(1), tx: TransactionId(1) })
    );
    assert_eq!(g.client_count(), 2);
    assert_eq!(g.deposit_count(), 2);
    // The next deposit goes on with the numbers.
    assert_eq!(
        g.next(Draws { kind: 1, fresh: false, pick: 1, amount: 0 }),
        Some(Transaction::Deposit { client: ClientId(1), tx: TransactionId(4), amount: Amount(0) })
    );
    assert_eq!(g.deposit_at(2), (TransactionId(4), ClientId(1)));
}

#[test]
fn a_deposit_is_of_a_known_client_when_no_client_number_is_left() {
    let mut g = Generator::new();
    for _ in 1..=65535u32 {
        g.add_client();
    }
    assert_eq!(g.client_count(), 65536);
    assert_eq!(
        g.next(Draws { kind: 0, fresh: true, pick: 65535, amount: 1 }),
        Some(Transaction::Deposit {
            client: ClientId(65535),
            tx: TransactionId(0),
            amount: Amount(1)
        })
    );
    assert_eq!(g.client_count(), 65536);
}

#[test]
fn generate_draws_as_many_lines_as_it_is_asked_for() {
    let mut rng = rand::thread_rng();
    assert_eq!(generate(&mut rng, 0), Vec::new());
    // The first line gives a transaction just where it is a deposit or a withdrawal.
    let mut some = 0;
    let mut none = 0;
    for _ in 0..400 {
        let ts = generate(&mut rng, 1);
        match ts.as_slice() {
            [] => none += 1,
            [Transaction::Deposit { client, tx, .. }] => {
                some += 1;
                assert!(client.0 <= 1);
                assert_eq!(*tx, TransactionId(0));
            }
            [Transaction::Withdrawal { client, tx, .. }] => {
                some += 1;
                assert_eq!(*client, ClientId(0));
                assert_eq!(*tx, TransactionId(0));
            }
            other => panic!("no first line: {:?}", other),
        }
    }
    assert!(some > 100);
    assert!(none > 100);
}
