//! Transactions whose every field is drawn at random.

use crate::generate::amount_below;
use crate::io::{Amount, ClientId, Transaction, TransactionId};
use crate::random::{draw_below, draw_u32};
use rand::rngs::ThreadRng;
use vstd::prelude::*;

verus! {

/// Amounts are drawn below this number of ten-thousandths: one whole unit.
pub const UNIT: u64 = 10_000;

/// The transaction of the kind that the draw `kind` stands for, of 5, with
/// the client, number and amount given. The amount is left out where the
/// kind has none.
pub open spec fn transaction_of(
    kind: u64,
    client: ClientId,
    tx: TransactionId,
    amount: Amount,
) -> Transaction {
    if kind == 0 {
        Transaction::Deposit { client, tx, amount }
    } else if kind == 1 {
        Transaction::Withdrawal { client, tx, amount }
    } else if kind == 2 {
        Transaction::Dispute { client, tx }
    } else if kind == 3 {
        Transaction::Resolve { client, tx }
    } else {
        Transaction::ChargeBack { client, tx }
    }
}

/// Returns the transaction of the kind that the draw `kind` stands for.
pub fn random_transaction(kind: u64, client: ClientId, tx: TransactionId, amount: Amount) -> (t:
    Transaction)
    requires
        kind < 5,
    ensures
        t == transaction_of(kind, client, tx, amount),
{
    if kind == 0 {
        Transaction::Deposit { client, tx, amount }
    } else if kind == 1 {
        Transaction::Withdrawal { client, tx, amount }
    } else if kind == 2 {
        Transaction::Dispute { client, tx }
    } else if kind == 3 {
        Transaction::Resolve { client, tx }
    } else {
        Transaction::ChargeBack { client, tx }
    }
}

/// Draws a transaction: each kind is as likely as the others, client and
/// number are any, and the amount is below one whole unit.
pub fn random_line(rng: &mut ThreadRng) -> (t: Transaction)
    ensures
        amount_below(t, UNIT as int),
{
    let kind = draw_below(rng, 5);
    let client = ClientId((draw_u32(rng) % 0x1_0000) as u16);
    let tx = TransactionId(draw_u32(rng));
    let amount = if kind < 2 {
        Amount(draw_below(rng, UNIT) as i64)
    } else {
        Amount(0)
    };
    random_transaction(kind, client, tx, amount)
}

/// Draws `lines` transactions.
pub fn generate_random(rng: &mut ThreadRng, lines: usize) -> (ts: Vec<Transaction>)
    ensures
        ts@.len() == lines,
        forall|i: int| 0 <= i < ts@.len() ==> amount_below(#[trigger] ts@[i], UNIT as int),
{
    let mut ts: Vec<Transaction> = Vec::new();
    let mut i: usize = 0;
    while i < lines
        invariant
            i <= lines,
            ts@.len() == i,
            forall|j: int| 0 <= j < ts@.len() ==> amount_below(#[trigger] ts@[j], UNIT as int),
        decreases lines - i,
    {
        ts.push(random_line(rng));
        i += 1;
    }
    ts
}

} // verus!
