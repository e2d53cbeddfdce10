//! Transactions that follow one another as those of real clients might:
//! deposits and withdrawals are numbered in order, and every dispute,
//! resolve and chargeback names a deposit that was made before it.

use crate::io::{Amount, ClientId, Transaction, TransactionId, TransactionType};
use crate::random::{draw_below, draw_ratio};
use rand::rngs::ThreadRng;
use vstd::prelude::*;

verus! {

/// Amounts are drawn below this number of ten-thousandths: a thousand
/// whole units.
pub const AMOUNT_LIMIT: u64 = 10_000_000;

/// Clients are numbered from 0 to this.
pub const LAST_CLIENT: usize = 0xffff;

/// Transactions are numbered from 0 to this.
pub const LAST_TX: u64 = 0xffff_ffff;

/// What a generator knows: the number of the next deposit or withdrawal,
/// the clients that exist, and the deposits made, each with its client.
#[verifier::ext_equal]
pub struct GeneratorModel {
    pub next_tx: nat,
    pub clients: Seq<ClientId>,
    pub deposits: Seq<(TransactionId, ClientId)>,
}

impl GeneratorModel {
    /// The clients are numbered in the order in which they were made, from
    /// 0, and at least the client 0 exists; every deposit is of a client
    /// that exists and has a number that was given out.
    pub open spec fn wf(self) -> bool {
        &&& 1 <= self.clients.len() <= LAST_CLIENT + 1
        &&& forall|i: int| 0 <= i < self.clients.len() ==> (#[trigger] self.clients[i]).0 == i
        &&& self.next_tx <= LAST_TX + 1
        &&& forall|j: int|
            0 <= j < self.deposits.len() ==> (#[trigger] self.deposits[j]).0.0 < self.next_tx
                && self.deposits[j].1.0 < self.clients.len()
    }

    /// `t` may follow on the state `self` and leaves the state `after`.
    ///
    /// A deposit or a withdrawal takes the next number and is of a client
    /// that exists; a deposit may be the first of a new client, and is put
    /// on record. A dispute, a resolve or a chargeback names a deposit on
    /// record together with its client, and changes nothing.
    pub open spec fn follows(self, t: Transaction, after: GeneratorModel) -> bool {
        match t {
            Transaction::Deposit { client, tx, amount } => {
                &&& tx.0 == self.next_tx
                &&& after.next_tx == self.next_tx + 1
                &&& 0 <= amount@ < AMOUNT_LIMIT
                &&& after.deposits == self.deposits.push((tx, client))
                &&& {
                    ||| after.clients == self.clients && client.0 < self.clients.len()
                    ||| after.clients == self.clients.push(client) && client.0
                        == self.clients.len()
                }
            },
            Transaction::Withdrawal { client, tx, amount } => {
                &&& tx.0 == self.next_tx
                &&& after.next_tx == self.next_tx + 1
                &&& 0 <= amount@ < AMOUNT_LIMIT
                &&& client.0 < self.clients.len()
                &&& after.deposits == self.deposits
                &&& after.clients == self.clients
            },
            Transaction::Dispute { client, tx } => after == self && self.deposits.contains(
                (tx, client),
            ),
            Transaction::Resolve { client, tx } => after == self && self.deposits.contains(
                (tx, client),
            ),
            Transaction::ChargeBack { client, tx } => after == self && self.deposits.contains(
                (tx, client),
            ),
        }
    }
}

/// The kind of transaction that the draw `d` stands for, of 100: about a
/// quarter each are deposits and withdrawals, a fifth disputes, most of the
/// rest resolves, and one in a hundred is a chargeback.
pub open spec fn kind_of_draw(d: u64) -> Option<TransactionType> {
    if d <= 25 {
        Some(TransactionType::Deposit)
    } else if d <= 50 {
        Some(TransactionType::Withdrawal)
    } else if d <= 70 {
        Some(TransactionType::Dispute)
    } else if d <= 98 {
        Some(TransactionType::Resolve)
    } else if d <= 100 {
        Some(TransactionType::ChargeBack)
    } else {
        None
    }
}

/// Returns the kind of transaction that the draw `d` stands for.
pub fn draw_kind(d: u64) -> (kind: Option<TransactionType>)
    ensures
        kind == kind_of_draw(d),
{
    if d <= 25 {
        Some(TransactionType::Deposit)
    } else if d <= 50 {
        Some(TransactionType::Withdrawal)
    } else if d <= 70 {
        Some(TransactionType::Dispute)
    } else if d <= 98 {
        Some(TransactionType::Resolve)
    } else if d <= 100 {
        Some(TransactionType::ChargeBack)
    } else {
        None
    }
}

/// What chance gives for one line: the draw of the kind, of 100; whether
/// a deposit is to be the first of a new client; the place of the client
/// or of the deposit that the line is about; and the amount, in
/// ten-thousandths. A line uses of them what its kind asks for.
#[derive(Debug, Clone, Copy, PartialEq, Eq, Structural)]
pub struct Draws {
    pub kind: u64,
    pub fresh: bool,
    pub pick: u64,
    pub amount: u64,
}

impl GeneratorModel {
    /// The state of a generator that has made nothing yet: the client 0
    /// exists, and the first transaction will have the number 0.
    pub open spec fn first() -> GeneratorModel {
        GeneratorModel { next_tx: 0, clients: seq![ClientId(0)], deposits: Seq::empty() }
    }

    /// The draws `d` are within their ranges: the kind is below 100, the
    /// amount below [`AMOUNT_LIMIT`], and the place is that of a client
    /// for a deposit or a withdrawal, and that of a deposit otherwise, if
    /// there is one.
    pub open spec fn admits(self, d: Draws) -> bool {
        &&& d.kind < 100
        &&& d.amount < AMOUNT_LIMIT
        &&& match kind_of_draw(d.kind) {
            Some(TransactionType::Deposit) => d.pick < self.clients.len(),
            Some(TransactionType::Withdrawal) => d.pick < self.clients.len(),
            _ => self.deposits.len() > 0 ==> d.pick < self.deposits.len(),
        }
    }

    /// The state after the line that the draws `d` give, and the
    /// transaction of that line.
    ///
    /// A deposit or a withdrawal takes the next number, if one is left, and
    /// the amount drawn. A deposit is of a new client where that is drawn
    /// and a client number is left, and of the client at the place drawn
    /// otherwise; it is put on record. A withdrawal is of the client at the
    /// place drawn. A dispute, a resolve or a chargeback names the deposit
    /// at the place drawn, with its client, if a deposit was made. In all
    /// other cases the line gives no transaction and changes nothing.
    pub open spec fn next(self, d: Draws) -> (GeneratorModel, Option<Transaction>) {
        let tx = TransactionId(self.next_tx as u32);
        let amount = Amount(d.amount as i64);
        match kind_of_draw(d.kind) {
            Some(TransactionType::Deposit) => {
                let fresh = d.fresh && self.clients.len() <= LAST_CLIENT;
                let client = if fresh {
                    ClientId(self.clients.len() as u16)
                } else {
                    self.clients[d.pick as int]
                };
                if self.next_tx > LAST_TX {
                    (self, None)
                } else {
                    (
                        GeneratorModel {
                            next_tx: self.next_tx + 1,
                            clients: if fresh {
                                self.clients.push(client)
                            } else {
                                self.clients
                            },
                            deposits: self.deposits.push((tx, client)),
                        },
                        Some(Transaction::Deposit { client, tx, amount }),
                    )
                }
            },
            Some(TransactionType::Withdrawal) => {
                if self.next_tx > LAST_TX {
                    (self, None)
                } else {
                    (
                        GeneratorModel { next_tx: self.next_tx + 1, ..self },
                        Some(
                            Transaction::Withdrawal {
                                client: self.clients[d.pick as int],
                                tx,
                                amount,
                            },
                        ),
                    )
                }
            },
            Some(kind) => {
                let (tx, client) = self.deposits[d.pick as int];
                if self.deposits.len() == 0 {
                    (self, None)
                } else if kind == TransactionType::Dispute {
                    (self, Some(Transaction::Dispute { client, tx }))
                } else if kind == TransactionType::Resolve {
                    (self, Some(Transaction::Resolve { client, tx }))
                } else {
                    (self, Some(Transaction::ChargeBack { client, tx }))
                }
            },
            None => (self, None),
        }
    }
}

/// What a line gives follows on the state before it: the state stays well
/// formed, a transaction is one that may follow, and there is none only
/// where all numbers are taken or no deposit was made yet.
pub proof fn lemma_next_follows(s: GeneratorModel, d: Draws)
    requires
        s.wf(),
        s.admits(d),
    ensures
        s.next(d).0.wf(),
        match s.next(d).1 {
            Some(t) => s.follows(t, s.next(d).0),
            None => s.next(d).0 == s && (s.next_tx > LAST_TX || s.deposits.len() == 0),
        },
{
    let after = s.next(d).0;
    assert forall|i: int| 0 <= i < after.clients.len() implies (#[trigger] after.clients[i]).0
        == i by {
        if i < s.clients.len() {
            assert(after.clients[i] == s.clients[i]);
        }
    }
    assert forall|j: int| 0 <= j < after.deposits.len() implies (#[trigger] after.deposits[j]).0.0
        < after.next_tx && after.deposits[j].1.0 < after.clients.len() by {
        if j < s.deposits.len() {
            assert(after.deposits[j] == s.deposits[j]);
        } else {
            assert(s.clients[d.pick as int].0 == d.pick);
        }
    }
    if s.next(d).1 is Some && refers(s.next(d).1->Some_0) {
        assert(s.deposits[d.pick as int] == (
            s.next(d).1->Some_0.tx(),
            s.next(d).1->Some_0.client(),
        ));
    }
    if s.next(d).1 is Some && numbered(s.next(d).1->Some_0) {
        assert(s.clients[d.pick as int].0 == d.pick);
    }
}

/// The state that the lines of the draws `ds` lead to from the first state
/// of a generator, and the transactions of those lines, in order.
pub open spec fn run(ds: Seq<Draws>) -> (GeneratorModel, Seq<Transaction>)
    decreases ds.len(),
{
    if ds.len() == 0 {
        (GeneratorModel::first(), Seq::empty())
    } else {
        let (state, ts) = run(ds.drop_last());
        let (after, t) = state.next(ds.last());
        (
            after,
            match t {
                Some(t) => ts.push(t),
                None => ts,
            },
        )
    }
}

/// Each of the draws `ds` is within its ranges in the state that the draws
/// before it lead to.
pub open spec fn admitted(ds: Seq<Draws>) -> bool
    decreases ds.len(),
{
    ds.len() == 0 || (admitted(ds.drop_last()) && run(ds.drop_last()).0.admits(ds.last()))
}

/// Generates transactions one by one.
pub struct Generator {
    next_tx: u64,
    clients: Vec<ClientId>,
    deposits: Vec<(TransactionId, ClientId)>,
}

impl View for Generator {
    type V = GeneratorModel;

    closed spec fn view(&self) -> GeneratorModel {
        GeneratorModel {
            next_tx: self.next_tx as nat,
            clients: self.clients@,
            deposits: self.deposits@,
        }
    }
}

impl Generator {
    /// Returns a generator that has made nothing yet: the client 0 exists,
    /// and the first transaction will have the number 0.
    pub fn new() -> (g: Generator)
        ensures
            g@.wf(),
            g@ == GeneratorModel::first(),
    {
        let mut clients: Vec<ClientId> = Vec::new();
        clients.push(ClientId(0));
        let g = Generator { next_tx: 0, clients, deposits: Vec::new() };
        assert(g@ =~= GeneratorModel::first());
        g
    }

    /// Whether a deposit or a withdrawal can still be given a number.
    pub fn has_tx_left(&self) -> (b: bool)
        ensures
            b == (self@.next_tx <= LAST_TX),
    {
        self.next_tx <= LAST_TX
    }

    /// The number of clients that exist.
    pub fn client_count(&self) -> (n: usize)
        ensures
            n == self@.clients.len(),
    {
        self.clients.len()
    }

    /// The number of deposits on record.
    pub fn deposit_count(&self) -> (n: usize)
        ensures
            n == self@.deposits.len(),
    {
        self.deposits.len()
    }

    /// Makes a new client, with the next number, unless all numbers are
    /// taken.
    pub fn add_client(&mut self) -> (client: Option<ClientId>)
        requires
            old(self)@.wf(),
        ensures
            final(self)@.wf(),
            final(self)@.next_tx == old(self)@.next_tx,
            final(self)@.deposits == old(self)@.deposits,
            match client {
                Some(c) => c.0 == old(self)@.clients.len() && final(self)@.clients == old(
                    self,
                )@.clients.push(c),
                None => old(self)@.clients.len() == LAST_CLIENT + 1 && final(self)@.clients == old(
                    self,
                )@.clients,
            },
    {
        if self.clients.len() > LAST_CLIENT {
            return None;
        }
        let client = ClientId(self.clients.len() as u16);
        self.clients.push(client);
        proof {
            let before = old(self)@;
            let after = self@;
            assert forall|i: int| 0 <= i < after.clients.len() implies (
            #[trigger] after.clients[i]).0 == i by {
                if i < before.clients.len() {
                    assert(after.clients[i] == before.clients[i]);
                }
            }
            assert forall|j: int| 0 <= j < after.deposits.len() implies (
            #[trigger] after.deposits[j]).0.0 < after.next_tx && after.deposits[j].1.0
                < after.clients.len() by {
                assert(after.deposits[j] == before.deposits[j]);
            }
        }
        Some(client)
    }

    /// The client at `pick`, in the order in which the clients were made.
    pub fn client_at(&self, pick: usize) -> (client: ClientId)
        requires
            pick < self@.clients.len(),
        ensures
            client == self@.clients[pick as int],
    {
        self.clients[pick]
    }

    /// The deposit at `pick`, in the order in which the deposits were made,
    /// with its client.
    pub fn deposit_at(&self, pick: usize) -> (deposit: (TransactionId, ClientId))
        requires
            pick < self@.deposits.len(),
        ensures
            deposit == self@.deposits[pick as int],
    {
        self.deposits[pick]
    }

    /// Makes a deposit of `amount` for `client`, with the next number, and
    /// puts it on record.
    pub fn deposit(&mut self, client: ClientId, amount: Amount) -> (t: Transaction)
        requires
            old(self)@.wf(),
            old(self)@.next_tx <= LAST_TX,
            client.0 < old(self)@.clients.len(),
        ensures
            final(self)@.wf(),
            t == (Transaction::Deposit {
                client,
                tx: TransactionId(old(self)@.next_tx as u32),
                amount,
            }),
            final(self)@.next_tx == old(self)@.next_tx + 1,
            final(self)@.clients == old(self)@.clients,
            final(self)@.deposits == old(self)@.deposits.push(
                (TransactionId(old(self)@.next_tx as u32), client),
            ),
    {
        let tx = TransactionId(self.next_tx as u32);
        self.next_tx = self.next_tx + 1;
        self.deposits.push((tx, client));
        proof {
            let before = old(self)@;
            let after = self@;
            assert forall|j: int| 0 <= j < after.deposits.len() implies (
            #[trigger] after.deposits[j]).0.0 < after.next_tx && after.deposits[j].1.0
                < after.clients.len() by {
                if j < before.deposits.len() {
                    assert(after.deposits[j] == before.deposits[j]);
                }
            }
        }
        Transaction::Deposit { client, tx, amount }
    }

    /// Makes a withdrawal of `amount` for `client`, with the next number.
    pub fn withdrawal(&mut self, client: ClientId, amount: Amount) -> (t: Transaction)
        requires
            old(self)@.wf(),
            old(self)@.next_tx <= LAST_TX,
        ensures
            final(self)@.wf(),
            t == (Transaction::Withdrawal {
                client,
                tx: TransactionId(old(self)@.next_tx as u32),
                amount,
            }),
            final(self)@.next_tx == old(self)@.next_tx + 1,
            final(self)@.clients == old(self)@.clients,
            final(self)@.deposits == old(self)@.deposits,
    {
        let tx = TransactionId(self.next_tx as u32);
        self.next_tx = self.next_tx + 1;
        proof {
            let before = old(self)@;
            let after = self@;
            assert forall|j: int| 0 <= j < after.deposits.len() implies (
            #[trigger] after.deposits[j]).0.0 < after.next_tx && after.deposits[j].1.0
                < after.clients.len() by {
                assert(after.deposits[j] == before.deposits[j]);
            }
        }
        Transaction::Withdrawal { client, tx, amount }
    }

    /// Makes the line that the draws `d` give: the transaction of
    /// [`GeneratorModel::next`], if there is one.
    pub fn next(&mut self, d: Draws) -> (t: Option<Transaction>)
        requires
            old(self)@.wf(),
            old(self)@.admits(d),
        ensures
            final(self)@.wf(),
            final(self)@ == old(self)@.next(d).0,
            t == old(self)@.next(d).1,
    {
        proof {
            lemma_next_follows(self@, d);
        }
        let kind = match draw_kind(d.kind) {
            Some(kind) => kind,
            None => {
                return None;
            },
        };
        match kind {
            TransactionType::Deposit => {
                if !self.has_tx_left() {
                    return None;
                }
                let fresh = if d.fresh {
                    self.add_client()
                } else {
                    None
                };
                let client = match fresh {
                    Some(client) => client,
                    None => self.client_at(d.pick as usize),
                };
                Some(self.deposit(client, Amount(d.amount as i64)))
            },
            TransactionType::Withdrawal => {
                if !self.has_tx_left() {
                    return None;
                }
                let client = self.client_at(d.pick as usize);
                Some(self.withdrawal(client, Amount(d.amount as i64)))
            },
            TransactionType::Dispute => {
                if self.deposits.len() == 0 {
                    return None;
                }
                let (tx, client) = self.deposit_at(d.pick as usize);
                Some(Transaction::Dispute { client, tx })
            },
            TransactionType::Resolve => {
                if self.deposits.len() == 0 {
                    return None;
                }
                let (tx, client) = self.deposit_at(d.pick as usize);
                Some(Transaction::Resolve { client, tx })
            },
            TransactionType::ChargeBack => {
                if self.deposits.len() == 0 {
                    return None;
                }
                let (tx, client) = self.deposit_at(d.pick as usize);
                Some(Transaction::ChargeBack { client, tx })
            },
        }
    }

    /// Draws the next line: the kind, and of the other draws those that a
    /// line of that kind uses in this state. The line is that of
    /// [`Generator::next`] for what was drawn. There is no transaction
    /// where the draw asks for a deposit or a withdrawal and all numbers
    /// are taken, or for a dispute, a resolve or a chargeback and no
    /// deposit was made yet.
    pub fn line(&mut self, rng: &mut ThreadRng) -> (t: Option<Transaction>)
        requires
            old(self)@.wf(),
        ensures
            final(self)@.wf(),
            exists|d: Draws| #[trigger]
                old(self)@.admits(d) && final(self)@ == old(self)@.next(d).0 && t == old(
                    self,
                )@.next(d).1,
            match t {
                Some(t) => old(self)@.follows(t, final(self)@),
                None => final(self)@ == old(self)@ && (old(self)@.next_tx > LAST_TX || old(
                    self,
                )@.deposits.len() == 0),
            },
    {
        let kind = draw_below(rng, 100);
        let mut fresh = false;
        let mut pick: u64 = 0;
        let mut amount: u64 = 0;
        match draw_kind(kind) {
            Some(TransactionType::Deposit) => {
                if self.has_tx_left() {
                    fresh = draw_ratio(rng, 1, 5);
                    if !(fresh && self.clients.len() <= LAST_CLIENT) {
                        pick = draw_below(rng, self.clients.len() as u64);
                    }
                    amount = draw_below(rng, AMOUNT_LIMIT);
                }
            },
            Some(TransactionType::Withdrawal) => {
                if self.has_tx_left() {
                    pick = draw_below(rng, self.clients.len() as u64);
                    amount = draw_below(rng, AMOUNT_LIMIT);
                }
            },
            _ => {
                if self.deposits.len() > 0 {
                    pick = draw_below(rng, self.deposits.len() as u64);
                }
            },
        }
        let d = Draws { kind, fresh, pick, amount };
        proof {
            lemma_next_follows(self@, d);
        }
        let t = self.next(d);
        assert(old(self)@.admits(d) && self@ == old(self)@.next(d).0 && t == old(self)@.next(d).1);
        t
    }
}

/// `t` names a deposit that must have been made before it.
pub open spec fn refers(t: Transaction) -> bool {
    t is Dispute || t is Resolve || t is ChargeBack
}

/// `t` has a number of its own.
pub open spec fn numbered(t: Transaction) -> bool {
    t is Deposit || t is Withdrawal
}

/// The amount of `t`, if it carries one, is not negative and below
/// `limit` ten-thousandths.
pub open spec fn amount_below(t: Transaction, limit: int) -> bool {
    match t {
        Transaction::Deposit { amount, .. } => 0 <= amount@ < limit,
        Transaction::Withdrawal { amount, .. } => 0 <= amount@ < limit,
        _ => true,
    }
}

/// The transactions `ts` hang together: the numbers of the deposits and
/// withdrawals rise, every dispute, resolve and chargeback names an earlier
/// deposit and its client, and the amounts are below [`AMOUNT_LIMIT`].
pub open spec fn coherent(ts: Seq<Transaction>) -> bool {
    &&& forall|i: int, j: int|
        0 <= i < j < ts.len() && numbered(#[trigger] ts[i]) && numbered(#[trigger] ts[j])
            ==> ts[i].tx().0 < ts[j].tx().0
    &&& forall|i: int|
        0 <= i < ts.len() && refers(#[trigger] ts[i]) ==> exists|j: int|
            0 <= j < i && (#[trigger] ts[j]) is Deposit && ts[j].tx() == ts[i].tx()
                && ts[j].client() == ts[i].client()
    &&& forall|i: int| 0 <= i < ts.len() ==> amount_below(#[trigger] ts[i], AMOUNT_LIMIT as int)
}

/// `ts` is what brought a generator from its first state to `g`: the
/// numbers given out are below the next, and the deposits on record are
/// those of `ts`.
spec fn made(g: GeneratorModel, ts: Seq<Transaction>) -> bool {
    &&& forall|i: int| 0 <= i < ts.len() && numbered(#[trigger] ts[i]) ==> ts[i].tx().0 < g.next_tx
    &&& forall|k: int|
        0 <= k < g.deposits.len() ==> exists|j: int|
            0 <= j < ts.len() && (#[trigger] ts[j]) is Deposit && ts[j].tx() == (
            #[trigger] g.deposits[k]).0 && ts[j].client() == g.deposits[k].1
}

/// One more transaction that follows keeps the transactions coherent.
proof fn lemma_line_keeps_coherent(
    before: GeneratorModel,
    after: GeneratorModel,
    ts: Seq<Transaction>,
    t: Transaction,
)
    requires
        coherent(ts),
        made(before, ts),
        before.follows(t, after),
    ensures
        coherent(ts.push(t)),
        made(after, ts.push(t)),
{
    let next = ts.push(t);
    let n = ts.len() as int;
    assert forall|i: int| 0 <= i < n implies #[trigger] next[i] == ts[i] by {}
    assert(next[n] == t);
    assert forall|i: int| 0 <= i < next.len() && refers(#[trigger] next[i]) implies exists|j: int|
        0 <= j < i && (#[trigger] next[j]) is Deposit && next[j].tx() == next[i].tx()
            && next[j].client() == next[i].client() by {
        if i < n {
            let j = choose|j: int|
                0 <= j < i && (#[trigger] ts[j]) is Deposit && ts[j].tx() == ts[i].tx()
                    && ts[j].client() == ts[i].client();
            assert(next[j] == ts[j]);
        } else {
            let k = choose|k: int|
                0 <= k < before.deposits.len() && before.deposits[k] == (t.tx(), t.client());
            let j = choose|j: int|
                0 <= j < ts.len() && (#[trigger] ts[j]) is Deposit && ts[j].tx()
                    == before.deposits[k].0 && ts[j].client() == before.deposits[k].1;
            assert(next[j] == ts[j]);
        }
    }
    assert forall|k: int| 0 <= k < after.deposits.len() implies exists|j: int|
        0 <= j < next.len() && (#[trigger] next[j]) is Deposit && next[j].tx() == (
        #[trigger] after.deposits[k]).0 && next[j].client() == after.deposits[k].1 by {
        if k < before.deposits.len() {
            assert(after.deposits[k] == before.deposits[k]);
            let j = choose|j: int|
                0 <= j < ts.len() && (#[trigger] ts[j]) is Deposit && ts[j].tx()
                    == before.deposits[k].0 && ts[j].client() == before.deposits[k].1;
            assert(next[j] == ts[j]);
        } else {
            assert(next[n] is Deposit);
        }
    }
}

/// Draws `lines` lines and returns their transactions, in order. A line
/// that gives no transaction is passed over.
///
/// The result is what [`run`] makes of the draws of the lines, each of
/// them within its ranges.
pub fn generate(rng: &mut ThreadRng, lines: usize) -> (ts: Vec<Transaction>)
    ensures
        exists|ds: Seq<Draws>| ds.len() == lines && #[trigger] admitted(ds) && run(ds).1 == ts@,
        ts@.len() <= lines,
        coherent(ts@),
{
    let mut generator = Generator::new();
    let mut ts: Vec<Transaction> = Vec::new();
    let ghost mut ds: Seq<Draws> = Seq::empty();
    let mut i: usize = 0;
    while i < lines
        invariant
            i <= lines,
            ds.len() == i,
            admitted(ds),
            run(ds) == (generator@, ts@),
            ts@.len() <= i,
            generator@.wf(),
            coherent(ts@),
            made(generator@, ts@),
        decreases lines - i,
    {
        let ghost before = generator@;
        let ghost earlier = ts@;
        let t = generator.line(rng);
        proof {
            let d = choose|d: Draws| #[trigger]
                before.admits(d) && generator@ == before.next(d).0 && t == before.next(d).1;
            assert(ds.push(d).drop_last() =~= ds);
            ds = ds.push(d);
        }
        match t {
            Some(t) => {
                proof {
                    lemma_line_keeps_coherent(before, generator@, earlier, t);
                }
                ts.push(t);
            },
            None => {},
        }
        i += 1;
    }
    ts
}

} // verus!
