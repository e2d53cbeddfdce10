//! The account of one client: balances, the lock flag and the deposits on
//! record, with the transition that each transaction causes.

use crate::fx::{fx_get, fx_get_mut, fx_insert, fx_len};
use crate::io::{Amount, ClientId, Output, Transaction, TransactionId};
use rustc_hash::FxHashMap;
use vstd::prelude::*;

verus! {

/// The states that a deposit can be in.
#[derive(Debug, PartialEq, Eq, Structural, Clone, Copy)]
pub enum DepositStateType {
    Normal,
    Disputed,
    ChargedBack,
}

/// What an account remembers of one deposit.
#[derive(Debug, PartialEq, Eq, Structural, Clone, Copy)]
pub struct DepositState {
    pub ty: DepositStateType,
    pub amount: Amount,
}

impl DepositState {
    /// Returns a record of `amount` in the state [`DepositStateType::Normal`].
    pub fn new(amount: Amount) -> (d: DepositState)
        ensures
            d == (DepositState { ty: DepositStateType::Normal, amount }),
    {
        DepositState { ty: DepositStateType::Normal, amount }
    }
}

/// Why a transaction changed nothing, or what it did beyond the balances.
/// A diagnostic is advisory: it never alters what is done next.
#[derive(Debug, PartialEq, Eq, Structural, Clone, Copy)]
pub enum Diagnostic {
    /// A withdrawal of `amount` would have left less than nothing of `available`.
    InsufficientFunds { client: ClientId, tx: TransactionId, amount: Amount, available: Amount },
    /// No deposit is on record under `tx`.
    NoSuchDeposit { client: ClientId, tx: TransactionId },
    /// A dispute named a deposit that is disputed or charged back.
    AlreadyDisputed { client: ClientId, tx: TransactionId },
    /// A resolve or a chargeback named a deposit that is not disputed.
    NotDisputed { client: ClientId, tx: TransactionId },
    /// A chargeback went through and locked the account.
    AccountLocked { client: ClientId, tx: TransactionId },
    /// A balance would have left the range of an [`Amount`].
    BalanceOverflow { client: ClientId, tx: TransactionId },
}

/// The mathematical account: balances are unbounded integers, in
/// [`Amount`] units, and the deposits are keyed by transaction number.
#[verifier::ext_equal]
pub struct AccountModel {
    pub available: int,
    pub held: int,
    pub locked: bool,
    pub deposits: Map<u32, DepositState>,
}

impl AccountModel {
    /// The account of a client that no transaction has named yet.
    pub open spec fn empty() -> AccountModel {
        AccountModel { available: 0, held: 0, locked: false, deposits: Map::empty() }
    }

    /// The funds of the account, available or held.
    pub open spec fn total(self) -> int {
        self.available + self.held
    }

    /// Both balances fit an [`Amount`].
    pub open spec fn representable(self) -> bool {
        &&& i64::MIN <= self.available <= i64::MAX
        &&& i64::MIN <= self.held <= i64::MAX
    }

    /// The deposit on record under `tx` is in the state `ty`.
    pub open spec fn deposit_is(self, tx: TransactionId, ty: DepositStateType) -> bool {
        self.deposits.contains_key(tx.0) && self.deposits[tx.0].ty == ty
    }

    /// The account with the deposit under `tx` moved to the state `ty`.
    pub open spec fn with_deposit_state(
        self,
        tx: TransactionId,
        ty: DepositStateType,
    ) -> AccountModel {
        AccountModel {
            deposits: self.deposits.insert(
                tx.0,
                DepositState { ty, amount: self.deposits[tx.0].amount },
            ),
            ..self
        }
    }

    /// The account after `t`, and the diagnostic that `t` gives rise to.
    ///
    /// A locked account accepts nothing. A withdrawal that would leave less
    /// than nothing available, and any dispute, resolve or chargeback that
    /// names no deposit or one in the wrong state, changes nothing.
    pub open spec fn apply(self, t: Transaction) -> (AccountModel, Option<Diagnostic>) {
        if self.locked {
            (self, None)
        } else {
            match t {
                Transaction::Deposit { client, tx, amount } => (
                    AccountModel {
                        available: self.available + amount@,
                        deposits: self.deposits.insert(
                            tx.0,
                            DepositState { ty: DepositStateType::Normal, amount },
                        ),
                        ..self
                    },
                    None,
                ),
                Transaction::Withdrawal { client, tx, amount } => {
                    if self.available - amount@ < 0 {
                        (
                            self,
                            Some(
                                Diagnostic::InsufficientFunds {
                                    client,
                                    tx,
                                    amount,
                                    available: Amount(self.available as i64),
                                },
                            ),
                        )
                    } else {
                        (AccountModel { available: self.available - amount@, ..self }, None)
                    }
                },
                Transaction::Dispute { client, tx } => {
                    if !self.deposits.contains_key(tx.0) {
                        (self, Some(Diagnostic::NoSuchDeposit { client, tx }))
                    } else if self.deposits[tx.0].ty != DepositStateType::Normal {
                        (self, Some(Diagnostic::AlreadyDisputed { client, tx }))
                    } else {
                        let amount = self.deposits[tx.0].amount@;
                        (
                            AccountModel {
                                available: self.available - amount,
                                held: self.held + amount,
                                ..self.with_deposit_state(tx, DepositStateType::Disputed)
                            },
                            None,
                        )
                    }
                },
                Transaction::Resolve { client, tx } => {
                    if !self.deposits.contains_key(tx.0) {
                        (self, Some(Diagnostic::NoSuchDeposit { client, tx }))
                    } else if self.deposits[tx.0].ty != DepositStateType::Disputed {
                        (self, Some(Diagnostic::NotDisputed { client, tx }))
                    } else {
                        let amount = self.deposits[tx.0].amount@;
                        (
                            AccountModel {
                                available: self.available + amount,
                                held: self.held - amount,
                                ..self.with_deposit_state(tx, DepositStateType::Normal)
                            },
                            None,
                        )
                    }
                },
                Transaction::ChargeBack { client, tx } => {
                    if !self.deposits.contains_key(tx.0) {
                        (self, Some(Diagnostic::NoSuchDeposit { client, tx }))
                    } else if self.deposits[tx.0].ty != DepositStateType::Disputed {
                        (self, Some(Diagnostic::NotDisputed { client, tx }))
                    } else {
                        let amount = self.deposits[tx.0].amount@;
                        (
                            AccountModel {
                                held: self.held - amount,
                                locked: true,
                                ..self.with_deposit_state(tx, DepositStateType::ChargedBack)
                            },
                            Some(Diagnostic::AccountLocked { client, tx }),
                        )
                    }
                },
            }
        }
    }

    /// What the executable account does with `t`: the transition of
    /// [`AccountModel::apply`] where its balances are representable, and
    /// otherwise nothing but a [`Diagnostic::BalanceOverflow`].
    pub open spec fn step(self, t: Transaction) -> (AccountModel, Option<Diagnostic>) {
        if self.apply(t).0.representable() {
            self.apply(t)
        } else {
            (self, Some(Diagnostic::BalanceOverflow { client: t.client(), tx: t.tx() }))
        }
    }
}

impl AccountModel {
    /// The summary of the account for `client`: the balances, their sum and
    /// the lock flag. It is meant for accounts whose balances are
    /// representable.
    pub open spec fn summary(self, client: ClientId) -> Output {
        Output {
            client,
            available: Amount(self.available as i64),
            held: Amount(self.held as i64),
            total: self.total() as i128,
            locked: self.locked,
        }
    }

    /// The account after the transactions of `ts`, applied in order by
    /// [`AccountModel::step`].
    pub open spec fn step_all(self, ts: Seq<Transaction>) -> AccountModel
        decreases ts.len(),
    {
        if ts.len() == 0 {
            self
        } else {
            self.step_all(ts.drop_last()).step(ts.last()).0
        }
    }
}

/// The total of a summary is exactly the sum of its two balances, and the
/// summary of a representable account shows the account's own balances.
pub proof fn lemma_total_is_available_plus_held(s: AccountModel, client: ClientId)
    requires
        s.representable(),
    ensures
        s.summary(client).total == s.summary(client).available@ + s.summary(client).held@,
        s.summary(client).available@ == s.available,
        s.summary(client).held@ == s.held,
        s.summary(client).total == s.total(),
{
}

/// Every transition leaves a representable account representable.
pub proof fn lemma_step_stays_representable(s: AccountModel, t: Transaction)
    requires
        s.representable(),
    ensures
        s.step(t).0.representable(),
{
}

/// Of every account that transactions can lead to from the empty account,
/// the balances are representable and the total of the summary is exactly
/// their sum.
pub proof fn lemma_reachable_total(ts: Seq<Transaction>, client: ClientId)
    ensures
        ({
            let reached = AccountModel::empty().step_all(ts);
            let summary = reached.summary(client);
            &&& reached.representable()
            &&& summary.total == summary.available@ + summary.held@
            &&& summary.total == reached.total()
        }),
    decreases ts.len(),
{
    if ts.len() > 0 {
        lemma_reachable_total(ts.drop_last(), client);
        lemma_step_stays_representable(AccountModel::empty().step_all(ts.drop_last()), ts.last());
    }
}

/// A locked account is a fixed point: whatever the transaction, the account
/// stays as it is and no diagnostic is given.
pub proof fn lemma_locked_is_fixed_point(s: AccountModel, t: Transaction)
    requires
        s.locked,
    ensures
        s.apply(t) == (s, None::<Diagnostic>),
        s.representable() ==> s.step(t) == (s, None::<Diagnostic>),
{
}

/// A locked account stays as it is through every sequence of transactions.
pub proof fn lemma_locked_stays_fixed(s: AccountModel, ts: Seq<Transaction>)
    requires
        s.representable(),
        s.locked,
    ensures
        s.step_all(ts) == s,
    decreases ts.len(),
{
    if ts.len() > 0 {
        lemma_locked_stays_fixed(s, ts.drop_last());
    }
}

/// An account never leaves the locked state, and only a chargeback that
/// goes through enters it.
pub proof fn lemma_lock_is_terminal(s: AccountModel, t: Transaction)
    requires
        s.representable(),
    ensures
        s.locked ==> s.step(t).0.locked,
        !s.locked && s.step(t).0.locked ==> t is ChargeBack && s.deposit_is(
            t.tx(),
            DepositStateType::Disputed,
        ),
{
}

/// A dispute changes the account only where a deposit is on record under
/// its number in the state `Normal`; it then moves the amount of that
/// deposit from the available to the held funds, whatever is available.
pub proof fn lemma_dispute_needs_normal_deposit(
    s: AccountModel,
    client: ClientId,
    tx: TransactionId,
)
    requires
        s.representable(),
    ensures
        ({
            let dispute = Transaction::Dispute { client, tx };
            let normal = s.deposit_is(tx, DepositStateType::Normal);
            let after = s.apply(dispute).0;
            &&& !normal ==> s.step(dispute).0 == s
            &&& !s.locked && !s.deposits.contains_key(tx.0) ==> s.step(dispute).1 == Some(
                Diagnostic::NoSuchDeposit { client, tx },
            )
            &&& !s.locked && s.deposits.contains_key(tx.0) && !normal ==> s.step(dispute).1
                == Some(Diagnostic::AlreadyDisputed { client, tx })
            &&& !s.locked && normal ==> {
                &&& after.deposit_is(tx, DepositStateType::Disputed)
                &&& after.available == s.available - s.deposits[tx.0].amount@
                &&& after.held == s.held + s.deposits[tx.0].amount@
                &&& after.total() == s.total()
            }
        }),
{
}

/// Only a deposit puts a deposit on record: after any other transaction
/// the account knows the deposits it knew before, and a deposit adds its
/// own number at most. A withdrawal in particular records nothing.
pub proof fn lemma_only_deposits_are_recorded(s: AccountModel, t: Transaction)
    requires
        s.representable(),
    ensures
        !(t is Deposit) ==> s.step(t).0.deposits.dom() == s.deposits.dom(),
        t is Withdrawal ==> s.step(t).0.deposits == s.deposits,
        forall|k: u32| #[trigger]
            s.step(t).0.deposits.contains_key(k) ==> s.deposits.contains_key(k) || (t is Deposit
                && t.tx().0 == k),
{
    if !(t is Deposit) {
        assert(s.step(t).0.deposits.dom() =~= s.deposits.dom());
    }
}

/// A number under which no deposit was made cannot be disputed: where the
/// account had no deposit under `tx` and none of the transactions `ts` is a
/// deposit with that number, a dispute of `tx` after them changes nothing
/// and, unless the account is locked, reports that there is no such
/// deposit. This holds in particular of the number of a withdrawal.
pub proof fn lemma_dispute_without_deposit(
    s: AccountModel,
    ts: Seq<Transaction>,
    client: ClientId,
    tx: TransactionId,
)
    requires
        s.representable(),
        !s.deposits.contains_key(tx.0),
        forall|i: int| 0 <= i < ts.len() ==> !(#[trigger] ts[i] is Deposit && ts[i].tx() == tx),
    ensures
        s.step_all(ts).representable(),
        !s.step_all(ts).deposits.contains_key(tx.0),
        s.step_all(ts).step(Transaction::Dispute { client, tx }).0 == s.step_all(ts),
        !s.step_all(ts).locked ==> s.step_all(ts).step(Transaction::Dispute { client, tx }).1
            == Some(Diagnostic::NoSuchDeposit { client, tx }),
    decreases ts.len(),
{
    if ts.len() > 0 {
        lemma_dispute_without_deposit(s, ts.drop_last(), client, tx);
        lemma_only_deposits_are_recorded(s.step_all(ts.drop_last()), ts.last());
    }
}

/// A withdrawal cannot be disputed: unless a deposit has the same number,
/// a dispute of the number of a withdrawal changes nothing, whether the
/// withdrawal went through or not.
pub proof fn lemma_withdrawal_cannot_be_disputed(
    s: AccountModel,
    client: ClientId,
    tx: TransactionId,
    amount: Amount,
)
    requires
        s.representable(),
        !s.deposits.contains_key(tx.0),
    ensures
        ({
            let after = s.step(Transaction::Withdrawal { client, tx, amount }).0;
            &&& !after.deposits.contains_key(tx.0)
            &&& after.step(Transaction::Dispute { client, tx }).0 == after
            &&& !after.locked ==> after.step(Transaction::Dispute { client, tx }).1 == Some(
                Diagnostic::NoSuchDeposit { client, tx },
            )
        }),
{
}

/// A resolve changes the account only where the deposit it names is
/// disputed; it then returns the held amount to the available funds.
pub proof fn lemma_resolve_needs_disputed_deposit(
    s: AccountModel,
    client: ClientId,
    tx: TransactionId,
)
    requires
        s.representable(),
    ensures
        ({
            let resolve = Transaction::Resolve { client, tx };
            let disputed = s.deposit_is(tx, DepositStateType::Disputed);
            let after = s.apply(resolve).0;
            &&& !disputed ==> s.step(resolve).0 == s
            &&& !s.locked && !s.deposits.contains_key(tx.0) ==> s.step(resolve).1 == Some(
                Diagnostic::NoSuchDeposit { client, tx },
            )
            &&& !s.locked && s.deposits.contains_key(tx.0) && !disputed ==> s.step(resolve).1
                == Some(Diagnostic::NotDisputed { client, tx })
            &&& !s.locked && disputed ==> {
                &&& after.deposit_is(tx, DepositStateType::Normal)
                &&& after.available == s.available + s.deposits[tx.0].amount@
                &&& after.held == s.held - s.deposits[tx.0].amount@
                &&& after.total() == s.total()
                &&& !after.locked
            }
        }),
{
}

/// A chargeback changes the account only where the deposit it names is
/// disputed; it then removes the held amount and locks the account.
pub proof fn lemma_chargeback_needs_disputed_deposit(
    s: AccountModel,
    client: ClientId,
    tx: TransactionId,
)
    requires
        s.representable(),
    ensures
        ({
            let chargeback = Transaction::ChargeBack { client, tx };
            let disputed = s.deposit_is(tx, DepositStateType::Disputed);
            let after = s.apply(chargeback).0;
            &&& !disputed ==> s.step(chargeback).0 == s
            &&& !s.locked && !s.deposits.contains_key(tx.0) ==> s.step(chargeback).1 == Some(
                Diagnostic::NoSuchDeposit { client, tx },
            )
            &&& !s.locked && s.deposits.contains_key(tx.0) && !disputed ==> s.step(chargeback).1
                == Some(Diagnostic::NotDisputed { client, tx })
            &&& !s.locked && disputed ==> {
                &&& after.deposit_is(tx, DepositStateType::ChargedBack)
                &&& after.available == s.available
                &&& after.held == s.held - s.deposits[tx.0].amount@
                &&& after.locked
                &&& s.apply(chargeback).1 == Some(Diagnostic::AccountLocked { client, tx })
            }
        }),
{
}

/// A deposit that was charged back is charged back once. A further
/// chargeback of it changes nothing: it is dropped in silence where the
/// account is locked, and rejected as not disputed otherwise. And after a
/// chargeback that went through, the deposit is charged back and the
/// account takes no transaction at all.
pub proof fn lemma_chargeback_is_final(
    s: AccountModel,
    client: ClientId,
    tx: TransactionId,
    next: Transaction,
)
    requires
        s.representable(),
    ensures
        ({
            let chargeback = Transaction::ChargeBack { client, tx };
            let after = s.step(chargeback).0;
            &&& s.deposit_is(tx, DepositStateType::ChargedBack) ==> {
                &&& s.step(chargeback).0 == s
                &&& s.step(chargeback).1 == (if s.locked {
                    None
                } else {
                    Some(Diagnostic::NotDisputed { client, tx })
                })
            }
            &&& !s.locked && s.deposit_is(tx, DepositStateType::Disputed) && s.apply(
                chargeback,
            ).0.representable() ==> s.step(chargeback).1 == Some(
                Diagnostic::AccountLocked { client, tx },
            )
            &&& s.step(chargeback).1 == Some(Diagnostic::AccountLocked { client, tx }) ==> {
                &&& after.deposit_is(tx, DepositStateType::ChargedBack)
                &&& after.locked
                &&& after.step(chargeback) == (after, None::<Diagnostic>)
                &&& after.step(next) == (after, None::<Diagnostic>)
            }
        }),
{
}


/// Whether `v` fits an [`Amount`].
fn in_range(v: i128) -> (b: bool)
    ensures
        b == (i64::MIN <= v <= i64::MAX),
{
    -0x8000_0000_0000_0000i128 <= v && v <= 0x7fff_ffff_ffff_ffffi128
}

/// Aggregates the information of a single client.
#[derive(Debug, PartialEq)]
pub struct ClientState {
    deposits: FxHashMap<u32, DepositState>,
    available: Amount,
    held: Amount,
    locked: bool,
}

impl View for ClientState {
    type V = AccountModel;

    closed spec fn view(&self) -> AccountModel {
        AccountModel {
            available: self.available@,
            held: self.held@,
            locked: self.locked,
            deposits: self.deposits@,
        }
    }
}

impl ClientState {
    /// The account of a client that no transaction has named yet.
    pub fn new() -> (s: ClientState)
        ensures
            s@ == AccountModel::empty(),
    {
        ClientState {
            deposits: FxHashMap::default(),
            available: Amount(0),
            held: Amount(0),
            locked: false,
        }
    }

    /// Updates the account by one transaction and returns the diagnostic, if
    /// the transaction gives rise to one.
    pub fn process_transaction(&mut self, tx: Transaction) -> (diag: Option<Diagnostic>)
        ensures
            final(self)@ == old(self)@.step(tx).0,
            diag == old(self)@.step(tx).1,
            final(self)@.representable(),
    {
        if self.locked {
            return None;
        }
        match tx {
            Transaction::Deposit { client, tx, amount } => {
                let available: i128 = self.available.0 as i128 + amount.0 as i128;
                if !in_range(available) {
                    return Some(Diagnostic::BalanceOverflow { client, tx });
                }
                fx_insert(&mut self.deposits, tx.0, DepositState::new(amount));
                self.available = Amount(available as i64);
                None
            },
            Transaction::Withdrawal { client, tx, amount } => {
                let available: i128 = self.available.0 as i128 - amount.0 as i128;
                if available < 0 {
                    return Some(
                        Diagnostic::InsufficientFunds {
                            client,
                            tx,
                            amount,
                            available: self.available,
                        },
                    );
                }
                if !in_range(available) {
                    return Some(Diagnostic::BalanceOverflow { client, tx });
                }
                self.available = Amount(available as i64);
                None
            },
            Transaction::Dispute { client, tx } => {
                match fx_get_mut(&mut self.deposits, &tx.0) {
                    Some(deposit) => {
                        if deposit.ty != DepositStateType::Normal {
                            return Some(Diagnostic::AlreadyDisputed { client, tx });
                        }
                        let available: i128 = self.available.0 as i128 - deposit.amount.0 as i128;
                        let held: i128 = self.held.0 as i128 + deposit.amount.0 as i128;
                        if !in_range(available) || !in_range(held) {
                            return Some(Diagnostic::BalanceOverflow { client, tx });
                        }
                        deposit.ty = DepositStateType::Disputed;
                        self.available = Amount(available as i64);
                        self.held = Amount(held as i64);
                        None
                    },
                    None => Some(Diagnostic::NoSuchDeposit { client, tx }),
                }
            },
            Transaction::Resolve { client, tx } => {
                match fx_get_mut(&mut self.deposits, &tx.0) {
                    Some(deposit) => {
                        if deposit.ty != DepositStateType::Disputed {
                            return Some(Diagnostic::NotDisputed { client, tx });
                        }
                        let available: i128 = self.available.0 as i128 + deposit.amount.0 as i128;
                        let held: i128 = self.held.0 as i128 - deposit.amount.0 as i128;
                        if !in_range(available) || !in_range(held) {
                            return Some(Diagnostic::BalanceOverflow { client, tx });
                        }
                        deposit.ty = DepositStateType::Normal;
                        self.available = Amount(available as i64);
                        self.held = Amount(held as i64);
                        None
                    },
                    None => Some(Diagnostic::NoSuchDeposit { client, tx }),
                }
            },
            Transaction::ChargeBack { client, tx } => {
                match fx_get_mut(&mut self.deposits, &tx.0) {
                    Some(deposit) => {
                        if deposit.ty != DepositStateType::Disputed {
                            return Some(Diagnostic::NotDisputed { client, tx });
                        }
                        let held: i128 = self.held.0 as i128 - deposit.amount.0 as i128;
                        if !in_range(held) {
                            return Some(Diagnostic::BalanceOverflow { client, tx });
                        }
                        deposit.ty = DepositStateType::ChargedBack;
                        self.held = Amount(held as i64);
                        self.locked = true;
                        Some(Diagnostic::AccountLocked { client, tx })
                    },
                    None => Some(Diagnostic::NoSuchDeposit { client, tx }),
                }
            },
        }
    }

    /// The funds that the client can withdraw.
    pub fn available(&self) -> (a: Amount)
        ensures
            a@ == self@.available,
    {
        self.available
    }

    /// The funds that are frozen by disputes.
    pub fn held(&self) -> (a: Amount)
        ensures
            a@ == self@.held,
    {
        self.held
    }

    /// The funds of the account, available or held, in [`Amount`] units.
    pub fn total(&self) -> (t: i128)
        ensures
            t == self@.total(),
            t == self@.available + self@.held,
    {
        self.available.0 as i128 + self.held.0 as i128
    }

    /// Whether a chargeback has frozen the account.
    pub fn locked(&self) -> (b: bool)
        ensures
            b == self@.locked,
    {
        self.locked
    }

    /// The deposit on record under `tx`, if there is one.
    pub fn deposit(&self, tx: TransactionId) -> (d: Option<DepositState>)
        ensures
            d == (if self@.deposits.contains_key(tx.0) {
                Some(self@.deposits[tx.0])
            } else {
                None
            }),
    {
        match fx_get(&self.deposits, &tx.0) {
            Some(d) => Some(*d),
            None => None,
        }
    }

    /// The number of deposits on record.
    pub fn deposit_count(&self) -> (n: usize)
        ensures
            n == self@.deposits.len(),
    {
        fx_len(&self.deposits)
    }

    /// The summary of the account for `client`.
    pub fn output(&self, client: ClientId) -> (o: Output)
        ensures
            o == self@.summary(client),
            o.total == o.available@ + o.held@,
            o.available@ == self@.available,
            o.held@ == self@.held,
    {
        Output {
            client,
            available: self.available,
            held: self.held,
            total: self.total(),
            locked: self.locked,
        }
    }
}

impl From<(ClientId, ClientState)> for Output {
    fn from(v: (ClientId, ClientState)) -> (o: Output) {
        v.1.output(v.0)
    }
}

impl vstd::std_specs::convert::FromSpecImpl<(ClientId, ClientState)> for Output {
    open spec fn obeys_from_spec() -> bool {
        true
    }

    open spec fn from_spec(v: (ClientId, ClientState)) -> Output {
        v.1@.summary(v.0)
    }
}

impl Clone for ClientState {
    fn clone(&self) -> (s: ClientState)
        ensures
            s@ == self@,
    {
        ClientState {
            deposits: self.deposits.clone(),
            available: self.available,
            held: self.held,
            locked: self.locked,
        }
    }
}

impl Default for ClientState {
    fn default() -> (s: ClientState)
        ensures
            s@ == AccountModel::empty(),
    {
        ClientState::new()
    }
}

} // verus!
