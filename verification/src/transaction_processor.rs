//! The accounts of a group of clients, and the replay of a transaction
//! stream over one or several such groups.

use crate::client_state::{lemma_reachable_total, AccountModel, ClientState, Diagnostic};
use crate::fx::{fx_entry, fx_get, fx_keys};
use crate::io::{parse, records, ClientId, Output, ParseError, Transaction};
use vstd::string::StringSliceAdditionalSpecFns;
use rustc_hash::FxHashMap;
use vstd::prelude::*;

verus! {

/// The account that `table` has for `client`: the one on record, or the
/// empty account of a client that no transaction has named yet.
pub open spec fn account(table: Map<u16, AccountModel>, client: ClientId) -> AccountModel {
    if table.contains_key(client.0) {
        table[client.0]
    } else {
        AccountModel::empty()
    }
}

/// The table after `t`: the account of the client of `t` takes the step,
/// and is on record from then on; no other account changes.
pub open spec fn table_step(table: Map<u16, AccountModel>, t: Transaction) -> Map<
    u16,
    AccountModel,
> {
    table.insert(t.client().0, account(table, t.client()).step(t).0)
}

/// The table after the transactions of `ts`, taken in order.
pub open spec fn table_after(table: Map<u16, AccountModel>, ts: Seq<Transaction>) -> Map<
    u16,
    AccountModel,
>
    decreases ts.len(),
{
    if ts.len() == 0 {
        table
    } else {
        table_step(table_after(table, ts.drop_last()), ts.last())
    }
}

/// The diagnostics that the transactions of `ts` give rise to, in order,
/// when they are replayed over `table`.
pub open spec fn diagnostics_after(table: Map<u16, AccountModel>, ts: Seq<Transaction>) -> Seq<
    Diagnostic,
>
    decreases ts.len(),
{
    if ts.len() == 0 {
        Seq::empty()
    } else {
        let before = table_after(table, ts.drop_last());
        let earlier = diagnostics_after(table, ts.drop_last());
        match account(before, ts.last().client()).step(ts.last()).1 {
            Some(d) => earlier.push(d),
            None => earlier,
        }
    }
}

/// `outputs` holds the summary of every account of `table`, once each, and
/// nothing else. The order of the summaries is left open.
pub open spec fn summarises(outputs: Seq<Output>, table: Map<u16, AccountModel>) -> bool {
    &&& forall|i: int, j: int|
        0 <= i < j < outputs.len() ==> (#[trigger] outputs[i]).client != (
        #[trigger] outputs[j]).client
    &&& forall|i: int|
        0 <= i < outputs.len() ==> table.contains_key((#[trigger] outputs[i]).client.0)
            && outputs[i] == table[outputs[i].client.0].summary(outputs[i].client)
    &&& forall|c: u16| #[trigger]
        table.contains_key(c) ==> exists|i: int|
            0 <= i < outputs.len() && (#[trigger] outputs[i]).client.0 == c
}

/// Manages the accounts of a group of clients.
pub struct TransactionProcessor {
    clients: FxHashMap<u16, ClientState>,
}

impl View for TransactionProcessor {
    type V = Map<u16, AccountModel>;

    closed spec fn view(&self) -> Map<u16, AccountModel> {
        self.clients@.map_values(|c: ClientState| c@)
    }
}

impl TransactionProcessor {
    /// Returns a processor that knows no client.
    pub fn new() -> (p: TransactionProcessor)
        ensures
            p@ == Map::<u16, AccountModel>::empty(),
    {
        let p = TransactionProcessor { clients: FxHashMap::default() };
        assert(p@ =~= Map::<u16, AccountModel>::empty());
        p
    }

    /// Forwards `tx` to the account of its client, which is created empty
    /// if this is the first transaction that names the client.
    pub fn process(&mut self, tx: Transaction) -> (diag: Option<Diagnostic>)
        ensures
            final(self)@ == table_step(old(self)@, tx),
            diag == account(old(self)@, tx.client()).step(tx).1,
    {
        let client = tx.client();
        let state = fx_entry(&mut self.clients, client.0).or_insert(ClientState::new());
        let diag = state.process_transaction(tx);
        assert(self@ =~= table_step(old(self)@, tx));
        diag
    }

    /// Processes the transactions of `transactions` in order and returns
    /// the diagnostics that they give rise to.
    pub fn run(&mut self, transactions: &Vec<Transaction>) -> (diags: Vec<Diagnostic>)
        ensures
            final(self)@ == table_after(old(self)@, transactions@),
            diags@ == diagnostics_after(old(self)@, transactions@),
    {
        let mut diags: Vec<Diagnostic> = Vec::new();
        let mut i: usize = 0;
        while i < transactions.len()
            invariant
                i <= transactions.len(),
                self@ == table_after(old(self)@, transactions@.take(i as int)),
                diags@ == diagnostics_after(old(self)@, transactions@.take(i as int)),
            decreases transactions.len() - i,
        {
            proof {
                let next = transactions@.take(i + 1);
                assert(next.drop_last() =~= transactions@.take(i as int));
                assert(next.last() == transactions@[i as int]);
            }
            match self.process(transactions[i]) {
                Some(d) => diags.push(d),
                None => {},
            }
            i += 1;
        }
        assert(transactions@.take(i as int) =~= transactions@);
        diags
    }

    /// The summaries of the accounts, one for each client that a
    /// transaction has named, in no particular order.
    pub fn into_outputs(self) -> (outputs: Vec<Output>)
        ensures
            summarises(outputs@, self@),
    {
        self.outputs()
    }

    /// The summaries of the accounts as they stand, one for each client
    /// that a transaction has named, in no particular order.
    pub fn outputs(&self) -> (outputs: Vec<Output>)
        ensures
            summarises(outputs@, self@),
    {
        let keys = fx_keys(&self.clients);
        let mut outputs: Vec<Output> = Vec::new();
        let mut i: usize = 0;
        while i < keys.len()
            invariant
                i <= keys.len(),
                keys@.no_duplicates(),
                keys@.to_set() == self.clients@.dom(),
                outputs@.len() == i,
                forall|j: int|
                    0 <= j < i ==> (#[trigger] outputs@[j]) == self@[keys@[j]].summary(
                        ClientId(keys@[j]),
                    ),
            decreases keys.len() - i,
        {
            let key = keys[i];
            assert(keys@.to_set().contains(key));
            match fx_get(&self.clients, &key) {
                Some(state) => outputs.push(state.output(ClientId(key))),
                None => {},
            }
            i += 1;
        }
        proof {
            assert forall|c: u16| #[trigger] self@.contains_key(c) implies exists|i: int|
                0 <= i < outputs@.len() && (#[trigger] outputs@[i]).client.0 == c by {
                assert(keys@.to_set().contains(c));
                let i = choose|i: int| 0 <= i < keys@.len() && keys@[i] == c;
                assert(outputs@[i].client.0 == c);
            }
            assert forall|i: int| 0 <= i < outputs@.len() implies self@.contains_key(
                (#[trigger] outputs@[i]).client.0,
            ) by {
                assert(keys@.to_set().contains(keys@[i]));
            }
        }
        outputs
    }
}

/// The transactions of `ts` that belong to `client`, in their order.
pub open spec fn of_client(ts: Seq<Transaction>, client: ClientId) -> Seq<Transaction> {
    ts.filter(|t: Transaction| t.client() == client)
}

/// A replay keeps the clients apart and the transactions of each in their
/// order: a client has an account just where a transaction names the
/// client, and the account is what the client's own transactions, taken in
/// order, make of the empty account. Its balances are representable.
pub proof fn lemma_table_is_per_client(ts: Seq<Transaction>, client: ClientId)
    ensures
        table_after(Map::empty(), ts).contains_key(client.0) <==> of_client(ts, client).len() > 0,
        account(table_after(Map::empty(), ts), client) == AccountModel::empty().step_all(
            of_client(ts, client),
        ),
        account(table_after(Map::empty(), ts), client).representable(),
    decreases ts.len(),
{
    let mine = |t: Transaction| t.client() == client;
    lemma_reachable_total(of_client(ts, client), client);
    if ts.len() == 0 {
        assert(ts.filter(mine) =~= Seq::<Transaction>::empty()) by {
            ts.lemma_filter_len(mine);
        }
    } else {
        let earlier = ts.drop_last();
        lemma_table_is_per_client(earlier, client);
        assert(earlier.push(ts.last()) =~= ts);
        earlier.lemma_filter_push(ts.last(), mine);
        if mine(ts.last()) {
            assert(ts.filter(mine).drop_last() =~= earlier.filter(mine));
        }
    }
}

/// The worker that the transactions of `client` go to, of `workers`.
pub open spec fn worker_of(client: ClientId, workers: int) -> int {
    client.0 as int % workers
}

/// The transactions of `ts` that go to the worker `w`, in their order.
pub open spec fn sub_stream(ts: Seq<Transaction>, workers: int, w: int) -> Seq<Transaction> {
    ts.filter(|t: Transaction| worker_of(t.client(), workers) == w)
}

/// The accounts of `table` whose clients go to the worker `w`.
pub open spec fn shard(table: Map<u16, AccountModel>, workers: int, w: int) -> Map<
    u16,
    AccountModel,
> {
    table.restrict(Set::new(|c: u16| worker_of(ClientId(c), workers) == w))
}

/// The accounts of `table` whose clients go to a worker below `w`.
pub open spec fn shards_below(table: Map<u16, AccountModel>, workers: int, w: int) -> Map<
    u16,
    AccountModel,
> {
    table.restrict(Set::new(|c: u16| worker_of(ClientId(c), workers) < w))
}

/// What `workers` workers hold between them after `ts`, when each starts
/// with no account and replays its own sub-stream: every account is taken
/// from the worker that the client goes to.
pub open spec fn partitioned_table(ts: Seq<Transaction>, workers: int) -> Map<u16, AccountModel> {
    Map::new(
        |c: u16|
            table_after(
                Map::empty(),
                sub_stream(ts, workers, worker_of(ClientId(c), workers)),
            ).contains_key(c),
        |c: u16|
            table_after(Map::empty(), sub_stream(ts, workers, worker_of(ClientId(c), workers)))[c],
    )
}

/// The worker that a transaction of `client` is routed to: the client's
/// number modulo the number of workers.
pub fn route(client: ClientId, workers: usize) -> (w: usize)
    requires
        workers >= 1,
    ensures
        w == worker_of(client, workers as int),
        w < workers,
{
    client.0 as usize % workers
}

/// The shards part the table: every client goes to one worker of those
/// there are, an account is in the shard of that worker, and in no other.
pub proof fn lemma_shards_part_the_table(
    table: Map<u16, AccountModel>,
    workers: int,
    client: ClientId,
    w: int,
)
    requires
        workers >= 1,
    ensures
        0 <= worker_of(client, workers) < workers,
        shard(table, workers, w).contains_key(client.0) <==> table.contains_key(client.0) && w
            == worker_of(client, workers),
        shard(table, workers, w).contains_key(client.0) ==> shard(table, workers, w)[client.0]
            == table[client.0],
{
}

/// A transaction changes the shard of the worker it goes to as it changes
/// the whole table, and no other shard.
pub proof fn lemma_step_stays_in_shard(
    table: Map<u16, AccountModel>,
    t: Transaction,
    workers: int,
    w: int,
)
    requires
        workers >= 1,
    ensures
        worker_of(t.client(), workers) == w ==> shard(table_step(table, t), workers, w) == table_step(
            shard(table, workers, w),
            t,
        ),
        worker_of(t.client(), workers) != w ==> shard(table_step(table, t), workers, w) == shard(
            table,
            workers,
            w,
        ),
{
    if worker_of(t.client(), workers) == w {
        assert(shard(table_step(table, t), workers, w) =~= table_step(shard(table, workers, w), t));
    } else {
        assert(shard(table_step(table, t), workers, w) =~= shard(table, workers, w));
    }
}

/// A worker that replays its sub-stream over its shard of a table ends
/// with its shard of the table that the whole stream gives.
pub proof fn lemma_worker_holds_its_shard(
    table: Map<u16, AccountModel>,
    ts: Seq<Transaction>,
    workers: int,
    w: int,
)
    requires
        workers >= 1,
    ensures
        table_after(shard(table, workers, w), sub_stream(ts, workers, w)) == shard(
            table_after(table, ts),
            workers,
            w,
        ),
    decreases ts.len(),
{
    let routed = |t: Transaction| worker_of(t.client(), workers) == w;
    if ts.len() == 0 {
        assert(ts.filter(routed) =~= Seq::<Transaction>::empty()) by {
            ts.lemma_filter_len(routed);
        }
    } else {
        let earlier = ts.drop_last();
        lemma_worker_holds_its_shard(table, earlier, workers, w);
        assert(earlier.push(ts.last()) =~= ts);
        earlier.lemma_filter_push(ts.last(), routed);
        lemma_step_stays_in_shard(table_after(table, earlier), ts.last(), workers, w);
        if routed(ts.last()) {
            assert(ts.filter(routed).drop_last() =~= earlier.filter(routed));
        }
    }
}

/// Partitioning loses and mixes nothing: whatever the number of workers,
/// what they hold between them after replaying their sub-streams is the
/// table that a single replay of the whole stream gives.
pub proof fn lemma_partitioned_table_is_table(ts: Seq<Transaction>, workers: int)
    requires
        workers >= 1,
    ensures
        partitioned_table(ts, workers) == table_after(Map::empty(), ts),
{
    let whole = table_after(Map::<u16, AccountModel>::empty(), ts);
    assert forall|c: u16|
        table_after(
            Map::<u16, AccountModel>::empty(),
            sub_stream(ts, workers, worker_of(ClientId(c), workers)),
        ) == shard(whole, workers, #[trigger] worker_of(ClientId(c), workers)) by {
        let w = worker_of(ClientId(c), workers);
        assert(shard(Map::<u16, AccountModel>::empty(), workers, w) =~= Map::<
            u16,
            AccountModel,
        >::empty());
        lemma_worker_holds_its_shard(Map::empty(), ts, workers, w);
    }
    assert(partitioned_table(ts, workers) =~= whole);
}

/// Two sequences that summarise one table hold the same summaries, each as
/// often as the other: they differ in order at most.
pub proof fn lemma_summaries_differ_in_order_only(
    a: Seq<Output>,
    b: Seq<Output>,
    table: Map<u16, AccountModel>,
)
    requires
        summarises(a, table),
        summarises(b, table),
    ensures
        a.to_multiset() == b.to_multiset(),
{
    assert forall|o: Output| a.to_multiset().count(o) == b.to_multiset().count(o) by {
        lemma_summary_count(a, table, o);
        lemma_summary_count(b, table, o);
    }
    assert(a.to_multiset() =~= b.to_multiset());
}

/// How often a sequence that summarises `table` holds `o`: once if `o` is
/// the summary of an account of `table`, and never otherwise.
proof fn lemma_summary_count(a: Seq<Output>, table: Map<u16, AccountModel>, o: Output)
    requires
        summarises(a, table),
    ensures
        a.to_multiset().count(o) == (if table.contains_key(o.client.0) && o
            == table[o.client.0].summary(o.client) {
            1nat
        } else {
            0nat
        }),
{
    a.to_multiset_ensures();
    assert(a.no_duplicates());
    a.lemma_multiset_has_no_duplicates();
    if table.contains_key(o.client.0) && o == table[o.client.0].summary(o.client) {
        let i = choose|i: int| 0 <= i < a.len() && (#[trigger] a[i]).client.0 == o.client.0;
        assert(a[i] == o);
        assert(a.contains(o));
    } else {
        if a.contains(o) {
            let i = choose|i: int| 0 <= i < a.len() && a[i] == o;
            assert(table.contains_key(a[i].client.0));
        }
    }
}

/// Partition-count invariance: a replay of `ts` by one worker and a replay
/// by `workers` workers yield the same summaries, each as often. The two
/// results may differ in the order of the summaries only.
pub proof fn lemma_partition_count_invariance(
    ts: Seq<Transaction>,
    workers: int,
    single: Seq<Output>,
    partitioned: Seq<Output>,
)
    requires
        workers >= 1,
        summarises(single, partitioned_table(ts, 1)),
        summarises(partitioned, partitioned_table(ts, workers)),
    ensures
        single.to_multiset() == partitioned.to_multiset(),
{
    lemma_partitioned_table_is_table(ts, 1);
    lemma_partitioned_table_is_table(ts, workers);
    lemma_summaries_differ_in_order_only(single, partitioned, table_after(Map::empty(), ts));
}

/// Summaries of two tables that share no client, one after the other, are
/// the summaries of the two tables taken together.
proof fn lemma_summaries_join(
    a: Seq<Output>,
    b: Seq<Output>,
    left: Map<u16, AccountModel>,
    right: Map<u16, AccountModel>,
    both: Map<u16, AccountModel>,
)
    requires
        summarises(a, left),
        summarises(b, right),
        forall|c: u16| !(left.contains_key(c) && right.contains_key(c)),
        both.dom() == left.dom().union(right.dom()),
        forall|c: u16| left.contains_key(c) ==> both[c] == left[c],
        forall|c: u16| right.contains_key(c) ==> both[c] == right[c],
    ensures
        summarises(a + b, both),
{
    let ab = a + b;
    assert forall|i: int, j: int| 0 <= i < j < ab.len() implies (#[trigger] ab[i]).client != (
    #[trigger] ab[j]).client by {
        if j < a.len() {
            assert(ab[i] == a[i] && ab[j] == a[j]);
        } else if i >= a.len() {
            assert(ab[i] == b[i - a.len()] && ab[j] == b[j - a.len()]);
        } else {
            assert(ab[i] == a[i] && ab[j] == b[j - a.len()]);
            assert(left.contains_key(a[i].client.0));
            assert(right.contains_key(b[j - a.len()].client.0));
        }
    }
    assert forall|i: int| 0 <= i < ab.len() implies both.contains_key((#[trigger] ab[i]).client.0)
        && ab[i] == both[ab[i].client.0].summary(ab[i].client) by {
        if i < a.len() {
            assert(ab[i] == a[i]);
            assert(left.contains_key(a[i].client.0));
        } else {
            assert(ab[i] == b[i - a.len()]);
            assert(right.contains_key(b[i - a.len()].client.0));
        }
    }
    assert forall|c: u16| #[trigger] both.contains_key(c) implies exists|i: int|
        0 <= i < ab.len() && (#[trigger] ab[i]).client.0 == c by {
        if left.contains_key(c) {
            let i = choose|i: int| 0 <= i < a.len() && (#[trigger] a[i]).client.0 == c;
            assert(ab[i] == a[i]);
        } else {
            assert(right.contains_key(c));
            let i = choose|i: int| 0 <= i < b.len() && (#[trigger] b[i]).client.0 == c;
            assert(ab[i + a.len()] == b[i]);
        }
    }
}

/// Replays `transactions` with `workers` workers and returns the summaries
/// of all accounts, in no particular order.
///
/// Every transaction goes to the worker that [`route`] names, so that the
/// transactions of one client reach one worker, in their order. The result
/// does not depend on the number of workers: it summarises the table that a
/// single replay of the whole sequence gives.
pub fn process(transactions: &Vec<Transaction>, workers: usize) -> (outputs: Vec<Output>)
    requires
        workers >= 1,
    ensures
        summarises(outputs@, table_after(Map::empty(), transactions@)),
        summarises(outputs@, partitioned_table(transactions@, workers as int)),
{
    let ghost start = Map::<u16, AccountModel>::empty();
    let mut processors: Vec<TransactionProcessor> = Vec::new();
    let mut w: usize = 0;
    while w < workers
        invariant
            w <= workers,
            processors@.len() == w,
            start == Map::<u16, AccountModel>::empty(),
            forall|v: int| 0 <= v < w ==> (#[trigger] processors@[v])@ == start,
        decreases workers - w,
    {
        processors.push(TransactionProcessor::new());
        w += 1;
    }
    let mut i: usize = 0;
    while i < transactions.len()
        invariant
            workers >= 1,
            i <= transactions.len(),
            processors@.len() == workers,
            forall|v: int|
                0 <= v < workers ==> (#[trigger] processors@[v])@ == shard(
                    table_after(start, transactions@.take(i as int)),
                    workers as int,
                    v,
                ),
        decreases transactions.len() - i,
    {
        let tx = transactions[i];
        let to = route(tx.client(), workers);
        let ghost before = processors@;
        let ghost sofar = table_after(start, transactions@.take(i as int));
        processors[to].process(tx);
        proof {
            let next = transactions@.take(i + 1);
            assert(next.drop_last() =~= transactions@.take(i as int));
            assert(next.last() == tx);
            assert forall|v: int| 0 <= v < workers implies (#[trigger] processors@[v])@ == shard(
                table_after(start, next),
                workers as int,
                v,
            ) by {
                lemma_step_stays_in_shard(sofar, tx, workers as int, v);
                if v != to {
                    assert(processors@[v] == before[v]);
                }
            }
        }
        i += 1;
    }
    assert(transactions@.take(i as int) =~= transactions@);
    let ghost table = table_after(start, transactions@);
    let mut outputs: Vec<Output> = Vec::new();
    let mut w: usize = 0;
    assert(shards_below(table, workers as int, 0) =~= start);
    while w < workers
        invariant
            w <= workers,
            processors@.len() == workers,
            forall|v: int|
                0 <= v < workers ==> (#[trigger] processors@[v])@ == shard(table, workers as int, v),
            summarises(outputs@, shards_below(table, workers as int, w as int)),
        decreases workers - w,
    {
        let mut part = processors[w].outputs();
        proof {
            assert(shards_below(table, workers as int, w + 1).dom() =~= shards_below(
                table,
                workers as int,
                w as int,
            ).dom().union(shard(table, workers as int, w as int).dom()));
            lemma_summaries_join(
                outputs@,
                part@,
                shards_below(table, workers as int, w as int),
                shard(table, workers as int, w as int),
                shards_below(table, workers as int, w + 1),
            );
        }
        outputs.append(&mut part);
        w += 1;
    }
    proof {
        assert(shards_below(table, workers as int, workers as int) =~= table);
        lemma_partitioned_table_is_table(transactions@, workers as int);
    }
    outputs
}

/// The transactions that `rs` holds, in order, where every one of `rs` is
/// a transaction.
pub open spec fn transactions_of(rs: Seq<Result<Transaction, ParseError>>) -> Seq<Transaction> {
    Seq::new(rs.len(), |i: int| rs[i]->Ok_0)
}

/// `e` is the first error of `rs`: it stands at `k`, and transactions stand
/// before it.
pub open spec fn is_first_error(
    rs: Seq<Result<Transaction, ParseError>>,
    k: int,
    e: ParseError,
) -> bool {
    &&& 0 <= k < rs.len()
    &&& rs[k] == Err::<Transaction, ParseError>(e)
    &&& forall|j: int| 0 <= j < k ==> (#[trigger] rs[j]) is Ok
}

/// Replays the records of `input` with `workers` workers and returns the
/// summaries of all accounts, in no particular order.
///
/// A line that is no record is fatal: the first such line ends the run
/// with its error, and no summary is returned.
pub fn process_records(input: &str, workers: usize) -> (outcome: Result<Vec<Output>, ParseError>)
    requires
        workers >= 1,
    ensures
        match outcome {
            Ok(outputs) => {
                let rs = records(input.spec_bytes());
                &&& forall|j: int| 0 <= j < rs.len() ==> (#[trigger] rs[j]) is Ok
                &&& summarises(outputs@, table_after(Map::empty(), transactions_of(rs)))
            },
            Err(e) => exists|k: int| is_first_error(records(input.spec_bytes()), k, e),
        },
{
    let rs = parse(input);
    let mut transactions: Vec<Transaction> = Vec::new();
    let mut i: usize = 0;
    while i < rs.len()
        invariant
            i <= rs.len(),
            rs@ == records(input.spec_bytes()),
            transactions@.len() == i,
            forall|j: int| 0 <= j < i ==> (#[trigger] rs@[j]) == Ok::<Transaction, ParseError>(
                transactions@[j],
            ),
        decreases rs.len() - i,
    {
        match rs[i] {
            Ok(t) => transactions.push(t),
            Err(e) => {
                assert(is_first_error(rs@, i as int, e));
                return Err(e);
            },
        }
        i += 1;
    }
    assert(transactions@ =~= transactions_of(rs@));
    Ok(process(&transactions, workers))
}

} // verus!
