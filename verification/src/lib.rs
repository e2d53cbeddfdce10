//! Replay of an ordered stream of financial transactions against per-client
//! accounts.
//!
//! Amounts are exact: an [`io::Amount`] counts ten-thousandths of a currency
//! unit in an `i64`. Every account transition is specified over unbounded
//! integers; the executable code follows that model wherever the resulting
//! balances are representable and rejects the transaction otherwise.
//!
//! - [`client_state`]: the account of one client and its transitions.
//! - [`transaction_processor`]: the accounts of many clients, the parting of
//!   a stream among workers, and the replay of a whole stream.
//! - [`io`]: identifiers, amounts, transactions and summaries, and the
//!   records that write transactions as text.
//! - [`text`], [`digits`], [`money`]: fields, numerals and amounts as text.
//! - [`generate`], [`generate_random`]: streams of transactions made by
//!   chance, from the draws of [`random`].
//! - [`fx`]: the hash map that accounts and deposits are kept in.

pub mod client_state;
pub mod digits;
pub mod fx;
pub mod generate;
pub mod generate_random;
pub mod io;
pub mod money;
pub mod random;
pub mod text;
pub mod transaction_processor;
