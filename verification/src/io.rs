//! The values that enter and leave the replay: identifiers, amounts,
//! transactions and the per-client summary.

use crate::digits::{
    all_digits, append_decimal, atoi_u32, atoi_value, decimal, is_digit, lemma_decimal_is_ascii,
    lemma_decimal_reads_back, lemma_digit_run_of_digits, pow10, unsigned_part,
};
use crate::money::{
    amount_text, amount_units, append_units, fraction_text, lemma_amount_text_is_ascii,
    lemma_amount_text_reads_back, lemma_fraction_reads_back, parse_units,
};
use crate::text::{
    ascii, equals_word, field_range, find_byte, first_index, is_space, lemma_first_index,
    nth_field, trim, trim_range,
};
use vstd::prelude::*;
use vstd::slice::slice_subrange;
use vstd::string::StringExecFns;
use vstd::string::StringSliceAdditionalSpecFns;
use vstd::utf8::is_ascii_chars;

verus! {

/// Uniquely identifies a deposit or withdrawal.
#[derive(Debug, Clone, Copy, PartialEq, Eq, Structural, PartialOrd, Ord, Hash)]
pub struct TransactionId(pub u32);

/// Uniquely identifies a client.
#[derive(Debug, Clone, Copy, PartialEq, Eq, Structural, PartialOrd, Ord, Hash)]
pub struct ClientId(pub u16);

/// A signed amount of money, counted in ten-thousandths of a currency unit.
#[derive(Debug, Clone, Copy, PartialEq, Eq, Structural, PartialOrd, Ord, Hash)]
pub struct Amount(pub i64);

/// How many [`Amount`] units make one currency unit.
pub const UNITS_PER_WHOLE: i64 = 10_000;

impl View for Amount {
    type V = int;

    open spec fn view(&self) -> int {
        self.0 as int
    }
}

impl Amount {
    /// The amount of `whole` currency units, where that is representable.
    pub fn from_whole(whole: i64) -> (r: Option<Amount>)
        ensures
            r == (if i64::MIN <= whole * UNITS_PER_WHOLE <= i64::MAX {
                Some(Amount((whole * UNITS_PER_WHOLE) as i64))
            } else {
                None
            }),
    {
        match whole.checked_mul(UNITS_PER_WHOLE) {
            Some(units) => Some(Amount(units)),
            None => None,
        }
    }

    /// The amount that `text` writes in decimal, with up to four places
    /// behind the point.
    pub fn parse(text: &str) -> (r: Option<Amount>)
        ensures
            r == (match amount_units(text.spec_bytes()) {
                Some(units) => Some(Amount(units)),
                None => None,
            }),
    {
        match parse_units(text.as_bytes()) {
            Some(units) => Some(Amount(units)),
            None => None,
        }
    }

    /// The amount in decimal: a minus sign if it is negative, the whole
    /// part, and the places behind the point that are needed.
    pub fn to_text(&self) -> (text: String)
        ensures
            text@ == amount_text(self@),
    {
        let mut text = String::new();
        append_units(&mut text, self.0 as i128);
        assert(text@ =~= amount_text(self@));
        text
    }
}

/// One record of the input stream.
#[derive(Debug, Clone, Copy, PartialEq, Eq, Structural)]
pub enum Transaction {
    Deposit { client: ClientId, tx: TransactionId, amount: Amount },
    Withdrawal { client: ClientId, tx: TransactionId, amount: Amount },
    Dispute { client: ClientId, tx: TransactionId },
    Resolve { client: ClientId, tx: TransactionId },
    ChargeBack { client: ClientId, tx: TransactionId },
}

impl Transaction {
    /// The client that the transaction belongs to.
    pub open spec fn spec_client(&self) -> ClientId {
        match *self {
            Transaction::Deposit { client, .. } => client,
            Transaction::Withdrawal { client, .. } => client,
            Transaction::Dispute { client, .. } => client,
            Transaction::Resolve { client, .. } => client,
            Transaction::ChargeBack { client, .. } => client,
        }
    }

    /// The identifier that the transaction carries: its own for a deposit or
    /// a withdrawal, that of the deposit it refers to otherwise.
    pub open spec fn spec_tx(&self) -> TransactionId {
        match *self {
            Transaction::Deposit { tx, .. } => tx,
            Transaction::Withdrawal { tx, .. } => tx,
            Transaction::Dispute { tx, .. } => tx,
            Transaction::Resolve { tx, .. } => tx,
            Transaction::ChargeBack { tx, .. } => tx,
        }
    }

    /// Returns the [`ClientId`] of this transaction.
    #[verifier::when_used_as_spec(spec_client)]
    pub fn client(&self) -> (c: ClientId)
        ensures
            c == self.spec_client(),
    {
        match *self {
            Transaction::Deposit { client, .. }
            | Transaction::Withdrawal { client, .. }
            | Transaction::Dispute { client, .. }
            | Transaction::Resolve { client, .. }
            | Transaction::ChargeBack { client, .. } => client,
        }
    }

    /// Returns the identifier that this transaction carries.
    #[verifier::when_used_as_spec(spec_tx)]
    pub fn tx(&self) -> (t: TransactionId)
        ensures
            t == self.spec_tx(),
    {
        match *self {
            Transaction::Deposit { tx, .. }
            | Transaction::Withdrawal { tx, .. }
            | Transaction::Dispute { tx, .. }
            | Transaction::Resolve { tx, .. }
            | Transaction::ChargeBack { tx, .. } => tx,
        }
    }
}

/// The final summary of one client's account.
#[derive(Debug, Clone, Copy, PartialEq, Eq, Structural)]
pub struct Output {
    pub client: ClientId,
    pub available: Amount,
    pub held: Amount,
    /// `available + held`, in [`Amount`] units. It is wider than an
    /// [`Amount`] so that the sum is exact for every pair of balances.
    pub total: i128,
    pub locked: bool,
}

/// The kinds of transaction, as the first field of a record names them.
#[derive(Debug, Clone, Copy, PartialEq, Eq, Structural)]
pub enum TransactionType {
    Deposit,
    Withdrawal,
    Dispute,
    Resolve,
    ChargeBack,
}

impl TransactionType {
    /// The word that names the kind in a record.
    pub open spec fn word(self) -> Seq<char> {
        match self {
            TransactionType::Deposit => "deposit"@,
            TransactionType::Withdrawal => "withdrawal"@,
            TransactionType::Dispute => "dispute"@,
            TransactionType::Resolve => "resolve"@,
            TransactionType::ChargeBack => "chargeback"@,
        }
    }

    /// The kind that `field` names, if it is the word of one, letter for
    /// letter.
    pub open spec fn of_word(field: Seq<u8>) -> Option<TransactionType> {
        if field == ascii(TransactionType::Deposit.word()) {
            Some(TransactionType::Deposit)
        } else if field == ascii(TransactionType::Withdrawal.word()) {
            Some(TransactionType::Withdrawal)
        } else if field == ascii(TransactionType::Dispute.word()) {
            Some(TransactionType::Dispute)
        } else if field == ascii(TransactionType::Resolve.word()) {
            Some(TransactionType::Resolve)
        } else if field == ascii(TransactionType::ChargeBack.word()) {
            Some(TransactionType::ChargeBack)
        } else {
            None
        }
    }

    /// Returns the word that names the kind in a record.
    pub fn name(&self) -> (word: &'static str)
        ensures
            word@ == self.word(),
            word.is_ascii(),
    {
        proof {
            reveal_strlit("deposit");
            reveal_strlit("withdrawal");
            reveal_strlit("dispute");
            reveal_strlit("resolve");
            reveal_strlit("chargeback");
        }
        match self {
            TransactionType::Deposit => "deposit",
            TransactionType::Withdrawal => "withdrawal",
            TransactionType::Dispute => "dispute",
            TransactionType::Resolve => "resolve",
            TransactionType::ChargeBack => "chargeback",
        }
    }

    /// Returns the kind that `field` names.
    pub fn from_word(field: &[u8]) -> (kind: Option<TransactionType>)
        ensures
            kind == TransactionType::of_word(field@),
    {
        if equals_word(field, TransactionType::Deposit.name()) {
            Some(TransactionType::Deposit)
        } else if equals_word(field, TransactionType::Withdrawal.name()) {
            Some(TransactionType::Withdrawal)
        } else if equals_word(field, TransactionType::Dispute.name()) {
            Some(TransactionType::Dispute)
        } else if equals_word(field, TransactionType::Resolve.name()) {
            Some(TransactionType::Resolve)
        } else if equals_word(field, TransactionType::ChargeBack.name()) {
            Some(TransactionType::ChargeBack)
        } else {
            None
        }
    }
}

/// The fields of a record.
#[derive(Debug, Clone, Copy, PartialEq, Eq, Structural)]
pub enum Field {
    Type,
    Client,
    Tx,
    Amount,
}

impl Field {
    /// The name of the field, as the header of the records gives it.
    pub open spec fn word(self) -> Seq<char> {
        match self {
            Field::Type => "type"@,
            Field::Client => "client"@,
            Field::Tx => "tx"@,
            Field::Amount => "amount"@,
        }
    }

    /// Returns the name of the field.
    pub fn name(&self) -> (word: &'static str)
        ensures
            word@ == self.word(),
    {
        match self {
            Field::Type => "type",
            Field::Client => "client",
            Field::Tx => "tx",
            Field::Amount => "amount",
        }
    }
}

/// Why a line is no record: the first field that is missing or invalid,
/// and the number of the line.
#[derive(Debug, Clone, Copy, PartialEq, Eq, Structural)]
pub struct ParseError {
    pub field: Field,
    pub line: usize,
}

/// The text of a message that says which field of which line is missing
/// or invalid.
pub open spec fn field_error_text(field: Seq<char>, i: nat) -> Seq<char> {
    "Missing or invalid "@ + field + " in line "@ + decimal(i)
}

/// Returns the message for a `field` that is missing or invalid in line `i`.
pub fn field_error(field: &str, i: usize) -> (message: String)
    ensures
        message@ == field_error_text(field@, i as nat),
{
    let mut message = String::from_str("Missing or invalid ");
    message.append(field);
    message.append(" in line ");
    append_decimal(&mut message, i as u128);
    message
}

impl ParseError {
    /// Returns the message of the error.
    pub fn message(&self) -> (message: String)
        ensures
            message@ == field_error_text(self.field.word(), self.line as nat),
    {
        field_error(self.field.name(), self.line)
    }
}

/// The `k`-th field of `line`, without the white space around it.
pub open spec fn trimmed_field(line: Seq<u8>, k: nat) -> Option<Seq<u8>> {
    match nth_field(line, k) {
        Some(field) => Some(trim(field)),
        None => None,
    }
}

/// The kind that the first field of `line` names.
pub open spec fn record_type(line: Seq<u8>) -> Option<TransactionType> {
    match trimmed_field(line, 0) {
        Some(field) => TransactionType::of_word(field),
        None => None,
    }
}

/// The number that the `k`-th field of `line` begins with, up to `max`.
pub open spec fn record_number(line: Seq<u8>, k: nat, max: nat) -> Option<nat> {
    match trimmed_field(line, k) {
        Some(field) => atoi_value(field, max),
        None => None,
    }
}

/// The amount that the fourth field of `line` writes.
pub open spec fn record_amount(line: Seq<u8>) -> Option<Amount> {
    match trimmed_field(line, 3) {
        Some(field) => match amount_units(field) {
            Some(units) => Some(Amount(units)),
            None => None,
        },
        None => None,
    }
}

/// The transaction that `line` writes, or the first of its fields that is
/// missing or invalid, with the line number `i`.
///
/// The fields are parted by commas and may have white space around them:
/// the kind, the client, the transaction and, for a deposit or a
/// withdrawal, the amount. What follows the fields that the kind asks for
/// is ignored.
pub open spec fn record(line: Seq<u8>, i: usize) -> Result<Transaction, ParseError> {
    match record_type(line) {
        None => Err(ParseError { field: Field::Type, line: i }),
        Some(kind) => match record_number(line, 1, u16::MAX as nat) {
            None => Err(ParseError { field: Field::Client, line: i }),
            Some(c) => match record_number(line, 2, u32::MAX as nat) {
                None => Err(ParseError { field: Field::Tx, line: i }),
                Some(t) => {
                    let client = ClientId(c as u16);
                    let tx = TransactionId(t as u32);
                    match kind {
                        TransactionType::Dispute => Ok(Transaction::Dispute { client, tx }),
                        TransactionType::Resolve => Ok(Transaction::Resolve { client, tx }),
                        TransactionType::ChargeBack => Ok(Transaction::ChargeBack { client, tx }),
                        TransactionType::Deposit => match record_amount(line) {
                            Some(amount) => Ok(Transaction::Deposit { client, tx, amount }),
                            None => Err(ParseError { field: Field::Amount, line: i }),
                        },
                        TransactionType::Withdrawal => match record_amount(line) {
                            Some(amount) => Ok(Transaction::Withdrawal { client, tx, amount }),
                            None => Err(ParseError { field: Field::Amount, line: i }),
                        },
                    }
                },
            },
        },
    }
}

/// The `k`-th field of `line` without the white space around it.
fn trimmed_slice(line: &[u8], k: usize) -> (field: Option<&[u8]>)
    ensures
        match field {
            Some(f) => trimmed_field(line@, k as nat) == Some(f@),
            None => trimmed_field(line@, k as nat) is None,
        },
{
    match field_range(line, k) {
        Some((lo, hi)) => {
            let (a, b) = trim_range(line, lo, hi);
            Some(slice_subrange(line, a, b))
        },
        None => None,
    }
}

/// Reads the number that the `k`-th field of `line` begins with, if it is
/// no more than `max`.
fn read_number(line: &[u8], k: usize, max: u32) -> (n: Option<u32>)
    ensures
        match n {
            Some(v) => record_number(line@, k as nat, max as nat) == Some(v as nat),
            None => record_number(line@, k as nat, max as nat) is None,
        },
{
    match trimmed_slice(line, k) {
        Some(field) => match atoi_u32(field) {
            Some(v) => if v <= max {
                Some(v)
            } else {
                None
            },
            None => None,
        },
        None => None,
    }
}

/// Reads the amount that the fourth field of `line` writes.
fn read_amount(line: &[u8]) -> (amount: Option<Amount>)
    ensures
        amount == record_amount(line@),
{
    match trimmed_slice(line, 3) {
        Some(field) => match parse_units(field) {
            Some(units) => Some(Amount(units)),
            None => None,
        },
        None => None,
    }
}

/// Reads the transaction that the bytes of a line write.
fn read_record(line: &[u8], i: usize) -> (r: Result<Transaction, ParseError>)
    ensures
        r == record(line@, i),
{
    let kind = match trimmed_slice(line, 0) {
        Some(field) => TransactionType::from_word(field),
        None => None,
    };
    let kind = match kind {
        Some(kind) => kind,
        None => {
            return Err(ParseError { field: Field::Type, line: i });
        },
    };
    let client = match read_number(line, 1, 0xffff) {
        Some(c) => ClientId(c as u16),
        None => {
            return Err(ParseError { field: Field::Client, line: i });
        },
    };
    let tx = match read_number(line, 2, 0xffff_ffff) {
        Some(t) => TransactionId(t),
        None => {
            return Err(ParseError { field: Field::Tx, line: i });
        },
    };
    match kind {
        TransactionType::Dispute => Ok(Transaction::Dispute { client, tx }),
        TransactionType::Resolve => Ok(Transaction::Resolve { client, tx }),
        TransactionType::ChargeBack => Ok(Transaction::ChargeBack { client, tx }),
        TransactionType::Deposit => match read_amount(line) {
            Some(amount) => Ok(Transaction::Deposit { client, tx, amount }),
            None => Err(ParseError { field: Field::Amount, line: i }),
        },
        TransactionType::Withdrawal => match read_amount(line) {
            Some(amount) => Ok(Transaction::Withdrawal { client, tx, amount }),
            None => Err(ParseError { field: Field::Amount, line: i }),
        },
    }
}

/// Reads the transaction that `line` writes, or says which field of it is
/// missing or invalid. `i` is the number of the line, for the error.
pub fn parse_line(line: &str, i: usize) -> (r: Result<Transaction, ParseError>)
    ensures
        r == record(line.spec_bytes(), i),
{
    read_record(line.as_bytes(), i)
}

/// The records that the lines of `input` write, the first of them
/// numbered `i`. A line ends at a line feed or at the end of the input; no
/// line follows the last line feed.
pub open spec fn records_from(input: Seq<u8>, i: nat) -> Seq<Result<Transaction, ParseError>>
    decreases input.len(),
{
    let end = first_index(input, '\n' as u8);
    let line = #[verifier::truncate]
    (i as usize);
    if input.len() == 0 {
        Seq::empty()
    } else if 0 <= end < input.len() {
        seq![record(input.take(end), line)] + records_from(input.skip(end + 1), i + 1)
    } else {
        seq![record(input, line)]
    }
}

/// The records of `input`: those of its lines but the first, which is the
/// header and line 0.
pub open spec fn records(input: Seq<u8>) -> Seq<Result<Transaction, ParseError>> {
    let end = first_index(input, '\n' as u8);
    if 0 <= end < input.len() {
        records_from(input.skip(end + 1), 1)
    } else {
        Seq::empty()
    }
}

/// Reads the transactions of a text of records: a header line, then one
/// record to the line. A line that is no record gives an error in its
/// place, and the lines after it are still read.
pub fn parse(input: &str) -> (rs: Vec<Result<Transaction, ParseError>>)
    ensures
        rs@ == records(input.spec_bytes()),
{
    let bytes = input.as_bytes();
    let n = bytes.len();
    let mut rs: Vec<Result<Transaction, ParseError>> = Vec::new();
    let header_end = find_byte(bytes, 0, '\n' as u8);
    proof {
        assert(bytes@.skip(0) =~= bytes@);
        lemma_first_index(bytes@, '\n' as u8);
    }
    if header_end >= n {
        return rs;
    }
    let mut pos: usize = header_end + 1;
    let mut i: usize = 1;
    while pos < n
        invariant
            n == bytes.len(),
            1 <= i <= pos <= n,
            records(bytes@) == rs@ + records_from(bytes@.skip(pos as int), i as nat),
        decreases n - pos,
    {
        let end = find_byte(bytes, pos, '\n' as u8);
        let r = read_record(slice_subrange(bytes, pos, end), i);
        proof {
            let rest = bytes@.skip(pos as int);
            lemma_first_index(rest, '\n' as u8);
            assert(rest.take(end - pos) =~= bytes@.subrange(pos as int, end as int));
            if end < n {
                assert(rest.skip(end - pos + 1) =~= bytes@.skip(end + 1));
                assert(rs@.push(r) + records_from(bytes@.skip(end + 1), (i + 1) as nat) =~= rs@ + (
                seq![r] + records_from(bytes@.skip(end + 1), (i + 1) as nat)));
            } else {
                assert(rest.take(end - pos) =~= rest);
                assert(bytes@.skip(n as int) =~= Seq::<u8>::empty());
                assert(rs@.push(r) + Seq::<Result<Transaction, ParseError>>::empty() =~= rs@
                    + seq![r]);
            }
        }
        rs.push(r);
        if end < n {
            pos = end + 1;
            i = i + 1;
        } else {
            pos = n;
        }
    }
    proof {
        assert(bytes@.skip(n as int) =~= Seq::<u8>::empty());
        assert(rs@ + Seq::<Result<Transaction, ParseError>>::empty() =~= rs@);
    }
    rs
}

impl Transaction {
    /// The kind of the transaction.
    pub open spec fn spec_kind(&self) -> TransactionType {
        match *self {
            Transaction::Deposit { .. } => TransactionType::Deposit,
            Transaction::Withdrawal { .. } => TransactionType::Withdrawal,
            Transaction::Dispute { .. } => TransactionType::Dispute,
            Transaction::Resolve { .. } => TransactionType::Resolve,
            Transaction::ChargeBack { .. } => TransactionType::ChargeBack,
        }
    }

    /// The text of the amount in a record of the transaction: empty where
    /// the transaction carries none.
    pub open spec fn amount_field(&self) -> Seq<char> {
        match *self {
            Transaction::Deposit { amount, .. } => amount_text(amount@),
            Transaction::Withdrawal { amount, .. } => amount_text(amount@),
            _ => Seq::empty(),
        }
    }

    /// The record of the transaction: kind, client, transaction and amount,
    /// with a comma between each two.
    pub open spec fn csv_text(&self) -> Seq<char> {
        self.spec_kind().word() + seq![','] + decimal(self.spec_client().0 as nat) + seq![',']
            + decimal(self.spec_tx().0 as nat) + seq![','] + self.amount_field()
    }

    /// Returns the kind of this transaction.
    #[verifier::when_used_as_spec(spec_kind)]
    pub fn kind(&self) -> (k: TransactionType)
        ensures
            k == self.spec_kind(),
    {
        match self {
            Transaction::Deposit { .. } => TransactionType::Deposit,
            Transaction::Withdrawal { .. } => TransactionType::Withdrawal,
            Transaction::Dispute { .. } => TransactionType::Dispute,
            Transaction::Resolve { .. } => TransactionType::Resolve,
            Transaction::ChargeBack { .. } => TransactionType::ChargeBack,
        }
    }

    /// Returns the header line of a text of records.
    pub fn header() -> (h: &'static str)
        ensures
            h@ == "type, client, tx, amount"@,
    {
        "type, client, tx, amount"
    }

    /// Returns the record of this transaction, without a line feed.
    pub fn to_csv(&self) -> (line: String)
        ensures
            line@ == self.csv_text(),
            line.is_ascii(),
    {
        proof {
            reveal_strlit(",");
            lemma_csv_text_is_ascii(*self);
        }
        let mut line = String::from_str(self.kind().name());
        line.append(",");
        append_decimal(&mut line, self.client().0 as u128);
        line.append(",");
        append_decimal(&mut line, self.tx().0 as u128);
        line.append(",");
        match self {
            Transaction::Deposit { amount, .. } => append_units(&mut line, amount.0 as i128),
            Transaction::Withdrawal { amount, .. } => append_units(&mut line, amount.0 as i128),
            _ => {},
        }
        assert(line@ =~= self.csv_text());
        line
    }
}

impl Output {
    /// The total in decimal, as [`Amount::to_text`] writes an amount.
    pub fn total_text(&self) -> (text: String)
        ensures
            text@ == amount_text(self.total as int),
    {
        let mut text = String::new();
        append_units(&mut text, self.total);
        assert(text@ =~= amount_text(self.total as int));
        text
    }
}

/// `s` holds neither a comma nor white space.
pub open spec fn plain(s: Seq<u8>) -> bool {
    forall|i: int| 0 <= i < s.len() ==> (#[trigger] s[i]) != ',' as u8 && !is_space(s[i])
}

/// A plain text is a field as it stands: nothing is trimmed off it, and
/// the first comma that may follow it ends it.
pub proof fn lemma_plain_is_a_field(s: Seq<u8>, rest: Seq<u8>)
    requires
        plain(s),
    ensures
        trim(s) == s,
        first_index(s, ',' as u8) == s.len(),
        first_index(s + seq![',' as u8] + rest, ',' as u8) == s.len(),
    decreases s.len(),
{
    let comma = ',' as u8;
    let line = s + seq![comma] + rest;
    if s.len() == 0 {
        assert(line[0] == comma);
    } else {
        assert(!is_space(s[0]) && !is_space(s.last()));
        assert(line[0] == s[0]);
        assert(line.drop_first() =~= s.drop_first() + seq![comma] + rest);
        assert forall|i: int| 0 <= i < s.drop_first().len() implies (#[trigger] s.drop_first()[i])
            != comma && !is_space(s.drop_first()[i]) by {
            assert(s.drop_first()[i] == s[i + 1]);
        }
        lemma_plain_is_a_field(s.drop_first(), rest);
    }
}

/// Digits are plain.
pub proof fn lemma_digits_are_plain(s: Seq<u8>)
    requires
        all_digits(s),
    ensures
        plain(s),
{
    assert forall|i: int| 0 <= i < s.len() implies (#[trigger] s[i]) != ',' as u8 && !is_space(
        s[i],
    ) by {
        assert(is_digit(s[i]));
    }
}

/// The text of an amount is plain.
pub proof fn lemma_amount_text_is_plain(units: int)
    ensures
        plain(ascii(amount_text(units))),
{
    let magnitude: nat = if units < 0 {
        (-units) as nat
    } else {
        units as nat
    };
    let whole = ascii(decimal(magnitude / 10_000));
    let n = magnitude % 10_000;
    let places = if n == 0 {
        Seq::<u8>::empty()
    } else {
        ascii(fraction_text(n, 4))
    };
    let fraction = if n == 0 {
        Seq::<u8>::empty()
    } else {
        seq!['.' as u8] + places
    };
    let sign = if units < 0 {
        seq!['-' as u8]
    } else {
        Seq::<u8>::empty()
    };
    let text = ascii(amount_text(units));
    reveal_with_fuel(pow10, 5);
    lemma_decimal_reads_back(magnitude / 10_000);
    if n != 0 {
        lemma_fraction_reads_back(n, 4);
    }
    assert(text =~= sign + whole + fraction);
    assert forall|i: int| 0 <= i < text.len() implies (#[trigger] text[i]) != ',' as u8
        && !is_space(text[i]) by {
        if i < sign.len() {
            assert(text[i] == '-' as u8);
        } else if i < sign.len() + whole.len() {
            assert(text[i] == whole[i - sign.len()]);
            assert(is_digit(whole[i - sign.len()]));
        } else if i == sign.len() + whole.len() {
            assert(text[i] == '.' as u8);
        } else {
            assert(text[i] == places[i - sign.len() - whole.len() - 1]);
            assert(is_digit(places[i - sign.len() - whole.len() - 1]));
        }
    }
}

/// The word of a kind is plain and names that kind alone.
pub proof fn lemma_word_names_its_kind(kind: TransactionType)
    ensures
        plain(ascii(kind.word())),
        TransactionType::of_word(ascii(kind.word())) == Some(kind),
{
    reveal_strlit("deposit");
    reveal_strlit("withdrawal");
    reveal_strlit("dispute");
    reveal_strlit("resolve");
    reveal_strlit("chargeback");
    let deposit = ascii(TransactionType::Deposit.word());
    let withdrawal = ascii(TransactionType::Withdrawal.word());
    let dispute = ascii(TransactionType::Dispute.word());
    let resolve = ascii(TransactionType::Resolve.word());
    let chargeback = ascii(TransactionType::ChargeBack.word());
    assert(deposit.len() == 7 && deposit[1] == 'e' as u8);
    assert(withdrawal.len() == 10 && withdrawal[0] == 'w' as u8);
    assert(dispute.len() == 7 && dispute[1] == 'i' as u8);
    assert(resolve.len() == 7 && resolve[0] == 'r' as u8 && resolve[1] == 'e' as u8);
    assert(chargeback.len() == 10 && chargeback[0] == 'c' as u8);
    assert(deposit[0] == 'd' as u8);
    let word = ascii(kind.word());
    assert forall|i: int| 0 <= i < word.len() implies (#[trigger] word[i]) != ',' as u8
        && !is_space(word[i]) by {
        let c = kind.word()[i];
        assert(word[i] == c as u8);
        assert('a' <= c <= 'z');
    }
}

/// A decimal numeral reads as its number, up to `max`.
pub proof fn lemma_decimal_is_read_by_atoi(n: nat, max: nat)
    requires
        n <= max,
    ensures
        atoi_value(ascii(decimal(n)), max) == Some(n),
        plain(ascii(decimal(n))),
{
    let text = ascii(decimal(n));
    lemma_decimal_reads_back(n);
    lemma_digits_are_plain(text);
    assert(is_digit(text[0]));
    assert(unsigned_part(text) == text);
    lemma_digit_run_of_digits(text, Seq::empty());
    assert(text + Seq::<u8>::empty() =~= text);
    assert(text.take(text.len() as int) =~= text);
}

/// A plain text before a comma is the first field of a line, and the
/// fields of what follows the comma are the further fields.
pub proof fn lemma_first_field(s: Seq<u8>, rest: Seq<u8>, k: nat)
    requires
        plain(s),
    ensures
        nth_field(s + seq![',' as u8] + rest, 0) == Some(s),
        k >= 1 ==> nth_field(s + seq![',' as u8] + rest, k) == nth_field(rest, (k - 1) as nat),
{
    let line = s + seq![',' as u8] + rest;
    lemma_plain_is_a_field(s, rest);
    assert(line.take(s.len() as int) =~= s);
    assert(line.skip(s.len() as int + 1) =~= rest);
}

/// Four plain texts with commas between them are the four fields of the
/// line that they make, as they stand.
pub proof fn lemma_four_fields(a: Seq<u8>, b: Seq<u8>, c: Seq<u8>, d: Seq<u8>)
    requires
        plain(a),
        plain(b),
        plain(c),
        plain(d),
    ensures
        ({
            let comma = seq![',' as u8];
            let line = a + comma + (b + comma + (c + comma + d));
            &&& trimmed_field(line, 0) == Some(a)
            &&& trimmed_field(line, 1) == Some(b)
            &&& trimmed_field(line, 2) == Some(c)
            &&& trimmed_field(line, 3) == Some(d)
        }),
{
    let comma = seq![',' as u8];
    let from_c = c + comma + d;
    let from_b = b + comma + from_c;
    let line = a + comma + from_b;
    lemma_plain_is_a_field(a, Seq::empty());
    lemma_plain_is_a_field(b, Seq::empty());
    lemma_plain_is_a_field(c, Seq::empty());
    lemma_plain_is_a_field(d, Seq::empty());
    assert(d.take(d.len() as int) =~= d);
    assert(nth_field(d, 0) == Some(d));
    lemma_first_field(c, d, 0);
    lemma_first_field(c, d, 1);
    lemma_first_field(b, from_c, 0);
    lemma_first_field(b, from_c, 1);
    lemma_first_field(b, from_c, 2);
    lemma_first_field(a, from_b, 0);
    lemma_first_field(a, from_b, 1);
    lemma_first_field(a, from_b, 2);
    lemma_first_field(a, from_b, 3);
}

/// What is written is read back: the record of a transaction is a line
/// that writes just that transaction.
pub proof fn lemma_record_reads_back(t: Transaction, i: usize)
    ensures
        record(ascii(t.csv_text()), i) == Ok::<Transaction, ParseError>(t),
{
    let comma = seq![',' as u8];
    let word = ascii(t.spec_kind().word());
    let client = ascii(decimal(t.spec_client().0 as nat));
    let tx = ascii(decimal(t.spec_tx().0 as nat));
    let amount = ascii(t.amount_field());
    let line = ascii(t.csv_text());
    assert(line =~= word + comma + (client + comma + (tx + comma + amount)));
    lemma_word_names_its_kind(t.spec_kind());
    lemma_decimal_is_read_by_atoi(t.spec_client().0 as nat, u16::MAX as nat);
    lemma_decimal_is_read_by_atoi(t.spec_tx().0 as nat, u32::MAX as nat);
    match t {
        Transaction::Deposit { amount: a, .. } => {
            lemma_amount_text_is_plain(a@);
            lemma_amount_text_reads_back(a.0);
        },
        Transaction::Withdrawal { amount: a, .. } => {
            lemma_amount_text_is_plain(a@);
            lemma_amount_text_reads_back(a.0);
        },
        _ => {
            assert(amount =~= Seq::<u8>::empty());
        },
    }
    lemma_four_fields(word, client, tx, amount);
    assert(record_type(line) == Some(t.spec_kind()));
    assert(record_number(line, 1, u16::MAX as nat) == Some(t.spec_client().0 as nat));
    assert(record_number(line, 2, u32::MAX as nat) == Some(t.spec_tx().0 as nat));
}

/// The record of a transaction is a text of ASCII characters: its bytes
/// are its characters, one for one.
pub proof fn lemma_csv_text_is_ascii(t: Transaction)
    ensures
        is_ascii_chars(t.csv_text()),
{
    reveal_strlit("deposit");
    reveal_strlit("withdrawal");
    reveal_strlit("dispute");
    reveal_strlit("resolve");
    reveal_strlit("chargeback");
    lemma_decimal_is_ascii(t.spec_client().0 as nat);
    lemma_decimal_is_ascii(t.spec_tx().0 as nat);
    match t {
        Transaction::Deposit { amount, .. } => lemma_amount_text_is_ascii(amount@),
        Transaction::Withdrawal { amount, .. } => lemma_amount_text_is_ascii(amount@),
        _ => {},
    }
    assert(is_ascii_chars(t.spec_kind().word()));
}

} // verus!
