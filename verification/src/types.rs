//! Core domain types: the event ([`Transaction`]) and its identifiers.
//!
//! `Transaction` is a data-carrying enum, so the amount exists only on the
//! variants that have one: a dispute cannot hold an amount, and a deposit cannot
//! lack one. Parsing the fields of a record into a `Transaction` lives here, so
//! the engine never touches CSV.

use vstd::prelude::*;
use vstd::slice::slice_subrange;
use vstd::string::*;
use vstd::utf8::decode_utf8;
use vstd::utf8::valid_utf8;

use crate::amount::Amount;
use crate::decimal::number_of;
use crate::error::EngineError;
use crate::number::Number;

verus! {

/// The most decimal places an amount may have.
pub const MAX_SCALE: u32 = 4;

/// The number of columns: `type, client, tx, amount`.
pub const COLUMNS: usize = 4;

/// A client identifier. A distinct newtype so it can't be confused with a
/// [`TxId`] or used as an arithmetic operand.
#[derive(Debug, Clone, Copy, PartialEq, Eq, Hash, Structural)]
pub struct ClientId(pub u16);

/// A globally-unique transaction identifier. Used purely as an identity key
/// (dedup, ledger lookup), never for ordering, since ids are unordered.
#[derive(Debug, Clone, Copy, PartialEq, Eq, Hash, Structural)]
pub struct TxId(pub u32);

/// The kind of a recorded value event: the only events a dispute can reference.
/// Narrower than [`Transaction`]: the dispute lifecycle is never recorded, so it
/// can't appear here.
#[derive(Debug, Clone, Copy, PartialEq, Eq, Structural)]
pub enum ValueKind {
    Deposit,
    Withdrawal,
}

/// A single event from the input stream. Deposits and withdrawals carry an
/// amount; the dispute lifecycle references a prior transaction by id only.
#[derive(Debug, Clone, Copy, PartialEq, Eq)]
pub enum Transaction {
    Deposit { client: ClientId, tx: TxId, amount: Amount },
    Withdrawal { client: ClientId, tx: TxId, amount: Amount },
    Dispute { client: ClientId, tx: TxId },
    Resolve { client: ClientId, tx: TxId },
    Chargeback { client: ClientId, tx: TxId },
}

/// What a [`Transaction`] says, with its amount as a mathematical number.
pub enum Event {
    Deposit { client: ClientId, tx: TxId, amount: Number },
    Withdrawal { client: ClientId, tx: TxId, amount: Number },
    Dispute { client: ClientId, tx: TxId },
    Resolve { client: ClientId, tx: TxId },
    Chargeback { client: ClientId, tx: TxId },
}

impl Event {
    /// The client the event is about.
    pub open spec fn client(self) -> ClientId {
        match self {
            Event::Deposit { client, .. } => client,
            Event::Withdrawal { client, .. } => client,
            Event::Dispute { client, .. } => client,
            Event::Resolve { client, .. } => client,
            Event::Chargeback { client, .. } => client,
        }
    }

    /// The transaction the event introduces or refers to.
    pub open spec fn tx(self) -> TxId {
        match self {
            Event::Deposit { tx, .. } => tx,
            Event::Withdrawal { tx, .. } => tx,
            Event::Dispute { tx, .. } => tx,
            Event::Resolve { tx, .. } => tx,
            Event::Chargeback { tx, .. } => tx,
        }
    }

    /// Whether the event moves funds in or out: a deposit or a withdrawal.
    pub open spec fn is_value(self) -> bool {
        self is Deposit || self is Withdrawal
    }

    /// The amount of a deposit or withdrawal.
    pub open spec fn amount(self) -> Number {
        match self {
            Event::Deposit { amount, .. } => amount,
            Event::Withdrawal { amount, .. } => amount,
            _ => Number::zero(),
        }
    }

    /// Whether the amount of the event, if it has one, is one that a decimal can
    /// carry.
    pub open spec fn fits(self) -> bool {
        self.amount().fits()
    }
}

impl View for Transaction {
    type V = Event;

    open spec fn view(&self) -> Event {
        match *self {
            Transaction::Deposit { client, tx, amount } => Event::Deposit {
                client,
                tx,
                amount: amount@,
            },
            Transaction::Withdrawal { client, tx, amount } => Event::Withdrawal {
                client,
                tx,
                amount: amount@,
            },
            Transaction::Dispute { client, tx } => Event::Dispute { client, tx },
            Transaction::Resolve { client, tx } => Event::Resolve { client, tx },
            Transaction::Chargeback { client, tx } => Event::Chargeback { client, tx },
        }
    }
}

/// The columns of one row of input, as raw bytes. A column that the row does not
/// have is `None`.
pub struct Record<'a> {
    pub kind: Option<&'a [u8]>,
    pub client: Option<&'a [u8]>,
    pub tx: Option<&'a [u8]>,
    pub amount: Option<&'a [u8]>,
}

/// What a [`Record`] holds.
pub struct Row {
    pub kind: Option<Seq<u8>>,
    pub client: Option<Seq<u8>>,
    pub tx: Option<Seq<u8>>,
    pub amount: Option<Seq<u8>>,
}

/// The bytes of a column, if the row has it.
pub open spec fn column(field: Option<&[u8]>) -> Option<Seq<u8>> {
    match field {
        Some(bytes) => Some(bytes@),
        None => None,
    }
}

impl<'a> View for Record<'a> {
    type V = Row;

    open spec fn view(&self) -> Row {
        Row {
            kind: column(self.kind),
            client: column(self.client),
            tx: column(self.tx),
            amount: column(self.amount),
        }
    }
}

/// Whether the bytes spell an ASCII word.
pub open spec fn spells(bytes: Seq<u8>, word: Seq<char>) -> bool {
    &&& bytes.len() == word.len()
    &&& forall|i: int| 0 <= i < bytes.len() ==> #[trigger] bytes[i] as int == word[i] as int
}

/// The bytes without a leading plus sign, if they have one.
pub open spec fn without_plus(bytes: Seq<u8>) -> Seq<u8> {
    if bytes.len() > 0 && bytes[0] == 0x2b {
        bytes.skip(1)
    } else {
        bytes
    }
}

/// Whether every byte is an ASCII digit.
pub open spec fn all_digits(bytes: Seq<u8>) -> bool {
    forall|i: int| 0 <= i < bytes.len() ==> 0x30 <= #[trigger] bytes[i] <= 0x39
}

/// The number that ASCII digits spell.
pub open spec fn digit_bytes_value(bytes: Seq<u8>) -> int
    decreases bytes.len(),
{
    if bytes.len() == 0 {
        0
    } else {
        10 * digit_bytes_value(bytes.drop_last()) + (bytes.last() - 0x30)
    }
}

/// The identifier that bytes spell: an optional plus sign and then digits only,
/// at least one, for a number of at most `max`.
pub open spec fn identifier(bytes: Seq<u8>, max: int) -> Option<int> {
    let body = without_plus(bytes);
    if body.len() > 0 && all_digits(body) && digit_bytes_value(body) <= max {
        Some(digit_bytes_value(body))
    } else {
        None
    }
}

/// What the client or transaction column stands for, or why it stands for
/// nothing.
pub open spec fn read_identifier(field: Option<Seq<u8>>, name: Seq<char>, max: int) -> Result<
    int,
    Seq<char>,
> {
    match field {
        None => Err("missing "@ + name),
        Some(bytes) => if !valid_utf8(bytes) {
            Err(name + " is not valid UTF-8"@)
        } else {
            match identifier(bytes, max) {
                Some(n) => Ok(n),
                None => Err("invalid "@ + name + ": "@ + decode_utf8(bytes)),
            }
        },
    }
}

/// The position of the first byte that is `a` or `b`; behind the end where there is
/// none.
pub open spec fn first_of(bytes: Seq<u8>, a: u8, b: u8) -> nat
    decreases bytes.len(),
{
    if bytes.len() == 0 || bytes[0] == a || bytes[0] == b {
        0
    } else {
        1 + first_of(bytes.skip(1), a, b)
    }
}

/// How many of the bytes are ASCII digits.
pub open spec fn count_digits(bytes: Seq<u8>) -> nat
    decreases bytes.len(),
{
    if bytes.len() == 0 {
        0
    } else {
        count_digits(bytes.drop_last()) + if 0x30 <= bytes.last() <= 0x39 {
            1nat
        } else {
            0nat
        }
    }
}

/// The number behind an `e`; zero where there is none.
pub open spec fn exponent(bytes: Seq<u8>) -> int {
    if bytes.len() > 0 && bytes[0] == 0x2d {
        match identifier(bytes.skip(1), u32::MAX as int) {
            Some(n) => -n,
            None => 0,
        }
    } else {
        match identifier(bytes, u32::MAX as int) {
            Some(n) => n,
            None => 0,
        }
    }
}

/// How many decimal places an amount is written with: the digits behind its point,
/// less its exponent, if it has one.
pub open spec fn written_places(bytes: Seq<u8>) -> int {
    let end = first_of(bytes, 0x65, 0x45) as int;
    let base = bytes.take(end);
    let point = first_of(base, 0x2e, 0x2e) as int;
    count_digits(base.skip(point)) - if end < bytes.len() {
        exponent(bytes.skip(end + 1))
    } else {
        0
    }
}

/// What the amount column of a deposit or withdrawal stands for, or why it
/// stands for nothing.
pub open spec fn read_amount(field: Option<Seq<u8>>) -> Result<Number, Seq<char>> {
    match field {
        None => Err("missing amount"@),
        Some(bytes) => if bytes.len() == 0 {
            Err("missing amount"@)
        } else if !valid_utf8(bytes) {
            Err("amount is not valid UTF-8"@)
        } else {
            match number_of(decode_utf8(bytes)) {
                None => Err("invalid amount: "@ + decode_utf8(bytes)),
                Some(n) => if n.scale > MAX_SCALE || written_places(bytes) > MAX_SCALE {
                    Err("amount exceeds 4 dp: "@ + decode_utf8(bytes))
                } else {
                    Ok(n)
                },
            }
        },
    }
}

/// The text that `String::from_utf8_lossy` makes of bytes that are not UTF-8.
pub uninterp spec fn lossy_text(bytes: Seq<u8>) -> Seq<char>;

/// How bytes are shown in a message.
pub open spec fn shown(bytes: Seq<u8>) -> Seq<char> {
    if valid_utf8(bytes) {
        decode_utf8(bytes)
    } else {
        lossy_text(bytes)
    }
}

/// The event that a row states, or the reason why it is malformed. The client is
/// looked at first, then the transaction id, then the type and last the amount,
/// which only a deposit and a withdrawal have.
pub open spec fn read_event(row: Row) -> Result<Event, Seq<char>> {
    match (
        read_identifier(row.client, "client"@, u16::MAX as int),
        read_identifier(row.tx, "tx"@, u32::MAX as int),
    ) {
        (Err(reason), _) => Err(reason),
        (_, Err(reason)) => Err(reason),
        (Ok(c), Ok(t)) => {
            let client = ClientId(c as u16);
            let tx = TxId(t as u32);
            match row.kind {
                None => Err("unknown type: "@ + "<missing>"@),
                Some(kind) => if spells(kind, "deposit"@) {
                    match read_amount(row.amount) {
                        Ok(amount) => Ok(Event::Deposit { client, tx, amount }),
                        Err(reason) => Err(reason),
                    }
                } else if spells(kind, "withdrawal"@) {
                    match read_amount(row.amount) {
                        Ok(amount) => Ok(Event::Withdrawal { client, tx, amount }),
                        Err(reason) => Err(reason),
                    }
                } else if spells(kind, "dispute"@) {
                    Ok(Event::Dispute { client, tx })
                } else if spells(kind, "resolve"@) {
                    Ok(Event::Resolve { client, tx })
                } else if spells(kind, "chargeback"@) {
                    Ok(Event::Chargeback { client, tx })
                } else {
                    Err("unknown type: "@ + shown(kind))
                },
            }
        },
    }
}

/// A field of a record, if it has that many.
pub open spec fn field_at(fields: Seq<Seq<u8>>, i: int) -> Option<Seq<u8>> {
    if i < fields.len() {
        Some(fields[i])
    } else {
        None
    }
}

/// The columns of a record: `type, client, tx, amount`.
pub open spec fn columns(fields: Seq<Seq<u8>>) -> Row {
    Row {
        kind: field_at(fields, 0),
        client: field_at(fields, 1),
        tx: field_at(fields, 2),
        amount: field_at(fields, 3),
    }
}

/// The bytes of each field.
pub open spec fn bytes_of(fields: Seq<&[u8]>) -> Seq<Seq<u8>> {
    fields.map_values(|field: &[u8]| field@)
}

/// The event that the fields of a row state, or the reason why the row is
/// malformed. A row with more fields than there are columns is.
pub open spec fn read_fields(fields: Seq<Seq<u8>>) -> Result<Event, Seq<char>> {
    if fields.len() > COLUMNS {
        Err("too many fields"@)
    } else {
        read_event(columns(fields))
    }
}

/// Whether an error is the one for a record that is malformed for this reason.
pub open spec fn malformed_because(error: EngineError, reason: Seq<char>) -> bool {
    error matches EngineError::Malformed(message) && message@ == reason
}

/// `str::from_utf8`: the text that the bytes encode, or `None` where they are
/// not UTF-8.
#[verifier::external_body]
fn utf8_text(bytes: &[u8]) -> (r: Option<&str>)
    ensures
        match r {
            Some(text) => valid_utf8(bytes@) && text@ == decode_utf8(bytes@),
            None => !valid_utf8(bytes@),
        },
{
    std::str::from_utf8(bytes).ok()
}

/// `String::from_utf8_lossy`: the text that the bytes encode where they are
/// UTF-8. How it marks what is not UTF-8 is left unsaid.
#[verifier::external_body]
fn utf8_lossy(bytes: &[u8]) -> (r: String)
    ensures
        valid_utf8(bytes@) ==> r@ == decode_utf8(bytes@),
        !valid_utf8(bytes@) ==> r@ == lossy_text(bytes@),
{
    String::from_utf8_lossy(bytes).into_owned()
}

/// The error of a malformed record, with a message in two parts.
fn malformed(message: &str, detail: &str) -> (r: EngineError)
    ensures
        malformed_because(r, message@ + detail@),
{
    EngineError::Malformed(message.to_owned().concat(detail))
}

/// Whether the bytes are the given word.
fn is_word(bytes: &[u8], word: &str) -> (r: bool)
    requires
        word.is_ascii(),
    ensures
        r == spells(bytes@, word@),
{
    if bytes.len() != word.unicode_len() {
        return false;
    }
    let mut i: usize = 0;
    while i < bytes.len()
        invariant
            word.is_ascii(),
            i <= bytes@.len(),
            bytes@.len() == word@.len(),
            forall|j: int| 0 <= j < i ==> #[trigger] bytes@[j] as int == word@[j] as int,
        decreases bytes.len() - i,
    {
        if bytes[i] != word.get_ascii(i) {
            return false;
        }
        i += 1;
    }
    true
}

/// Parse a required integer field of at most `max`.
pub fn parse_field(field: Option<&[u8]>, name: &str, max: u32) -> (r: Result<u32, EngineError>)
    ensures
        match (r, read_identifier(column(field), name@, max as int)) {
            (Ok(n), Ok(m)) => n == m,
            (Err(e), Err(reason)) => malformed_because(e, reason),
            _ => false,
        },
{
    let bytes = match field {
        Some(bytes) => bytes,
        None => {
            return Err(malformed("missing ", name));
        },
    };
    let text = match utf8_text(bytes) {
        Some(text) => text,
        None => {
            return Err(malformed(name, " is not valid UTF-8"));
        },
    };
    match parse_digits(bytes, max) {
        Some(n) => Ok(n),
        None => Err(malformed("invalid ".to_owned().concat(name).concat(": ").as_str(), text)),
    }
}

/// The number of at most `max` that the bytes spell, if they spell one.
fn parse_digits(bytes: &[u8], max: u32) -> (r: Option<u32>)
    ensures
        match r {
            Some(n) => identifier(bytes@, max as int) == Some(n as int),
            None => identifier(bytes@, max as int) is None,
        },
{
    let start: usize = if bytes.len() > 0 && bytes[0] == 0x2b {
        1
    } else {
        0
    };
    let ghost body = without_plus(bytes@);
    if bytes.len() == start {
        return None;
    }
    let mut n: u32 = 0;
    let mut i: usize = start;
    while i < bytes.len()
        invariant
            start <= i <= bytes@.len(),
            body == bytes@.skip(start as int),
            body == without_plus(bytes@),
            body.len() > 0,
            all_digits(body.take(i - start)),
            n == digit_bytes_value(body.take(i - start)),
            n <= max,
        decreases bytes.len() - i,
    {
        let b = bytes[i];
        let ghost k = i - start;
        assert(body[k] == b);
        assert(body.take(k + 1).drop_last() == body.take(k));
        if b < 0x30 || b > 0x39 {
            return None;
        }
        let wide: u64 = n as u64 * 10 + (b - 0x30) as u64;
        assert(wide == digit_bytes_value(body.take(k + 1)));
        if wide > max as u64 {
            proof {
                if all_digits(body) {
                    lemma_value_grows(body, k + 1);
                }
            }
            return None;
        }
        n = wide as u32;
        i += 1;
    }
    assert(body.take(i - start) == body);
    Some(n)
}

/// A run of digits spells at least what its beginning spells.
proof fn lemma_value_grows(bytes: Seq<u8>, n: int)
    requires
        all_digits(bytes),
        0 <= n <= bytes.len(),
    ensures
        0 <= digit_bytes_value(bytes.take(n)) <= digit_bytes_value(bytes),
    decreases bytes.len(),
{
    if n == bytes.len() {
        assert(bytes.take(n) == bytes);
        if n > 0 {
            lemma_value_grows(bytes.drop_last(), n - 1);
        }
    } else {
        assert(bytes.drop_last().take(n) == bytes.take(n));
        lemma_value_grows(bytes.drop_last(), n);
    }
}

/// The position of the first byte before `end` that is `a` or `b`, or `end`.
fn find(bytes: &[u8], end: usize, a: u8, b: u8) -> (r: usize)
    requires
        end <= bytes@.len(),
    ensures
        r == first_of(bytes@.take(end as int), a, b),
        r <= end,
{
    let ghost body = bytes@.take(end as int);
    let mut i: usize = 0;
    assert(body.skip(0) == body);
    while i < end && bytes[i] != a && bytes[i] != b
        invariant
            i <= end <= bytes@.len(),
            body == bytes@.take(end as int),
            first_of(body, a, b) == i + first_of(body.skip(i as int), a, b),
        decreases end - i,
    {
        assert(body.skip(i as int).skip(1) == body.skip(i + 1));
        i += 1;
    }
    i
}

/// How many of the bytes from `start` to `end` are digits.
fn digits_between(bytes: &[u8], start: usize, end: usize) -> (r: usize)
    requires
        start <= end <= bytes@.len(),
    ensures
        r == count_digits(bytes@.subrange(start as int, end as int)),
{
    let mut n: usize = 0;
    let mut i: usize = start;
    while i < end
        invariant
            start <= i <= end <= bytes@.len(),
            n == count_digits(bytes@.subrange(start as int, i as int)),
            n <= i - start,
        decreases end - i,
    {
        let ghost longer = bytes@.subrange(start as int, i + 1);
        assert(longer.drop_last() == bytes@.subrange(start as int, i as int));
        if 0x30 <= bytes[i] && bytes[i] <= 0x39 {
            n += 1;
        }
        i += 1;
    }
    n
}

/// Whether an amount is written with more than four decimal places. Reading it may
/// round them away, so they are counted as written.
fn is_too_precise(bytes: &[u8]) -> (r: bool)
    ensures
        r == (written_places(bytes@) > MAX_SCALE),
{
    let end: usize = find(bytes, bytes.len(), 0x65, 0x45);
    assert(bytes@.take(bytes@.len() as int) == bytes@);
    let point: usize = find(bytes, end, 0x2e, 0x2e);
    let places: usize = digits_between(bytes, point, end);
    assert(bytes@.take(end as int).skip(point as int) == bytes@.subrange(point as int, end as int));
    let limit: usize = MAX_SCALE as usize;
    if end == bytes.len() {
        return places > limit;
    }
    let behind = slice_subrange(bytes, end + 1, bytes.len());
    assert(behind@ == bytes@.skip(end + 1));
    if behind.len() > 0 && behind[0] == 0x2d {
        let digits = slice_subrange(behind, 1, behind.len());
        assert(digits@ == behind@.skip(1));
        match parse_digits(digits, u32::MAX) {
            Some(n) => places > limit || n as usize > limit - places,
            None => places > limit,
        }
    } else {
        match parse_digits(behind, u32::MAX) {
            Some(n) => places > limit && places - limit > n as usize,
            None => places > limit,
        }
    }
}

/// Parse the (required) amount column of a deposit or withdrawal. Absent, empty
/// or beyond 4 dp is malformed.
fn require_amount(field: Option<&[u8]>) -> (r: Result<Amount, EngineError>)
    ensures
        match (r, read_amount(column(field))) {
            (Ok(amount), Ok(n)) => amount@ == n && n.fits(),
            (Err(e), Err(reason)) => malformed_because(e, reason),
            _ => false,
        },
{
    let bytes = match field {
        Some(bytes) => bytes,
        None => {
            return Err(EngineError::Malformed("missing amount".to_owned()));
        },
    };
    if bytes.len() == 0 {
        return Err(EngineError::Malformed("missing amount".to_owned()));
    }
    let text = match utf8_text(bytes) {
        Some(text) => text,
        None => {
            return Err(EngineError::Malformed("amount is not valid UTF-8".to_owned()));
        },
    };
    match Amount::parse(text) {
        None => Err(malformed("invalid amount: ", text)),
        Some(amount) => if amount.scale() > MAX_SCALE || is_too_precise(bytes) {
            Err(malformed("amount exceeds 4 dp: ", text))
        } else {
            Ok(amount)
        },
    }
}

/// The field of a row at a position, if it has that many.
fn field<'a>(fields: &[&'a [u8]], i: usize) -> (r: Option<&'a [u8]>)
    ensures
        column(r) == field_at(bytes_of(fields@), i as int),
{
    if i < fields.len() {
        Some(fields[i])
    } else {
        None
    }
}

impl Transaction {
    /// Parse the fields of a row. The dispute lifecycle may omit the amount, but no
    /// row may have more fields than there are columns.
    pub fn from_fields(fields: &[&[u8]]) -> (r: Result<Transaction, EngineError>)
        ensures
            match (r, read_fields(bytes_of(fields@))) {
                (Ok(transaction), Ok(event)) => transaction@ == event && event.fits(),
                (Err(e), Err(reason)) => malformed_because(e, reason),
                _ => false,
            },
    {
        if fields.len() > COLUMNS {
            return Err(EngineError::Malformed("too many fields".to_owned()));
        }
        Transaction::try_from(
            &Record {
                kind: field(fields, 0),
                client: field(fields, 1),
                tx: field(fields, 2),
                amount: field(fields, 3),
            },
        )
    }

    /// Parse a `type, client, tx, amount` record. Deposits and withdrawals
    /// require an amount, the dispute lifecycle ignores the column.
    pub fn try_from(record: &Record) -> (r: Result<Transaction, EngineError>)
        ensures
            match (r, read_event(record@)) {
                (Ok(transaction), Ok(event)) => transaction@ == event && event.fits(),
                (Err(e), Err(reason)) => malformed_because(e, reason),
                _ => false,
            },
    {
        let client = match parse_field(record.client, "client", u16::MAX as u32) {
            Ok(n) => ClientId(n as u16),
            Err(e) => {
                return Err(e);
            },
        };
        let tx = match parse_field(record.tx, "tx", u32::MAX) {
            Ok(n) => TxId(n),
            Err(e) => {
                return Err(e);
            },
        };
        let kind = match record.kind {
            Some(kind) => kind,
            None => {
                return Err(malformed("unknown type: ", "<missing>"));
            },
        };
        proof {
            reveal_strlit("deposit");
            reveal_strlit("withdrawal");
            reveal_strlit("dispute");
            reveal_strlit("resolve");
            reveal_strlit("chargeback");
        }
        if is_word(kind, "deposit") {
            match require_amount(record.amount) {
                Ok(amount) => Ok(Transaction::Deposit { client, tx, amount }),
                Err(e) => Err(e),
            }
        } else if is_word(kind, "withdrawal") {
            match require_amount(record.amount) {
                Ok(amount) => Ok(Transaction::Withdrawal { client, tx, amount }),
                Err(e) => Err(e),
            }
        } else if is_word(kind, "dispute") {
            Ok(Transaction::Dispute { client, tx })
        } else if is_word(kind, "resolve") {
            Ok(Transaction::Resolve { client, tx })
        } else if is_word(kind, "chargeback") {
            Ok(Transaction::Chargeback { client, tx })
        } else {
            Err(malformed("unknown type: ", utf8_lossy(kind).as_str()))
        }
    }
}

} // verus!
