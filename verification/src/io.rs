//! CSV input (bytes to [`Transaction`]) and account output.

use vstd::prelude::*;
use vstd::string::*;
use vstd::utf8::encode_utf8;

use crate::account::Account;
use crate::account::Balances;
use crate::amount::Amount;
use crate::engine::Engine;
use crate::engine::lists_accounts;
use crate::error::EngineError;
use crate::number::Number;
use crate::number::lemma_pow10_positive;
use crate::number::pow10;
use crate::rows::csv_records;
use crate::rows::is_plain_source;
use crate::rows::records_of;
use crate::text::digit;
use crate::text::digits;
use crate::text::lemma_digits;
use crate::text::lemma_last_digits;
use crate::types::ClientId;
use crate::types::Event;
use crate::types::MAX_SCALE;
use crate::types::Transaction;
use crate::types::bytes_of;
use crate::types::malformed_because;
use crate::types::read_fields;

verus! {

/// The bytes of each field.
pub open spec fn field_bytes(fields: Seq<Vec<u8>>) -> Seq<Seq<u8>> {
    fields.map_values(|field: Vec<u8>| field@)
}

/// The fields of the rows that were read.
pub open spec fn fields_read(rows: Seq<Result<Vec<Vec<u8>>, csv::Error>>) -> Seq<Seq<Seq<u8>>> {
    rows.map_values(
        |row: Result<Vec<Vec<u8>>, csv::Error>|
            match row {
                Ok(fields) => field_bytes(fields@),
                Err(_) => seq![],
            },
    )
}

/// `csv::Reader::byte_records` on bytes in memory: the records behind the header,
/// however many fields each has, with the whitespace around fields gone. With no
/// input device to fail and no field count to disagree with, no record is an error.
/// Which records a source with quotes or a byte order mark holds is left unsaid.
#[verifier::external_body]
fn read_records(source: &[u8]) -> (r: Vec<Result<Vec<Vec<u8>>, csv::Error>>)
    ensures
        forall|i: int| 0 <= i < r@.len() ==> #[trigger] r@[i] is Ok,
        fields_read(r@) == records_of(source@),
        !is_plain_source(source@) ==> fields_read(r@) == csv_records(source@),
{
    let mut reader = csv::ReaderBuilder::new()
        .has_headers(true)
        .trim(csv::Trim::All)
        .flexible(true)
        .from_reader(source);
    reader
        .byte_records()
        .map(|row| row.map(|record| record.iter().map(|field| field.to_vec()).collect()))
        .collect()
}

/// What was read for one row: its fields, or an error of the CSV reader.
pub open spec fn row_read(row: Result<Vec<Vec<u8>>, csv::Error>) -> Option<Seq<Seq<u8>>> {
    match row {
        Ok(fields) => Some(field_bytes(fields@)),
        Err(_) => None,
    }
}

/// What a row says: the event it states, or that it is to be skipped.
pub open spec fn item_of(row: Option<Seq<Seq<u8>>>) -> Option<Event> {
    match row {
        Some(fields) => match read_fields(fields) {
            Ok(event) => Some(event),
            Err(_) => None,
        },
        None => None,
    }
}

/// Whether a row was handed out as it should be: as its event, or as the error
/// that says why it has none.
pub open spec fn handed_out(
    row: Option<Seq<Seq<u8>>>,
    item: Result<Transaction, EngineError>,
) -> bool {
    match row {
        Some(fields) => match (read_fields(fields), item) {
            (Ok(event), Ok(transaction)) => transaction@ == event && event.fits(),
            (Err(reason), Err(error)) => malformed_because(error, reason),
            _ => false,
        },
        None => item matches Err(EngineError::Csv(_)),
    }
}

/// Hands out [`Transaction`] events from a CSV source, row by row. A parse
/// failure yields `Err` for that row without stopping the stream.
pub struct TransactionReader {
    /// The rows still to come, the next one last.
    rows: Vec<Result<Vec<Vec<u8>>, csv::Error>>,
}

impl View for TransactionReader {
    type V = Seq<Option<Seq<Seq<u8>>>>;

    /// The rows still to come, each as its fields.
    closed spec fn view(&self) -> Seq<Option<Seq<Seq<u8>>>> {
        self.rows@.map_values(|row| row_read(row)).reverse()
    }
}

/// The fields of a record, borrowed.
fn borrowed(fields: &Vec<Vec<u8>>) -> (r: Vec<&[u8]>)
    ensures
        bytes_of(r@) == field_bytes(fields@),
{
    let mut r: Vec<&[u8]> = Vec::new();
    let mut i: usize = 0;
    while i < fields.len()
        invariant
            i <= fields@.len(),
            r@.len() == i,
            forall|j: int| 0 <= j < i ==> (#[trigger] r@[j])@ == fields@[j]@,
        decreases fields.len() - i,
    {
        r.push(fields[i].as_slice());
        i += 1;
    }
    assert(bytes_of(r@) =~= field_bytes(fields@));
    r
}

impl TransactionReader {
    pub fn new(source: &[u8]) -> (r: TransactionReader)
        ensures
            r@ == records_of(source@).map_values(|fields| Some(fields)),
    {
        let mut records = read_records(source);
        let ghost all = records@;
        let mut rows: Vec<Result<Vec<Vec<u8>>, csv::Error>> = Vec::new();
        while records.len() > 0
            invariant
                records@.len() + rows@.len() == all.len(),
                records@ == all.take(records@.len() as int),
                rows@ == all.skip(records@.len() as int).reverse(),
            decreases records.len(),
        {
            let ghost n = records@.len() as int;
            assert(all.skip(n - 1).reverse() =~= all.skip(n).reverse().push(all[n - 1]));
            if let Some(record) = records.pop() {
                rows.push(record);
            }
        }
        assert(all.skip(0) == all);
        let r = TransactionReader { rows };
        assert forall|i: int| 0 <= i < all.len() implies #[trigger] row_read(all[i]) == Some(
            records_of(source@)[i],
        ) by {
            assert(all[i] is Ok);
            assert(fields_read(all)[i] == records_of(source@)[i]);
        }
        assert(fields_read(all).len() == all.len());
        assert(r@ =~= records_of(source@).map_values(|fields| Some(fields)));
        r
    }

    /// The number of rows still to come.
    pub fn remaining(&self) -> (r: usize)
        ensures
            r == self@.len(),
    {
        self.rows.len()
    }

    /// The next row: its transaction, or why it has none.
    pub fn next(&mut self) -> (r: Option<Result<Transaction, EngineError>>)
        ensures
            match r {
                None => old(self)@.len() == 0 && final(self)@ == old(self)@,
                Some(item) => {
                    &&& old(self)@.len() > 0
                    &&& handed_out(old(self)@[0], item)
                    &&& final(self)@ == old(self)@.skip(1)
                },
            },
    {
        match self.rows.pop() {
            None => None,
            Some(row) => {
                assert(self@ =~= old(self)@.skip(1));
                match row {
                    Ok(fields) => Some(Transaction::from_fields(borrowed(&fields).as_slice())),
                    Err(e) => Some(Err(EngineError::Csv(e))),
                }
            },
        }
    }
}

/// How an amount is written out: with up to 4 decimal places and no trailing
/// zeros.
pub open spec fn amount_text(amount: Number) -> Seq<char> {
    amount.rounded(MAX_SCALE as nat).trimmed().text()
}

/// Render an amount at up to 4 dp, trimming trailing zeros (round values such as
/// `2.0000` print as `2`).
pub fn fmt_amount(amount: Amount) -> (r: String)
    ensures
        r@ == amount_text(amount@),
{
    amount.round_dp(MAX_SCALE).normalize().to_text()
}

/// The fields with a comma between each two.
pub open spec fn comma_separated(fields: Seq<Seq<char>>) -> Seq<char>
    decreases fields.len(),
{
    if fields.len() == 0 {
        seq![]
    } else if fields.len() == 1 {
        fields[0]
    } else {
        comma_separated(fields.drop_last()) + seq![','] + fields.last()
    }
}

/// One line of output.
pub open spec fn csv_line(fields: Seq<Seq<char>>) -> Seq<u8> {
    encode_utf8(comma_separated(fields).push('\n'))
}

/// Whether a field can be written without quotes.
pub open spec fn needs_no_quotes(field: Seq<char>) -> bool {
    forall|i: int|
        0 <= i < field.len() ==> {
            let c = #[trigger] field[i];
            c != '"' && c != ',' && c != '\r' && c != '\n'
        }
}

/// The texts of the fields.
pub open spec fn field_texts(fields: Seq<String>) -> Seq<Seq<char>> {
    fields.map_values(|field: String| field@)
}

/// `csv::Writer::write_record` into memory: fields that need no quotes, two or
/// more of them, come out as they are, separated by commas and ended by a line
/// feed. Nothing can fail there.
#[verifier::external_body]
fn write_record(fields: &Vec<String>) -> (r: Result<Vec<u8>, csv::Error>)
    requires
        fields@.len() >= 2,
        forall|i: int| 0 <= i < fields@.len() ==> needs_no_quotes((#[trigger] fields@[i])@),
    ensures
        match r {
            Ok(line) => line@ == csv_line(field_texts(fields@)),
            Err(_) => false,
        },
{
    let mut writer = csv::WriterBuilder::new().from_writer(Vec::new());
    writer.write_record(fields)?;
    match writer.into_inner() {
        Ok(line) => Ok(line),
        Err(e) => Err(csv::Error::from(e.into_error())),
    }
}

/// The header of the output.
pub open spec fn header_fields() -> Seq<Seq<char>> {
    seq!["client"@, "available"@, "held"@, "total"@, "locked"@]
}

/// What is written of one account.
pub open spec fn account_fields(client: u16, balances: Balances) -> Seq<Seq<char>> {
    seq![
        digits(client as int),
        amount_text(balances.available),
        amount_text(balances.held),
        amount_text(balances.total()->0),
        if balances.locked {
            "true"@
        } else {
            "false"@
        },
    ]
}

/// The lines of all accounts whose client is below `n`, in the order of clients.
pub open spec fn account_lines(accounts: Map<u16, Balances>, n: nat) -> Seq<u8>
    decreases n,
{
    if n == 0 {
        seq![]
    } else {
        let client = (n - 1) as u16;
        let before = account_lines(accounts, (n - 1) as nat);
        if accounts.contains_key(client) {
            before + csv_line(account_fields(client, accounts[client]))
        } else {
            before
        }
    }
}

/// The output: the header, and then one line for each account, in the order of
/// clients.
pub open spec fn report(accounts: Map<u16, Balances>) -> Seq<u8> {
    csv_line(header_fields()) + account_lines(accounts, 0x1_0000)
}

/// `slice::sort_by_key`: the same items, in the order of their clients.
#[verifier::external_body]
fn sort_by_client(listing: &mut Vec<(ClientId, &Account)>)
    ensures
        final(listing)@.to_multiset() == old(listing)@.to_multiset(),
        forall|i: int, j: int|
            0 <= i < j < final(listing)@.len() ==> (#[trigger] final(listing)@[i]).0.0 <= (
            #[trigger] final(listing)@[j]).0.0,
{
    listing.sort_by_key(|pair| pair.0.0);
}

/// A listing of accounts is still one after its items have changed places.
proof fn lemma_same_listing(
    before: Seq<(ClientId, &Account)>,
    after: Seq<(ClientId, &Account)>,
    accounts: Map<u16, Balances>,
)
    requires
        lists_accounts(before, accounts),
        after.to_multiset() == before.to_multiset(),
    ensures
        lists_accounts(after, accounts),
{
    broadcast use vstd::seq_lib::group_to_multiset_ensures;

    assert(before.no_duplicates());
    before.lemma_multiset_has_no_duplicates();
    after.lemma_multiset_has_no_duplicates_conv();
    assert forall|i: int| 0 <= i < after.len() implies before.contains(#[trigger] after[i]) by {
        assert(after.to_multiset().count(after[i]) > 0);
    }
    assert forall|i: int, j: int| 0 <= i < j < after.len() implies (#[trigger] after[i]).0 != (
    #[trigger] after[j]).0 by {
        assert(before.contains(after[i]) && before.contains(after[j]));
        assert(after[i] != after[j]);
    }
    assert forall|client: u16| #[trigger] accounts.contains_key(client) implies exists|i: int|
        0 <= i < after.len() && (#[trigger] after[i]).0 == ClientId(client) by {
        let k = choose|k: int| 0 <= k < before.len() && (#[trigger] before[k]).0 == ClientId(client);
        assert(before.to_multiset().count(before[k]) > 0);
        assert(after.contains(before[k]));
        let i = after.index_of(before[k]);
        assert(after[i].0 == ClientId(client));
    }
}

/// Clients without an account add no lines.
proof fn lemma_no_lines_between(accounts: Map<u16, Balances>, from: nat, to: nat)
    requires
        from <= to <= 0x1_0000,
        forall|client: u16| from <= client < to ==> !#[trigger] accounts.contains_key(client),
    ensures
        account_lines(accounts, to) == account_lines(accounts, from),
    decreases to - from,
{
    if from < to {
        lemma_no_lines_between(accounts, from, (to - 1) as nat);
    }
}

/// A number is written with nothing that would need quotes.
proof fn lemma_number_needs_no_quotes(n: Number)
    ensures
        needs_no_quotes(n.text()),
{
    let magnitude = if n.mantissa < 0 {
        -n.mantissa
    } else {
        n.mantissa
    };
    lemma_pow10_positive(n.scale);
    let p = pow10(n.scale);
    assert(magnitude / p >= 0) by (nonlinear_arith)
        requires
            magnitude >= 0,
            p >= 1,
    ;
    lemma_digits(magnitude / p);
    lemma_last_digits(magnitude % p, n.scale);
}

/// The text of one digit.
fn digit_text(n: u16) -> (r: &'static str)
    requires
        n < 10,
    ensures
        r@ == seq![digit(n as int)],
{
    proof {
        reveal_strlit("0");
        reveal_strlit("1");
        reveal_strlit("2");
        reveal_strlit("3");
        reveal_strlit("4");
        reveal_strlit("5");
        reveal_strlit("6");
        reveal_strlit("7");
        reveal_strlit("8");
        reveal_strlit("9");
    }
    match n {
        0 => "0",
        1 => "1",
        2 => "2",
        3 => "3",
        4 => "4",
        5 => "5",
        6 => "6",
        7 => "7",
        8 => "8",
        _ => "9",
    }
}

/// The decimal digits of a client id.
fn digits_text(n: u16) -> (r: String)
    ensures
        r@ == digits(n as int),
    decreases n,
{
    if n < 10 {
        digit_text(n).to_owned()
    } else {
        let r = digits_text(n / 10).concat(digit_text(n % 10));
        assert(r@ =~= digits(n as int));
        r
    }
}

/// The fields of the header line.
fn header() -> (r: Vec<String>)
    ensures
        r@.len() == 5,
        field_texts(r@) == header_fields(),
        forall|i: int| 0 <= i < r@.len() ==> needs_no_quotes((#[trigger] r@[i])@),
{
    let r: Vec<String> = vec![
        "client".to_owned(),
        "available".to_owned(),
        "held".to_owned(),
        "total".to_owned(),
        "locked".to_owned(),
    ];
    proof {
        reveal_strlit("client");
        reveal_strlit("available");
        reveal_strlit("held");
        reveal_strlit("total");
        reveal_strlit("locked");
        assert(field_texts(r@) =~= header_fields());
    }
    r
}

/// The fields of an account's line.
fn account_record(client: ClientId, account: &Account) -> (r: Vec<String>)
    ensures
        r@.len() == 5,
        field_texts(r@) == account_fields(client.0, account@),
        forall|i: int| 0 <= i < r@.len() ==> needs_no_quotes((#[trigger] r@[i])@),
{
    let locked = if account.is_locked() {
        "true"
    } else {
        "false"
    };
    let r: Vec<String> = vec![
        digits_text(client.0),
        fmt_amount(account.available()),
        fmt_amount(account.held()),
        fmt_amount(account.total()),
        locked.to_owned(),
    ];
    proof {
        reveal_strlit("true");
        reveal_strlit("false");
        lemma_digits(client.0 as int);
        lemma_number_needs_no_quotes(account@.available.rounded(MAX_SCALE as nat).trimmed());
        lemma_number_needs_no_quotes(account@.held.rounded(MAX_SCALE as nat).trimmed());
        lemma_number_needs_no_quotes((account@.total()->0).rounded(MAX_SCALE as nat).trimmed());
        assert(field_texts(r@) =~= account_fields(client.0, account@));
    }
    r
}

/// Write the engine's accounts as CSV to the end of `out`.
pub fn write_accounts(engine: &Engine, out: &mut Vec<u8>) -> (r: Result<(), csv::Error>)
    ensures
        r is Ok,
        final(out)@ == old(out)@ + report(engine@.accounts),
{
    let mut line = match write_record(&header()) {
        Ok(line) => line,
        Err(e) => {
            return Err(e);
        },
    };
    out.append(&mut line);
    let ghost accounts = engine@.accounts;
    let mut listing = engine.accounts();
    let ghost unsorted = listing@;
    sort_by_client(&mut listing);
    proof {
        lemma_same_listing(unsorted, listing@, accounts);
    }
    let ghost mut done: nat = 0;
    let mut i: usize = 0;
    assert(out@ =~= old(out)@ + csv_line(header_fields()) + account_lines(accounts, 0));
    while i < listing.len()
        invariant
            i <= listing@.len(),
            accounts == engine@.accounts,
            lists_accounts(listing@, accounts),
            forall|j: int, k: int|
                0 <= j < k < listing@.len() ==> (#[trigger] listing@[j]).0.0 <= (
                #[trigger] listing@[k]).0.0,
            done <= 0x1_0000,
            forall|j: int| 0 <= j < i ==> (#[trigger] listing@[j]).0.0 < done,
            forall|j: int| i <= j < listing@.len() ==> (#[trigger] listing@[j]).0.0 >= done,
            out@ == old(out)@ + csv_line(header_fields()) + account_lines(accounts, done),
        decreases listing.len() - i,
    {
        let (client, account) = listing[i];
        assert(accounts.contains_pair(client.0, account@));
        let mut line = match write_record(&account_record(client, account)) {
            Ok(line) => line,
            Err(e) => {
                return Err(e);
            },
        };
        proof {
            assert forall|c: u16| done <= c < client.0 implies !#[trigger] accounts.contains_key(
                c,
            ) by {
                if accounts.contains_key(c) {
                    let j = choose|j: int|
                        0 <= j < listing@.len() && (#[trigger] listing@[j]).0 == ClientId(c);
                    assert(listing@[j].0.0 == c);
                    assert(listing@[i as int].0 == client);
                    if j > i {
                        assert(listing@[i as int].0.0 <= listing@[j].0.0);
                    }
                }
            }
            lemma_no_lines_between(accounts, done, client.0 as nat);
        }
        out.append(&mut line);
        proof {
            assert forall|j: int| i + 1 <= j < listing@.len() implies (
            #[trigger] listing@[j]).0.0 >= client.0 + 1 by {
                assert(listing@[i as int].0 == client);
                assert(listing@[i as int].0 != listing@[j].0);
            }
            assert forall|j: int| 0 <= j < i + 1 implies (#[trigger] listing@[j]).0.0
                < client.0 + 1 by {
                assert(listing@[i as int].0 == client);
            }
            done = (client.0 + 1) as nat;
            assert(out@ =~= old(out)@ + csv_line(header_fields()) + account_lines(accounts, done));
        }
        i += 1;
    }
    proof {
        assert forall|c: u16| done <= c < 0x1_0000 implies !#[trigger] accounts.contains_key(c) by {
            if accounts.contains_key(c) {
                let j = choose|j: int|
                    0 <= j < listing@.len() && (#[trigger] listing@[j]).0 == ClientId(c);
                assert(listing@[j].0.0 == c);
            }
        }
        lemma_no_lines_between(accounts, done, 0x1_0000);
        assert(old(out)@ + csv_line(header_fields()) + account_lines(accounts, 0x1_0000)
            =~= old(out)@ + report(accounts));
    }
    Ok(())
}

} // verus!
