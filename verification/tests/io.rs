use payments_engine::io::fmt_amount;
use payments_engine::{
    write_accounts, Amount, ClientId, Engine, EngineError, Transaction, TransactionReader, TxId,
};

/// All rows of a CSV text.
fn rows(csv: &[u8]) -> Vec<Result<Transaction, EngineError>> {
    let mut reader = TransactionReader::new(csv);
    let mut rows = Vec::new();
    while let Some(row) = reader.next() {
        rows.push(row);
    }
    rows
}

#[test]
fn reads_records_and_tolerates_missing_amount_column() {
    let csv = "type, client, tx, amount\ndeposit, 1, 1, 1.0\ndispute, 1, 1\n";
    let txns: Vec<Transaction> = rows(csv.as_bytes()).into_iter().map(|r| r.unwrap()).collect();
    assert!(matches!(txns[0], Transaction::Deposit { .. }));
    assert!(matches!(txns[1], Transaction::Dispute { .. }));
}

#[test]
fn malformed_row_yields_err_without_stopping() {
    let csv = "type, client, tx, amount\ndeposit, 1, 1, oops\ndeposit, 1, 2, 2.0\n";
    let results = rows(csv.as_bytes());
    assert_eq!(results.len(), 2);
    assert!(results[0].is_err());
    assert!(results[1].is_ok());
}

fn amt(s: &str) -> Amount {
    s.parse().unwrap()
}

#[test]
fn fmt_amount_trims_trailing_zeros_on_round_values() {
    assert_eq!(fmt_amount(amt("2.0000")), "2");
    assert_eq!(fmt_amount(amt("2.5000")), "2.5");
}

#[test]
fn fmt_amount_keeps_full_precision_and_sign() {
    assert_eq!(fmt_amount(amt("1.2345")), "1.2345");
    assert_eq!(fmt_amount(amt("-10.0")), "-10");
}

/// Run a CSV through the engine and return the written output as a string.
fn output_for(csv: &str) -> String {
    let mut engine = Engine::new();
    for tx in rows(csv.as_bytes()).into_iter().flatten() {
        engine.apply(tx);
    }
    let mut out = Vec::new();
    write_accounts(&engine, &mut out).unwrap();
    String::from_utf8(out).unwrap()
}

#[test]
fn empty_engine_writes_only_the_header() {
    assert_eq!(
        output_for("type, client, tx, amount\n"),
        "client,available,held,total,locked\n"
    );
}

#[test]
fn output_is_sorted_by_client() {
    let csv = "type, client, tx, amount\n\
               deposit, 3, 1, 1.0\n\
               deposit, 1, 2, 1.0\n\
               deposit, 2, 3, 1.0\n";
    let output = output_for(csv);
    let clients: Vec<&str> = output
        .lines()
        .skip(1)
        .map(|l| l.split(',').next().unwrap())
        .collect();
    assert_eq!(clients, ["1", "2", "3"]);
}

#[test]
fn output_has_one_exact_line_per_account() {
    let csv = "type, client, tx, amount\n\
               deposit, 65535, 1, 0.0001\n\
               deposit, 10, 2, 100.0\n\
               withdrawal, 10, 3, 100.00\n\
               dispute, 10, 2\n\
               chargeback, 10, 2\n\
               deposit, 9, 4, 5.50\n\
               dispute, 9, 4\n\
               withdrawal, 0, 5, 1\n";
    assert_eq!(
        output_for(csv),
        "client,available,held,total,locked\n\
         0,0,0,0,false\n\
         9,0,5.5,5.5,false\n\
         10,-100,0,-100,true\n\
         65535,0.0001,0,0.0001,false\n"
    );
}

#[test]
fn output_is_appended() {
    let mut out = b"before\n".to_vec();
    write_accounts(&Engine::new(), &mut out).unwrap();
    assert_eq!(out, b"before\nclient,available,held,total,locked\n");
}

#[test]
fn amounts_are_written_at_four_places() {
    assert_eq!(fmt_amount(amt("0")), "0");
    assert_eq!(fmt_amount(amt("100")), "100");
    assert_eq!(fmt_amount(amt("0.00005")), "0");
    assert_eq!(fmt_amount(amt("0.00015")), "0.0002");
    assert_eq!(fmt_amount(amt("-0.00001")), "0");
    assert_eq!(fmt_amount(amt("-0.05")), "-0.05");
    assert_eq!(fmt_amount(Amount::new(12300, 4)), "1.23");
}

#[test]
fn the_first_record_is_a_header_whatever_it_says() {
    assert_eq!(rows(b"").len(), 0);
    assert_eq!(rows(b"deposit,1,1,1.0\n").len(), 0);
    assert_eq!(rows(b"h\ndeposit,1,1,1.0").len(), 1);
}

#[test]
fn fields_may_be_quoted() {
    let csv = b"type,client,tx,amount\n\"deposit\",\"1\",1,\"2.5\"\n\n\nresolve,1,1,\n";
    let read = rows(csv);
    assert_eq!(read.len(), 2);
    assert_eq!(
        *read[0].as_ref().unwrap(),
        Transaction::Deposit { client: ClientId(1), tx: TxId(1), amount: amt("2.5") }
    );
    assert_eq!(
        *read[1].as_ref().unwrap(),
        Transaction::Resolve { client: ClientId(1), tx: TxId(1) }
    );
}

#[test]
fn a_row_with_too_many_fields_is_malformed() {
    let read = rows(
        b"type, client, tx, amount\ndeposit, 1, 1, 1.0, 9\ndispute,1,1,,\ndeposit, 1, 2, 1.0\n",
    );
    assert_eq!(read.len(), 3);
    assert!(matches!(&read[0], Err(EngineError::Malformed(m)) if m == "too many fields"));
    assert!(matches!(&read[1], Err(EngineError::Malformed(m)) if m == "too many fields"));
    assert!(read[2].is_ok());
}

#[test]
fn printed_amounts_read_back() {
    for n in [0i64, 1, -1, 10, 25000, -25000, 12345, 99990, -100000, i64::MAX, i64::MIN] {
        for scale in 0..=4 {
            let amount = Amount::new(n, scale);
            let text = fmt_amount(amount);
            assert_eq!(amt(&text), amount);
            assert!(!text.contains('.') || !text.ends_with(['0', '.']));
        }
    }
    let large = amt("-7922816251426433759354395.0335");
    assert_eq!(fmt_amount(large), "-7922816251426433759354395.0335");
    assert_eq!(amt(&fmt_amount(large)), large);
}

#[test]
fn equal_accounts_print_alike() {
    let deposit = |client: u16, tx: u32, amount: &str| Transaction::Deposit {
        client: ClientId(client),
        tx: TxId(tx),
        amount: amt(amount),
    };
    let mut a = Engine::new();
    a.apply(deposit(1, 1, "1.5"));
    a.apply(deposit(2, 2, "20"));
    let mut b = Engine::new();
    b.apply(deposit(2, 7, "19.9900"));
    b.apply(deposit(2, 8, "0.01"));
    b.apply(deposit(1, 9, "1.5000"));
    let (mut first, mut second) = (Vec::new(), Vec::new());
    write_accounts(&a, &mut first).unwrap();
    write_accounts(&b, &mut second).unwrap();
    assert_eq!(first, second);
}

#[test]
fn a_reader_says_how_many_rows_are_left() {
    let mut reader = TransactionReader::new(b"type,client,tx,amount\ndispute,1,1\nx\n");
    assert_eq!(reader.remaining(), 2);
    assert!(reader.next().unwrap().is_ok());
    assert_eq!(reader.remaining(), 1);
    assert!(reader.next().unwrap().is_err());
    assert!(reader.next().is_none());
    assert!(reader.next().is_none());
    assert_eq!(reader.remaining(), 0);
}

#[test]
fn bytes_that_are_not_text_are_shown_with_a_mark() {
    let read = rows(b"type,client,tx,amount\n\xff\xfe,1,1,1\ndeposit,\xff,1,1\n");
    assert!(matches!(&read[0], Err(EngineError::Malformed(m)) if m == "unknown type: \u{fffd}\u{fffd}"));
    assert!(matches!(&read[1], Err(EngineError::Malformed(m)) if m == "client is not valid UTF-8"));
}
