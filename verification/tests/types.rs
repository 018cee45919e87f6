use payments_engine::types::parse_field;
use payments_engine::{ClientId, EngineError, Record, Transaction, TxId};

fn record<'a>(fields: &[&'a str]) -> Record<'a> {
    let field = |i: usize| fields.get(i).map(|f| f.as_bytes());
    Record { kind: field(0), client: field(1), tx: field(2), amount: field(3) }
}

/// Why a record is malformed.
fn message(record: &Record) -> String {
    match Transaction::try_from(record) {
        Err(EngineError::Malformed(message)) => message,
        other => panic!("not malformed: {:?}", other),
    }
}

#[test]
fn parses_a_deposit() {
    let tx = Transaction::try_from(&record(&["deposit", "1", "7", "1.5"])).unwrap();
    assert_eq!(
        tx,
        Transaction::Deposit {
            client: ClientId(1),
            tx: TxId(7),
            amount: "1.5".parse().unwrap(),
        }
    );
}

#[test]
fn parses_a_dispute_without_amount() {
    let tx = Transaction::try_from(&record(&["dispute", "1", "7"])).unwrap();
    assert_eq!(
        tx,
        Transaction::Dispute {
            client: ClientId(1),
            tx: TxId(7)
        }
    );
}

#[test]
fn dispute_ignores_a_trailing_empty_amount() {
    let tx = Transaction::try_from(&record(&["dispute", "1", "7", ""])).unwrap();
    assert_eq!(
        tx,
        Transaction::Dispute {
            client: ClientId(1),
            tx: TxId(7)
        }
    );
}

#[test]
fn deposit_without_amount_is_malformed() {
    assert!(Transaction::try_from(&record(&["deposit", "1", "7"])).is_err());
    assert!(Transaction::try_from(&record(&["deposit", "1", "7", ""])).is_err());
}

#[test]
fn unknown_type_is_malformed() {
    assert!(Transaction::try_from(&record(&["nope", "1", "7", "1.0"])).is_err());
}

#[test]
fn bad_client_is_malformed() {
    assert!(Transaction::try_from(&record(&["deposit", "x", "7", "1.0"])).is_err());
}

#[test]
fn missing_tx_is_malformed() {
    assert!(Transaction::try_from(&record(&["deposit", "1"])).is_err());
}

#[test]
fn amount_beyond_four_dp_is_malformed() {
    assert!(Transaction::try_from(&record(&["deposit", "1", "7", "1.00001"])).is_err());
}

#[test]
fn parses_each_type() {
    assert_eq!(
        Transaction::try_from(&record(&["withdrawal", "+65535", "4294967295", "0.0001"])).unwrap(),
        Transaction::Withdrawal {
            client: ClientId(65535),
            tx: TxId(4294967295),
            amount: "0.0001".parse().unwrap(),
        }
    );
    assert_eq!(
        Transaction::try_from(&record(&["resolve", "007", "0", "junk"])).unwrap(),
        Transaction::Resolve { client: ClientId(7), tx: TxId(0) }
    );
    assert_eq!(
        Transaction::try_from(&record(&["chargeback", "1", "2"])).unwrap(),
        Transaction::Chargeback { client: ClientId(1), tx: TxId(2) }
    );
}

#[test]
fn malformed_records_say_why() {
    assert_eq!(message(&record(&[])), "missing client");
    assert_eq!(message(&record(&["deposit"])), "missing client");
    assert_eq!(message(&record(&["deposit", "1"])), "missing tx");
    assert_eq!(message(&record(&["deposit", "x", "1", "1"])), "invalid client: x");
    assert_eq!(message(&record(&["deposit", "65536", "1", "1"])), "invalid client: 65536");
    assert_eq!(message(&record(&["deposit", "-1", "1", "1"])), "invalid client: -1");
    assert_eq!(message(&record(&["deposit", "", "1", "1"])), "invalid client: ");
    assert_eq!(message(&record(&["deposit", "+", "1", "1"])), "invalid client: +");
    assert_eq!(message(&record(&["deposit", "1", "4294967296", "1"])), "invalid tx: 4294967296");
    assert_eq!(
        message(&record(&["deposit", "1", "99999999999999999999", "1"])),
        "invalid tx: 99999999999999999999"
    );
    assert_eq!(message(&record(&["nope", "1", "7", "1.0"])), "unknown type: nope");
    assert_eq!(message(&record(&["Deposit", "1", "7", "1.0"])), "unknown type: Deposit");
    assert_eq!(message(&record(&["", "1", "7", "1.0"])), "unknown type: ");
    assert_eq!(message(&record(&["d\u{e9}p\u{f4}t", "1", "7"])), "unknown type: d\u{e9}p\u{f4}t");
    assert_eq!(message(&record(&["deposit", "1", "7"])), "missing amount");
    assert_eq!(message(&record(&["withdrawal", "1", "7", ""])), "missing amount");
    assert_eq!(message(&record(&["deposit", "1", "7", "abc"])), "invalid amount: abc");
    assert_eq!(
        message(&record(&["deposit", "1", "7", "1.00001"])),
        "amount exceeds 4 dp: 1.00001"
    );
    assert_eq!(
        message(&record(&["deposit", "1", "7", "1.00000"])),
        "amount exceeds 4 dp: 1.00000"
    );
}

#[test]
fn bytes_that_are_not_text_are_malformed() {
    let good = record(&["deposit", "1", "7", "1.0"]);
    let bad: &[u8] = b"\xff1";
    let with_client = Record { client: Some(bad), ..record(&["deposit", "1", "7", "1.0"]) };
    let with_tx = Record { tx: Some(bad), ..record(&["deposit", "1", "7", "1.0"]) };
    let with_amount = Record { amount: Some(bad), ..record(&["deposit", "1", "7", "1.0"]) };
    let with_kind = Record { kind: Some(bad), ..record(&["deposit", "1", "7", "1.0"]) };
    let without_kind = Record { kind: None, ..record(&["deposit", "1", "7", "1.0"]) };
    assert!(Transaction::try_from(&good).is_ok());
    assert_eq!(message(&with_client), "client is not valid UTF-8");
    assert_eq!(message(&with_tx), "tx is not valid UTF-8");
    assert_eq!(message(&with_amount), "amount is not valid UTF-8");
    assert_eq!(message(&with_kind), "unknown type: \u{fffd}1");
    assert_eq!(message(&without_kind), "unknown type: <missing>");
}

#[test]
fn identifiers_are_plain_digits_within_a_maximum() {
    let parse = |text: &str, max: u32| parse_field(Some(text.as_bytes()), "id", max).ok();
    assert_eq!(parse("0", 10), Some(0));
    assert_eq!(parse("10", 10), Some(10));
    assert_eq!(parse("11", 10), None);
    assert_eq!(parse("+0000000000000010", 10), Some(10));
    assert_eq!(parse("1_0", 10), None);
    assert_eq!(parse(" 1", 10), None);
    assert_eq!(parse("++1", 10), None);
    for n in [0u32, 1, 9, 10, 65535, 65536, 4294967295] {
        let text = n.to_string();
        assert_eq!(parse(&text, u32::MAX), text.parse::<u32>().ok());
        assert_eq!(parse(&text, 65535), text.parse::<u16>().ok().map(u32::from));
    }
}

#[test]
fn amounts_written_beyond_four_places_are_never_rounded() {
    for text in [
        "7922816251426433759354395033.12345",
        "79228162514264337593543950335.00001",
        "0.00000000000000000000000000000000001",
        "1.0000_0",
        "7922816251426433759354395033.1234e-1",
        "1.5e-10",
        "1e-5",
    ] {
        assert_eq!(
            message(&record(&["deposit", "1", "7", text])),
            format!("amount exceeds 4 dp: {}", text)
        );
    }
    for text in ["1.2345", "1.23456e2", "1.5e3", "1_000.1234", "1.5E-3", "15e-4"] {
        assert!(Transaction::try_from(&record(&["deposit", "1", "7", text])).is_ok(), "{}", text);
    }
}

#[test]
fn a_row_has_at_most_four_fields() {
    let row: [&[u8]; 5] = [b"deposit", b"1", b"7", b"1.5", b""];
    assert_eq!(
        Transaction::from_fields(&row[..4]).unwrap(),
        Transaction::Deposit {
            client: ClientId(1),
            tx: TxId(7),
            amount: "1.5".parse().unwrap(),
        }
    );
    assert!(matches!(
        Transaction::from_fields(&row),
        Err(EngineError::Malformed(m)) if m == "too many fields"
    ));
    assert!(matches!(
        Transaction::from_fields(&row[..3]),
        Err(EngineError::Malformed(m)) if m == "missing amount"
    ));
    assert!(matches!(
        Transaction::from_fields(&[]),
        Err(EngineError::Malformed(m)) if m == "missing client"
    ));
}
