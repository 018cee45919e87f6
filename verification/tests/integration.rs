//! End-to-end tests: run the engine over an input CSV and compare to an expected
//! output CSV.

use payments_engine::processing::settle;
use payments_engine::{
    run, write_accounts, ClientId, Engine, EngineError, Stats, Transaction, TransactionReader, TxId,
};

const SPEC_EXAMPLE: &str = "\
type, client, tx, amount
deposit, 1, 1, 1.0
deposit, 2, 2, 2.0
deposit, 1, 3, 2.0
withdrawal, 1, 4, 1.5
withdrawal, 2, 5, 3.0
";

const SPEC_EXAMPLE_EXPECTED: &str = "\
client,available,held,total,locked
1,1.5,0,1.5,false
2,2,0,2,false
";

const DISPUTE_RESOLVE: &str = "\
type, client, tx, amount
deposit, 1, 1, 10.0
deposit, 1, 2, 5.0
dispute, 1, 1
resolve, 1, 1
";

const DISPUTE_RESOLVE_EXPECTED: &str = "\
client,available,held,total,locked
1,15,0,15,false
";

const DISPUTE_CHARGEBACK: &str = "\
type, client, tx, amount
deposit, 1, 1, 10.0
deposit, 1, 2, 5.0
dispute, 1, 1
chargeback, 1, 1
deposit, 1, 3, 100.0
";

const DISPUTE_CHARGEBACK_EXPECTED: &str = "\
client,available,held,total,locked
1,5,0,5,true
";

const MESSY: &str = "\
type, client, tx, amount
deposit, 1, 1, 10.0
this row is broken
deposit, 2, 2, abc
deposit, 2, 3, 5.0
dispute, 1, 99
withdrawal, 1, 4, 2.5
withdrawal, 2, 5, 50.0
";

const MESSY_EXPECTED: &str = "\
client,available,held,total,locked
1,7.5,0,7.5,false
2,5,0,5,false
";

const WHITESPACE: &str = "\
type ,  client ,tx  ,   amount
  deposit ,   1 ,  1 ,   1.5
deposit,2,2,2.5
withdrawal  ,1,  3  ,0.5
dispute,   2 ,2   ,
";

const WHITESPACE_EXPECTED: &str = "\
client,available,held,total,locked
1,1,0,1,false
2,0,2.5,2.5,false
";

/// Run the engine over an input (via the shared `run` loop) and return its output
/// as sorted rows.
fn run_with_stats(input: &str) -> (Vec<String>, Stats) {
    let mut engine = Engine::new();
    let stats = run(TransactionReader::new(input.as_bytes()), &mut engine);
    let mut out = Vec::new();
    write_accounts(&engine, &mut out).unwrap();
    (sorted_rows(&String::from_utf8(out).unwrap()), stats)
}

/// Header first, remaining (data) rows sorted: makes comparison order-insensitive.
fn sorted_rows(csv: &str) -> Vec<String> {
    let mut rows: Vec<String> = csv.lines().map(str::to_string).collect();
    if rows.len() > 1 {
        rows[1..].sort();
    }
    rows
}

fn run_csv(input: &str) -> Vec<String> {
    run_with_stats(input).0
}

fn check(input: &str, expected: &str) {
    assert_eq!(run_csv(input), sorted_rows(expected));
}

#[test]
fn spec_example() {
    check(SPEC_EXAMPLE, SPEC_EXAMPLE_EXPECTED);
}

#[test]
fn dispute_then_resolve() {
    check(DISPUTE_RESOLVE, DISPUTE_RESOLVE_EXPECTED);
}

#[test]
fn dispute_then_chargeback_locks() {
    check(DISPUTE_CHARGEBACK, DISPUTE_CHARGEBACK_EXPECTED);
}

#[test]
fn messy_input_skips_bad_rows() {
    check(MESSY, MESSY_EXPECTED);
}

#[test]
fn extra_whitespace_is_accepted() {
    check(WHITESPACE, WHITESPACE_EXPECTED);
}

#[test]
fn messy_stats_are_counted() {
    let (_, stats) = run_with_stats(MESSY);
    // 3 applied (deposits tx1/tx3, withdrawal tx4), 2 ignored (dispute of
    // unknown tx, insufficient withdrawal), 2 skipped (broken row, "abc").
    assert_eq!(
        stats,
        Stats {
            processed: 3,
            ignored: 2,
            skipped: 2
        }
    );
}

#[test]
fn crlf_line_endings_are_accepted() {
    // Windows-style \r\n must parse identically to \n.
    let lf = "type, client, tx, amount\ndeposit, 1, 1, 1.0\nwithdrawal, 1, 2, 0.5\n";
    let crlf = "type, client, tx, amount\r\ndeposit, 1, 1, 1.0\r\nwithdrawal, 1, 2, 0.5\r\n";
    assert_eq!(run_csv(crlf), run_csv(lf));
}

#[test]
fn empty_input_yields_only_the_header() {
    assert_eq!(
        run_csv("type, client, tx, amount\n"),
        vec!["client,available,held,total,locked"]
    );
}

#[test]
fn output_is_deterministic_across_runs() {
    assert_eq!(run_csv(SPEC_EXAMPLE), run_csv(SPEC_EXAMPLE));
}

#[test]
fn skipped_rows_never_happened() {
    let clean: String = MESSY
        .lines()
        .filter(|line| !line.contains("broken") && !line.contains("abc"))
        .map(|line| format!("{}\n", line))
        .collect();
    let (rows, stats) = run_with_stats(&clean);
    assert_eq!(rows, run_csv(MESSY));
    assert_eq!(stats, Stats { processed: 3, ignored: 2, skipped: 0 });
}

#[test]
fn a_skipped_deposit_leaves_nothing_to_dispute() {
    let (rows, stats) = run_with_stats(
        "type, client, tx, amount\ndeposit, 1, 1, oops\ndispute, 1, 1\nchargeback, 1, 1\n",
    );
    assert_eq!(rows, vec!["client,available,held,total,locked"]);
    assert_eq!(stats, Stats { processed: 0, ignored: 2, skipped: 1 });
}

#[test]
fn a_run_can_be_resumed() {
    let rows: Vec<&str> = DISPUTE_CHARGEBACK.lines().collect();
    for cut in 1..=rows.len() {
        let first = rows[..cut].join("\n");
        let second = format!("{}\n{}", rows[0], rows[cut..].join("\n"));
        let mut engine = Engine::new();
        run(TransactionReader::new(first.as_bytes()), &mut engine);
        run(TransactionReader::new(second.as_bytes()), &mut engine);
        let mut out = Vec::new();
        write_accounts(&engine, &mut out).unwrap();
        assert_eq!(String::from_utf8(out).unwrap(), DISPUTE_CHARGEBACK_EXPECTED);
    }
}

#[test]
fn settling_a_row_counts_it() {
    let mut engine = Engine::new();
    let mut stats = Stats::default();
    let deposit = Transaction::Deposit {
        client: ClientId(1),
        tx: TxId(1),
        amount: "1".parse().unwrap(),
    };
    assert!(settle(Ok(deposit), &mut engine, &mut stats).is_none());
    assert_eq!(stats, Stats { processed: 1, ignored: 0, skipped: 0 });
    assert!(settle(Ok(deposit), &mut engine, &mut stats).is_none());
    assert_eq!(stats, Stats { processed: 1, ignored: 1, skipped: 0 });
    let error = EngineError::Malformed("bad".to_string());
    let handed_back = settle(Err(error), &mut engine, &mut stats);
    assert!(matches!(handed_back, Some(EngineError::Malformed(m)) if m == "bad"));
    assert_eq!(stats, Stats { processed: 1, ignored: 1, skipped: 1 });
}
