//! Where records and fields of CSV text begin and end, against a plain split.

use payments_engine::{Transaction, TransactionReader};

/// A small deterministic generator.
struct Random(u64);

impl Random {
    fn below(&mut self, n: usize) -> usize {
        self.0 = self.0.wrapping_mul(6364136223846793005).wrapping_add(1442695040888963407);
        (self.0 >> 33) as usize % n
    }

    /// A source with no quotes in it.
    fn source(&mut self, tokens: usize) -> Vec<u8> {
        let alphabet: [&str; 24] = [
            "deposit", "withdrawal", "dispute", "1", "2", "1.5", ",", ",", ",", ",", ", ", " ,", " ",
            "\t", "\n", "\n", "\r", "\r\n", "\u{c}", "\u{b}", "x", "\u{e9}", "#", "\u{feff}",
        ];
        let mut source = Vec::new();
        for _ in 0..tokens {
            source.extend_from_slice(alphabet[self.below(alphabet.len())].as_bytes());
        }
        if source.starts_with(b"\xef\xbb\xbf") {
            source.insert(0, b'x');
        }
        source
    }
}

fn is_whitespace(b: u8) -> bool {
    b == b' ' || b == b'\t' || b == b'\n' || b == b'\r' || b == 0x0c
}

fn trim(mut field: &[u8]) -> &[u8] {
    while !field.is_empty() && is_whitespace(field[0]) {
        field = &field[1..];
    }
    while !field.is_empty() && is_whitespace(field[field.len() - 1]) {
        field = &field[..field.len() - 1];
    }
    field
}

/// What a plain split makes of a source.
fn split_rows(source: &[u8]) -> Vec<String> {
    source
        .split(|b| *b == b'\n' || *b == b'\r')
        .filter(|line| !line.is_empty())
        .skip(1)
        .map(|line| {
            let fields: Vec<&[u8]> = line.split(|b| *b == b',').map(trim).collect();
            format!("{:?}", Transaction::from_fields(&fields))
        })
        .collect()
}

/// What the reader makes of it.
fn read_rows(source: &[u8]) -> Vec<String> {
    let mut reader = TransactionReader::new(source);
    let mut rows = Vec::new();
    while let Some(row) = reader.next() {
        rows.push(format!("{:?}", row));
    }
    rows
}

#[test]
fn unquoted_text_is_split_at_lines_and_commas() {
    let mut random = Random(3);
    for _ in 0..5000 {
        let tokens = random.below(60);
        let source = random.source(tokens);
        assert_eq!(read_rows(&source), split_rows(&source), "{:?}", source);
    }
    for _ in 0..20 {
        let source = random.source(20000);
        assert_eq!(read_rows(&source), split_rows(&source));
    }
}

#[test]
fn a_carriage_return_before_a_line_feed_makes_no_difference() {
    let mut random = Random(5);
    for _ in 0..1000 {
        let source = random.source(40);
        let mut crlf = Vec::new();
        for b in &source {
            if *b == b'\n' {
                crlf.push(b'\r');
            }
            crlf.push(*b);
        }
        assert_eq!(read_rows(&crlf), read_rows(&source));
    }
}

#[test]
fn whitespace_around_fields_makes_no_difference() {
    let tight = b"type,client,tx,amount\ndeposit,1,2,3.5\ndispute,1,2\n";
    let loose = b" type\t,client ,tx, amount \n\t deposit , 1\t,  2 , 3.5 \n  dispute,1 ,\t2\n";
    assert_eq!(read_rows(loose), read_rows(tight));
}

#[test]
fn quotes_and_a_byte_order_mark_are_left_to_the_reader() {
    assert_eq!(
        read_rows(b"\xef\xbb\xbftype,client,tx,amount\ndispute,\"1\",2\n"),
        read_rows(b"type,client,tx,amount\ndispute,1,2\n")
    );
}
