//! What holds of the output: a printed amount reads back, and what is printed
//! depends on values alone, not on how many decimal places they are held with.

use vstd::prelude::*;
use vstd::utf8::encode_utf8;
use vstd::utf8::is_ascii_chars;
use vstd::utf8::is_ascii_chars_encode_utf8;

use crate::account::Balances;
use crate::decimal::number_of;
use crate::io::account_fields;
use crate::io::account_lines;
use crate::io::amount_text;
use crate::io::comma_separated;
use crate::io::csv_line;
use crate::io::header_fields;
use crate::io::report;
use crate::number::MAX_PLACES;
use crate::number::Number;
use crate::number::law_sum_depends_on_values_alone;
use crate::number::law_sum_is_exact_where_one_exists;
use crate::number::law_rounding_is_to_the_nearest_even;
use crate::number::lemma_aligned_value;
use crate::number::lemma_nearest_of_zeros;
use crate::number::lemma_nearest_scaled;
use crate::number::lemma_plus_fits;
use crate::number::lemma_pow10_positive;
use crate::number::lemma_pow10_sum;
use crate::number::lemma_represent;
use crate::number::lemma_rounded_fits;
use crate::number::lemma_trimmed_fits;
use crate::number::lemma_value_sign;
use crate::number::nearest;
use crate::number::pow10;
use crate::projection::law_identifiers_read_back;
use crate::projection::written;
use crate::rows::field_ends;
use crate::rows::filled_lines;
use crate::rows::is_plain_source;
use crate::rows::lemma_one_more_line;
use crate::rows::lemma_split_at;
use crate::rows::lemma_split_whole;
use crate::rows::lemma_trimmed_whole;
use crate::rows::line_ends;
use crate::rows::line_fields;
use crate::rows::records_of;
use crate::rows::split;
use crate::rows::trimmed;
use crate::text::behind_point;
use crate::text::digit;
use crate::text::digits;
use crate::text::is_digit;
use crate::text::last_digits;
use crate::text::law_text_stands_for_its_number;
use crate::text::lemma_digits;
use crate::text::lemma_plain_characters;
use crate::text::unsigned;
use crate::types::MAX_SCALE;
use crate::types::identifier;

verus! {

/// Stripping zeros keeps the value, and leaves no zero to strip.
pub proof fn law_normalizing_strips_zeros(n: Number)
    requires
        n.scale <= MAX_PLACES,
    ensures
        n.trimmed().value() == n.value(),
        n.trimmed().scale <= n.scale,
        n.trimmed().scale == 0 || n.trimmed().mantissa % 10 != 0,
    decreases n.scale,
{
    if n.mantissa == 0 {
        lemma_value_sign(n);
        lemma_value_sign(Number::zero());
    } else if n.scale > 0 && n.mantissa % 10 == 0 {
        let shorter = Number { mantissa: n.mantissa / 10, scale: (n.scale - 1) as nat };
        let k = (MAX_PLACES - n.scale) as nat;
        law_normalizing_strips_zeros(shorter);
        assert((MAX_PLACES - shorter.scale) as nat == k + 1);
        assert(shorter.mantissa * (10 * pow10(k)) == (10 * shorter.mantissa) * pow10(k))
            by (nonlinear_arith);
        assert(10 * shorter.mantissa == n.mantissa);
    }
}

/// Numbers of equal value with no zero to strip are the same.
proof fn lemma_trimmed_numbers_are_equal(a: Number, b: Number)
    requires
        a.scale <= b.scale <= MAX_PLACES,
        a.value() == b.value(),
        b.scale == 0 || b.mantissa % 10 != 0,
    ensures
        a == b,
{
    let k = (MAX_PLACES - b.scale) as nat;
    lemma_pow10_positive(k);
    lemma_aligned_value(a, b.scale);
    let aligned = a.aligned(b.scale);
    assert(aligned == b.mantissa) by (nonlinear_arith)
        requires
            aligned * pow10(k) == b.mantissa * pow10(k),
            pow10(k) >= 1,
    ;
    if a.scale < b.scale {
        let j = (b.scale - a.scale - 1) as nat;
        assert(a.mantissa * (10 * pow10(j)) == 10 * (a.mantissa * pow10(j))) by (nonlinear_arith);
        assert(b.mantissa == 10 * (a.mantissa * pow10(j)));
    } else {
        assert(pow10(0) == 1);
        assert(aligned == a.mantissa) by (nonlinear_arith)
            requires
                aligned == a.mantissa * pow10(0),
                pow10(0) == 1,
        ;
    }
}

/// What rounding to four places comes to depends on the value alone.
proof fn lemma_rounded_value(n: Number)
    requires
        n.fits(),
    ensures
        n.rounded(MAX_SCALE as nat).value() == nearest(
            n.value(),
            (MAX_PLACES - MAX_SCALE) as nat,
        ) * pow10((MAX_PLACES - MAX_SCALE) as nat),
{
    let k = (MAX_PLACES - MAX_SCALE) as nat;
    let j = (MAX_PLACES - n.scale) as nat;
    if n.scale <= MAX_SCALE {
        let i = (MAX_SCALE - n.scale) as nat;
        lemma_nearest_of_zeros(n.mantissa, j, k);
        lemma_pow10_sum(i, k);
        assert((j - k) as nat == i && i + k == j);
        assert((n.mantissa * pow10(i)) * pow10(k) == n.mantissa * (pow10(i) * pow10(k)))
            by (nonlinear_arith);
    } else {
        let i = (n.scale - MAX_SCALE) as nat;
        lemma_nearest_scaled(n.mantissa, j, i);
        assert(j + i == k);
    }
}

/// Amounts of equal value print alike, however many decimal places each is held
/// with.
pub proof fn law_equal_amounts_print_alike(a: Number, b: Number)
    requires
        a.fits(),
        b.fits(),
        a.value() == b.value(),
    ensures
        amount_text(a) == amount_text(b),
{
    let places = MAX_SCALE as nat;
    lemma_rounded_fits(a, places);
    lemma_rounded_fits(b, places);
    lemma_rounded_value(a);
    lemma_rounded_value(b);
    let first = a.rounded(places);
    let second = b.rounded(places);
    law_normalizing_strips_zeros(first);
    law_normalizing_strips_zeros(second);
    if first.trimmed().scale <= second.trimmed().scale {
        lemma_trimmed_numbers_are_equal(first.trimmed(), second.trimmed());
    } else {
        lemma_trimmed_numbers_are_equal(second.trimmed(), first.trimmed());
    }
}

/// A printed amount reads back: with at most four decimal places, the text stands
/// for the value printed. It has at most four digits behind its point, and if it has
/// a point, it ends with neither that nor a zero.
pub proof fn law_printed_amount_reads_back(amount: Number)
    requires
        amount.fits(),
        amount.scale <= MAX_SCALE,
    ensures
        ({
            let text = amount_text(amount);
            &&& number_of(text) matches Some(n) && n.fits() && n.value() == amount.value()
            &&& behind_point(unsigned(text)).len() <= MAX_SCALE
            &&& text.contains('.') ==> text.last() != '0' && text.last() != '.'
        }),
{
    let n = amount.trimmed();
    law_normalizing_strips_zeros(amount);
    lemma_trimmed_fits(amount);
    law_text_stands_for_its_number(n);
    if n.scale > 0 {
        let magnitude = if n.mantissa < 0 {
            -n.mantissa
        } else {
            n.mantissa
        };
        let k = (n.scale - 1) as nat;
        let r = magnitude % pow10(n.scale);
        lemma_pow10_positive(k);
        vstd::arithmetic::div_mod::lemma_mod_mod(magnitude, 10, pow10(k));
        assert(r % 10 == magnitude % 10);
        assert(magnitude % 10 != 0);
        assert(last_digits(r, n.scale).last() == digit(r % 10));
        assert(n.text().last() == digit(r % 10));
    }
}

/// Whether two sets of accounts are equal: the same clients, each with balances of
/// the same value, and frozen alike.
pub open spec fn equal_accounts(a: Map<u16, Balances>, b: Map<u16, Balances>) -> bool {
    forall|client: u16|
        {
            &&& #[trigger] a.contains_key(client) == b.contains_key(client)
            &&& a.contains_key(client) ==> {
                &&& a[client].available.value() == b[client].available.value()
                &&& a[client].held.value() == b[client].held.value()
                &&& a[client].locked == b[client].locked
            }
        }
}

/// Whether all accounts uphold their invariants.
pub open spec fn all_valid(accounts: Map<u16, Balances>) -> bool {
    forall|client: u16| #[trigger]
        accounts.contains_key(client) ==> accounts[client].valid()
}

/// Accounts of equal value have the same line.
proof fn lemma_equal_fields(client: u16, a: Balances, b: Balances)
    requires
        a.valid(),
        b.valid(),
        a.available.value() == b.available.value(),
        a.held.value() == b.held.value(),
        a.locked == b.locked,
    ensures
        account_fields(client, a) == account_fields(client, b),
{
    law_equal_amounts_print_alike(a.available, b.available);
    law_equal_amounts_print_alike(a.held, b.held);
    law_sum_depends_on_values_alone(a.available, a.held);
    law_sum_depends_on_values_alone(b.available, b.held);
    lemma_plus_fits(a.available, a.held);
    lemma_plus_fits(b.available, b.held);
    law_equal_amounts_print_alike(a.total()->0, b.total()->0);
}

/// Equal accounts have the same lines.
proof fn lemma_equal_lines(a: Map<u16, Balances>, b: Map<u16, Balances>, n: nat)
    requires
        equal_accounts(a, b),
        all_valid(a),
        all_valid(b),
    ensures
        account_lines(a, n) == account_lines(b, n),
    decreases n,
{
    if n > 0 {
        let client = (n - 1) as u16;
        lemma_equal_lines(a, b, (n - 1) as nat);
        assert(a.contains_key(client) == b.contains_key(client));
        if a.contains_key(client) {
            lemma_equal_fields(client, a[client], b[client]);
        }
    }
}

/// Equal accounts give identical output, whatever order they were opened in and
/// however many decimal places their balances are held with.
pub proof fn law_equal_accounts_print_alike(a: Map<u16, Balances>, b: Map<u16, Balances>)
    requires
        equal_accounts(a, b),
        all_valid(a),
        all_valid(b),
    ensures
        report(a) == report(b),
{
    lemma_equal_lines(a, b, 0x1_0000);
}

/// A printed amount is the nearest with four decimal places, and the even one of two
/// that are equally near. It is written out in full, without zeros at its end.
pub proof fn law_printed_amount_is_the_nearest(amount: Number)
    requires
        amount.fits(),
    ensures
        ({
            let unit = pow10(24);
            &&& number_of(amount_text(amount)) matches Some(n)
            &&& amount_text(amount) == n.text()
            &&& n.scale <= 4
            &&& n.scale > 0 ==> n.mantissa % 10 != 0
            &&& n.value() % unit == 0
            &&& -unit <= 2 * (n.value() - amount.value()) <= unit
            &&& 2 * (n.value() - amount.value()) == unit || 2 * (amount.value() - n.value()) == unit
                ==> (n.value() / unit) % 2 == 0
        }),
{
    let rounded = amount.rounded(MAX_SCALE as nat);
    lemma_rounded_fits(amount, MAX_SCALE as nat);
    lemma_rounded_value(amount);
    law_normalizing_strips_zeros(rounded);
    lemma_trimmed_fits(rounded);
    law_text_stands_for_its_number(rounded.trimmed());
    law_rounding_is_to_the_nearest_even(amount.value(), 24);
    lemma_pow10_positive(24);
    let whole = nearest(amount.value(), 24);
    vstd::arithmetic::div_mod::lemma_mod_multiples_basic(whole, pow10(24));
    vstd::arithmetic::div_mod::lemma_div_multiples_vanish(whole, pow10(24));
    assert(whole * pow10(24) == pow10(24) * whole) by (nonlinear_arith);
}

/// The line of an account holds its client, its available funds, its held funds, the
/// sum of the two, and whether it is frozen, in that order.
pub proof fn law_account_line_says_what_the_account_holds(client: u16, balances: Balances)
    ensures
        ({
            let fields = account_fields(client, balances);
            &&& fields.len() == 5
            &&& identifier(encode_utf8(fields[0]), 65535) == Some(client as int)
            &&& fields[0] == digits(client as int)
            &&& fields[1] == amount_text(balances.available)
            &&& fields[2] == amount_text(balances.held)
            &&& balances.available.plus(balances.held) matches Some(total) ==> fields[3]
                == amount_text(total)
            &&& fields[4] == "true"@ <==> balances.locked
            &&& fields[4] == "false"@ <==> !balances.locked
        }),
{
    let fields = account_fields(client, balances);
    assert("true"@ != "false"@) by {
        reveal_strlit("true");
        reveal_strlit("false");
        assert("true"@.len() != "false"@.len());
    }
    assert(identifier(encode_utf8(fields[0]), 65535) == Some(client as int)) by {
        law_identifiers_read_back(client as int, 65535, seq![], 0, false);
        assert(written(client as int, 0, false) =~= digits(client as int));
    }
}

/// The line of an account reads back: with balances of at most four decimal places,
/// whose sum is a decimal, the columns stand for exactly the available funds, the held
/// funds, and a total that is the one plus the other.
pub proof fn law_account_line_reads_back(client: u16, balances: Balances, sum: Number)
    requires
        balances.available.fits(),
        balances.held.fits(),
        balances.available.scale <= 4,
        balances.held.scale <= 4,
        sum.fits(),
        sum.value() == balances.available.value() + balances.held.value(),
    ensures
        ({
            let fields = account_fields(client, balances);
            &&& number_of(fields[1]) matches Some(available)
            &&& number_of(fields[2]) matches Some(held)
            &&& number_of(fields[3]) matches Some(total)
            &&& available.value() == balances.available.value()
            &&& held.value() == balances.held.value()
            &&& total.value() == available.value() + held.value()
        }),
{
    let a = balances.available;
    let b = balances.held;
    law_sum_is_exact_where_one_exists(a, b, sum);
    lemma_plus_fits(a, b);
    let scale = if a.scale < b.scale {
        b.scale
    } else {
        a.scale
    };
    lemma_represent(a.aligned(scale) + b.aligned(scale), scale, 0);
    law_printed_amount_reads_back(a);
    law_printed_amount_reads_back(b);
    law_printed_amount_reads_back(a.plus(b)->0);
}

/// Whether a field is written with nothing but printable ASCII characters, none of
/// which means anything to CSV.
spec fn is_tame(field: Seq<char>) -> bool {
    forall|i: int|
        0 <= i < field.len() ==> {
            let c = #[trigger] field[i];
            '!' <= c <= '~' && c != '"' && c != ','
        }
}

/// The bytes of each field.
pub open spec fn encoded(fields: Seq<Seq<char>>) -> Seq<Seq<u8>> {
    fields.map_values(|field: Seq<char>| encode_utf8(field))
}

/// The bytes of a tame field.
proof fn lemma_tame_bytes(field: Seq<char>)
    requires
        is_tame(field),
    ensures
        is_ascii_chars(field),
        encode_utf8(field).len() == field.len(),
        forall|i: int|
            0 <= i < field.len() ==> {
                let b = #[trigger] encode_utf8(field)[i];
                b as int == field[i] as int && 0x21 <= b <= 0x7e && b != 0x22 && b != 0x2c
            },
{
    assert forall|i: int| 0 <= i < field.len() implies '\0' <= #[trigger] field[i] <= '\u{7f}' by {
        assert('!' <= field[i] <= '~');
    }
    is_ascii_chars_encode_utf8(field);
    assert forall|i: int| 0 <= i < field.len() implies {
        let b = #[trigger] encode_utf8(field)[i];
        b as int == field[i] as int && 0x21 <= b <= 0x7e && b != 0x22 && b != 0x2c
    } by {
        assert(field[i] as u8 == encode_utf8(field)[i]);
        assert('!' <= field[i] <= '~');
    }
}

/// Encoding goes character by character.
proof fn lemma_encoding_follows(first: Seq<char>, second: Seq<char>)
    requires
        is_ascii_chars(first),
        is_ascii_chars(second),
    ensures
        is_ascii_chars(first + second),
        encode_utf8(first + second) == encode_utf8(first) + encode_utf8(second),
{
    let both = first + second;
    assert forall|i: int| 0 <= i < both.len() implies '\0' <= #[trigger] both[i] <= '\u{7f}' by {
        if i < first.len() {
            assert(both[i] == first[i]);
        } else {
            assert(both[i] == second[i - first.len()]);
        }
    }
    is_ascii_chars_encode_utf8(first);
    is_ascii_chars_encode_utf8(second);
    is_ascii_chars_encode_utf8(both);
    assert forall|i: int| 0 <= i < both.len() implies #[trigger] encode_utf8(both)[i] == (
    encode_utf8(first) + encode_utf8(second))[i] by {
        assert(both[i] as u8 == encode_utf8(both)[i]);
        if i < first.len() {
            assert(first[i] as u8 == encode_utf8(first)[i]);
        } else {
            assert(second[i - first.len()] as u8 == encode_utf8(second)[i - first.len()]);
        }
    }
    assert(encode_utf8(both) =~= encode_utf8(first) + encode_utf8(second));
}

/// A line of tame fields falls into those fields again.
proof fn lemma_line_falls_into_fields(fields: Seq<Seq<char>>)
    requires
        fields.len() > 0,
        forall|i: int| 0 <= i < fields.len() ==> is_tame(#[trigger] fields[i]),
    ensures
        ({
            let line = encode_utf8(comma_separated(fields));
            &&& is_ascii_chars(comma_separated(fields))
            &&& split(line, field_ends()) == encoded(fields)
            &&& forall|i: int|
                0 <= i < line.len() ==> 0x21 <= #[trigger] line[i] <= 0x7e && line[i] != 0x22
        }),
    decreases fields.len(),
{
    let last = fields.last();
    assert(is_tame(fields[fields.len() - 1]));
    lemma_tame_bytes(last);
    let tail = encode_utf8(last);
    assert forall|i: int| 0 <= i < tail.len() implies !field_ends().contains(#[trigger] tail[i]) by {
    }
    lemma_split_whole(tail, field_ends());
    if fields.len() == 1 {
        assert(encoded(fields) =~= seq![tail]);
    } else {
        let earlier = fields.drop_last();
        assert forall|i: int| 0 <= i < earlier.len() implies is_tame(#[trigger] earlier[i]) by {
            assert(earlier[i] == fields[i]);
        }
        lemma_line_falls_into_fields(earlier);
        let head = comma_separated(earlier);
        lemma_encoding_follows(head, seq![',']);
        lemma_encoding_follows(head + seq![','], last);
        is_ascii_chars_encode_utf8(seq![',']);
        assert(seq![','][0] as u8 == encode_utf8(seq![','])[0]);
        assert(encode_utf8(seq![',']) =~= seq![0x2cu8]);
        let line = encode_utf8(comma_separated(fields));
        assert(line =~= encode_utf8(head).push(0x2c) + tail);
        lemma_split_at(encode_utf8(head), 0x2c, tail, field_ends());
        assert(encoded(fields) =~= encoded(earlier) + seq![tail]);
        assert forall|i: int| 0 <= i < line.len() implies 0x21 <= #[trigger] line[i] <= 0x7e
            && line[i] != 0x22 by {
            if i < encode_utf8(head).len() {
                assert(line[i] == encode_utf8(head)[i]);
            } else if i > encode_utf8(head).len() {
                assert(line[i] == tail[i - encode_utf8(head).len() - 1]);
            }
        }
    }
}

/// A line of tame fields is those fields, with a line feed behind.
proof fn lemma_csv_line(fields: Seq<Seq<char>>)
    requires
        fields.len() >= 2,
        forall|i: int| 0 <= i < fields.len() ==> is_tame(#[trigger] fields[i]),
    ensures
        ({
            let line = encode_utf8(comma_separated(fields));
            &&& csv_line(fields) == line.push(0x0a)
            &&& line.len() > 0
            &&& line_fields(line) == encoded(fields)
            &&& forall|i: int|
                0 <= i < line.len() ==> 0x21 <= #[trigger] line[i] <= 0x7e && line[i] != 0x22
        }),
{
    let text = comma_separated(fields);
    let line = encode_utf8(text);
    lemma_line_falls_into_fields(fields);
    lemma_encoding_follows(text, seq!['\n']);
    is_ascii_chars_encode_utf8(seq!['\n']);
    assert(seq!['\n'][0] as u8 == encode_utf8(seq!['\n'])[0]);
    assert(encode_utf8(seq!['\n']) =~= seq![0x0au8]);
    assert(text.push('\n') =~= text + seq!['\n']);
    assert(csv_line(fields) =~= line.push(0x0a));
    is_ascii_chars_encode_utf8(text);
    assert(text.len() > 0);
    let parts = split(line, field_ends());
    assert forall|i: int| 0 <= i < parts.len() implies trimmed(#[trigger] parts[i]) == parts[i] by {
        assert(is_tame(fields[i]));
        lemma_tame_bytes(fields[i]);
        assert(parts[i] == encode_utf8(fields[i]));
        lemma_trimmed_whole(parts[i]);
    }
    assert(line_fields(line) =~= encoded(fields));
}

/// Numbers are written in tame fields.
proof fn lemma_number_is_tame(n: Number)
    ensures
        is_tame(n.text()),
{
    law_text_stands_for_its_number(n);
    lemma_plain_characters(n.text());
    assert forall|i: int| 0 <= i < n.text().len() implies {
        let c = #[trigger] n.text()[i];
        '!' <= c <= '~' && c != '"' && c != ','
    } by {
        let c = n.text()[i];
        assert(is_digit(c) || c == '.' || c == '-' || c == '+');
    }
}

/// The fields of an account are tame.
proof fn lemma_account_is_tame(client: u16, balances: Balances)
    ensures
        forall|i: int|
            0 <= i < 5 ==> is_tame(#[trigger] account_fields(client, balances)[i]),
{
    let fields = account_fields(client, balances);
    reveal_strlit("true");
    reveal_strlit("false");
    lemma_digits(client as int);
    assert forall|i: int| 0 <= i < fields[0].len() implies {
        let c = #[trigger] fields[0][i];
        '!' <= c <= '~' && c != '"' && c != ','
    } by {
        assert(is_digit(digits(client as int)[i]));
    }
    assert(is_tame(fields[0]));
    lemma_number_is_tame(balances.available.rounded(MAX_SCALE as nat).trimmed());
    lemma_number_is_tame(balances.held.rounded(MAX_SCALE as nat).trimmed());
    lemma_number_is_tame((balances.total()->0).rounded(MAX_SCALE as nat).trimmed());
    assert(is_tame(fields[4]));
}

/// The fields of the header are tame.
proof fn lemma_header_is_tame()
    ensures
        forall|i: int| 0 <= i < 5 ==> is_tame(#[trigger] header_fields()[i]),
{
    reveal_strlit("client");
    reveal_strlit("available");
    reveal_strlit("held");
    reveal_strlit("total");
    reveal_strlit("locked");
    let fields = header_fields();
    assert(is_tame(fields[0]) && is_tame(fields[1]) && is_tame(fields[2]) && is_tame(fields[3])
        && is_tame(fields[4]));
}

/// The clients below `n` that have an account, in order.
spec fn clients_below(accounts: Map<u16, Balances>, n: nat) -> Seq<u16>
    decreases n,
{
    if n == 0 {
        seq![]
    } else {
        let before = clients_below(accounts, (n - 1) as nat);
        if accounts.contains_key((n - 1) as u16) {
            before.push((n - 1) as u16)
        } else {
            before
        }
    }
}

/// The clients below `n` are those with an account, each once.
proof fn lemma_clients_below(accounts: Map<u16, Balances>, n: nat)
    requires
        n <= 0x1_0000,
    ensures
        ({
            let clients = clients_below(accounts, n);
            &&& forall|i: int|
                0 <= i < clients.len() ==> #[trigger] clients[i] < n && accounts.contains_key(
                    clients[i],
                )
            &&& forall|i: int, j: int|
                0 <= i < j < clients.len() ==> #[trigger] clients[i] < #[trigger] clients[j]
            &&& forall|client: u16|
                client < n && #[trigger] accounts.contains_key(client) ==> clients.contains(client)
        }),
    decreases n,
{
    if n > 0 {
        let before = clients_below(accounts, (n - 1) as nat);
        let clients = clients_below(accounts, n);
        lemma_clients_below(accounts, (n - 1) as nat);
        assert forall|client: u16|
            client < n && #[trigger] accounts.contains_key(client) implies clients.contains(
            client,
        ) by {
            if client < n - 1 {
                let i = before.index_of(client);
                assert(before.contains(client));
                assert(clients[i] == client);
            } else {
                assert(clients[before.len() as int] == client);
            }
        }
    }
}

/// The line of an account, without the line feed.
spec fn line_of(accounts: Map<u16, Balances>, client: u16) -> Seq<u8> {
    encode_utf8(comma_separated(account_fields(client, accounts[client])))
}

/// The line of the header, without the line feed.
spec fn header_line() -> Seq<u8> {
    encode_utf8(comma_separated(header_fields()))
}

/// The lines of a report so far.
proof fn lemma_lines_below(accounts: Map<u16, Balances>, n: nat)
    requires
        n <= 0x1_0000,
    ensures
        ({
            let source = csv_line(header_fields()) + account_lines(accounts, n);
            &&& source.len() > 0 && source.last() == 0x0a
            &&& filled_lines(source) == seq![header_line()] + clients_below(accounts, n).map_values(
                |client: u16| line_of(accounts, client),
            )
            &&& forall|i: int|
                0 <= i < source.len() ==> #[trigger] source[i] == 0x0a || (0x21 <= source[i] <= 0x7e
                    && source[i] != 0x22)
            &&& forall|i: int|
                0 < i < source.len() && #[trigger] source[i] == 0x0a ==> source[i - 1] != 0x0a
        }),
    decreases n,
{
    let source = csv_line(header_fields()) + account_lines(accounts, n);
    let lines = clients_below(accounts, n).map_values(|client: u16| line_of(accounts, client));
    if n == 0 {
        let line = header_line();
        lemma_header_is_tame();
        lemma_csv_line(header_fields());
        let nothing = Seq::<u8>::empty();
        lemma_one_more_line(nothing, line);
        assert(nothing + line.push(0x0a) =~= source);
        lemma_split_whole(nothing, line_ends());
        assert(filled_lines(nothing) =~= Seq::<Seq<u8>>::empty()) by {
            reveal_with_fuel(Seq::filter, 2);
            assert(seq![nothing].drop_last() =~= Seq::<Seq<u8>>::empty());
        }
        assert(filled_lines(source) =~= seq![line] + lines);
        assert forall|i: int| 0 < i < source.len() && #[trigger] source[i] == 0x0a implies source[i
            - 1] != 0x0a by {
            assert(i == line.len());
            assert(source[i - 1] == line[i - 1]);
        }
    } else {
        let client = (n - 1) as u16;
        let earlier = csv_line(header_fields()) + account_lines(accounts, (n - 1) as nat);
        let before = clients_below(accounts, (n - 1) as nat).map_values(
            |client: u16| line_of(accounts, client),
        );
        lemma_lines_below(accounts, (n - 1) as nat);
        if accounts.contains_key(client) {
            let line = line_of(accounts, client);
            lemma_account_is_tame(client, accounts[client]);
            lemma_csv_line(account_fields(client, accounts[client]));
            lemma_one_more_line(earlier, line);
            assert(source =~= earlier + line.push(0x0a));
            assert(lines =~= before.push(line));
            assert(filled_lines(source) =~= seq![header_line()] + lines);
            assert forall|i: int| 0 <= i < source.len() implies #[trigger] source[i] == 0x0a || (0x21
                <= source[i] <= 0x7e && source[i] != 0x22) by {
                if i < earlier.len() {
                    assert(source[i] == earlier[i]);
                } else if i < earlier.len() + line.len() {
                    assert(source[i] == line[i - earlier.len()]);
                }
            }
            assert forall|i: int| 0 < i < source.len() && #[trigger] source[i] == 0x0a implies
                source[i - 1] != 0x0a by {
                if i < earlier.len() {
                    assert(source[i] == earlier[i] && source[i - 1] == earlier[i - 1]);
                } else if i < earlier.len() + line.len() {
                    assert(source[i] == line[i - earlier.len()]);
                } else {
                    assert(source[i - 1] == line[i - 1 - earlier.len()]);
                }
            }
        }
    }
}

/// The report lists every account: read back as CSV, it has one record for each, with
/// just what is printed of it, and no other. The records stand in the order of
/// clients, no client twice.
pub proof fn law_report_lists_every_account_once(accounts: Map<u16, Balances>)
    ensures
        ({
            let records = records_of(report(accounts));
            &&& is_plain_source(report(accounts))
            &&& records.len() == accounts.dom().len()
            &&& forall|client: u16| #[trigger]
                accounts.contains_key(client) ==> exists|i: int|
                    0 <= i < records.len() && #[trigger] records[i] == encoded(
                        account_fields(client, accounts[client]),
                    )
            &&& forall|i: int|
                0 <= i < records.len() ==> {
                    &&& (#[trigger] records[i]).len() == 5
                    &&& identifier(records[i][0], 65535) matches Some(client)
                    &&& accounts.contains_key(client as u16)
                    &&& records[i] == encoded(
                        account_fields(client as u16, accounts[client as u16]),
                    )
                }
            &&& forall|i: int, j: int|
                0 <= i < j < records.len() ==> identifier((#[trigger] records[i])[0], 65535)->0
                    < identifier((#[trigger] records[j])[0], 65535)->0
        }),
{
    let source = report(accounts);
    let records = records_of(source);
    let clients = clients_below(accounts, 0x1_0000);
    lemma_clients_below(accounts, 0x1_0000);
    lemma_lines_below(accounts, 0x1_0000);
    lemma_header_is_tame();
    lemma_csv_line(header_fields());
    assert(source[0] == 0x0a || 0x21 <= source[0] <= 0x7e);
    assert forall|i: int| 0 <= i < source.len() implies #[trigger] source[i] != 0x22 by {
    }
    assert(is_plain_source(source));
    let lines = clients.map_values(|client: u16| line_of(accounts, client));
    assert((seq![header_line()] + lines).drop_first() =~= lines);
    assert(records.len() == clients.len());
    assert forall|i: int| 0 <= i < records.len() implies #[trigger] records[i] == encoded(
        account_fields(clients[i], accounts[clients[i]]),
    ) && records[i].len() == 5 && identifier(records[i][0], 65535) == Some(clients[i] as int) by {
        let fields = account_fields(clients[i], accounts[clients[i]]);
        lemma_account_is_tame(clients[i], accounts[clients[i]]);
        lemma_csv_line(fields);
        law_account_line_says_what_the_account_holds(clients[i], accounts[clients[i]]);
        assert(records[i] == line_fields(lines[i]));
    }
    assert forall|client: u16| #[trigger] accounts.contains_key(client) implies exists|i: int|
        0 <= i < records.len() && #[trigger] records[i] == encoded(
            account_fields(client, accounts[client]),
        ) by {
        assert(clients.contains(client));
        let i = clients.index_of(client);
        assert(records[i] == encoded(account_fields(client, accounts[client])));
    }
    assert forall|i: int, j: int| 0 <= i < j < records.len() implies identifier(
        (#[trigger] records[i])[0],
        65535,
    )->0 < identifier((#[trigger] records[j])[0], 65535)->0 by {
        assert(clients[i] < clients[j]);
    }
    assert(clients.no_duplicates());
    clients.unique_seq_to_set();
    assert(clients.to_set() =~= accounts.dom());
}

/// The report begins with the header, and each of its lines ends with a line feed. No
/// line is empty, and there is no whitespace in any.
pub proof fn law_report_begins_with_the_header(accounts: Map<u16, Balances>)
    ensures
        encode_utf8("client,available,held,total,locked\n"@).is_prefix_of(report(accounts)),
        report(accounts).last() == 0x0a,
        forall|i: int|
            0 <= i < report(accounts).len() ==> #[trigger] report(accounts)[i] == 0x0a || 0x21
                <= report(accounts)[i] <= 0x7e,
        forall|i: int|
            0 < i < report(accounts).len() && #[trigger] report(accounts)[i] == 0x0a ==> report(
                accounts,
            )[i - 1] != 0x0a,
{
    reveal_strlit("client,available,held,total,locked\n");
    reveal_strlit("client");
    reveal_strlit("available");
    reveal_strlit("held");
    reveal_strlit("total");
    reveal_strlit("locked");
    lemma_lines_below(accounts, 0x1_0000);
    let fields = header_fields();
    assert(comma_separated(fields).push('\n') =~= "client,available,held,total,locked\n"@) by {
        let one = fields.take(1);
        let two = fields.take(2);
        let three = fields.take(3);
        let four = fields.take(4);
        assert(fields.drop_last() =~= four && four.drop_last() =~= three && three.drop_last()
            =~= two && two.drop_last() =~= one);
        assert(comma_separated(one) == fields[0]);
        assert(comma_separated(two) == fields[0] + seq![','] + fields[1]);
        assert(comma_separated(three) == comma_separated(two) + seq![','] + fields[2]);
        assert(comma_separated(four) == comma_separated(three) + seq![','] + fields[3]);
        assert(comma_separated(fields) == comma_separated(four) + seq![','] + fields[4]);
    }
}

} // verus!
