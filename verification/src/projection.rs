//! What holds of the way from rows to accounts: what is written in a row is what is
//! read, rows without an event never happened, and a client's account is the fold of
//! that client's own events.

use vstd::prelude::*;
use vstd::utf8::decode_utf8;
use vstd::utf8::encode_utf8;
use vstd::utf8::encode_utf8_decode_utf8;
use vstd::utf8::encode_utf8_valid_utf8;
use vstd::utf8::is_ascii_chars;
use vstd::utf8::is_ascii_chars_encode_utf8;
use vstd::utf8::valid_utf8;

use crate::conservation::four_places;
use crate::decimal::number_of;
use crate::engine::State;
use crate::error::EngineError;
use crate::io::field_bytes;
use crate::io::handed_out;
use crate::io::item_of;
use crate::laws::law_clients_are_isolated;
use crate::laws::law_records_are_kept;
use crate::number::Number;
use crate::number::lemma_value_sign;
use crate::number::pow10;
use crate::processing::events_of;
use crate::text::behind_point;
use crate::text::digits;
use crate::text::digits_value;
use crate::text::is_digit;
use crate::text::is_plain;
use crate::text::law_digits_are_decimal;
use crate::text::law_text_stands_for_its_number;
use crate::text::lemma_digits;
use crate::text::lemma_digits_follow;
use crate::text::lemma_digits_spell;
use crate::text::lemma_digits_value_positive;
use crate::text::lemma_digits_value_sign;
use crate::text::lemma_plain_characters;
use crate::text::plain_digits;
use crate::text::plain_number;
use crate::text::unsigned;
use crate::types::COLUMNS;
use crate::types::ClientId;
use crate::types::Event;
use crate::types::MAX_SCALE;
use crate::types::Record;
use crate::types::Row;
use crate::types::Transaction;
use crate::types::TxId;
use crate::types::all_digits;
use crate::types::bytes_of;
use crate::types::columns;
use crate::types::count_digits;
use crate::types::digit_bytes_value;
use crate::types::first_of;
use crate::types::identifier;
use crate::types::lossy_text;
use crate::types::read_amount;
use crate::types::read_event;
use crate::types::read_fields;
use crate::types::read_identifier;
use crate::types::spells;
use crate::types::without_plus;
use crate::types::written_places;

verus! {

/// An amount with more than four decimal places never gets past the parser.
pub proof fn law_parsed_amounts_have_four_places(row: Row)
    ensures
        read_event(row) matches Ok(event) ==> event.amount().scale <= MAX_SCALE,
{
}

/// An amount that is written with more than four decimal places is malformed, even
/// where reading it would round them away.
pub proof fn law_amounts_beyond_four_places_are_malformed(bytes: Seq<u8>)
    requires
        written_places(bytes) > MAX_SCALE,
    ensures
        read_amount(Some(bytes)) is Err,
{
}

/// Only a deposit and a withdrawal look at the amount column: whatever stands
/// there, a row of the dispute lifecycle says the same.
pub proof fn law_disputes_ignore_the_amount(row: Row, amount: Option<Seq<u8>>)
    requires
        read_event(row) matches Ok(event) && !event.is_value(),
    ensures
        read_event(Row { amount, ..row }) == read_event(row),
{
}

/// A row with more fields than there are columns is malformed, whatever it says.
pub proof fn law_too_many_fields_are_malformed(fields: Seq<Seq<u8>>)
    requires
        fields.len() > COLUMNS,
    ensures
        read_fields(fields) is Err,
        item_of(Some(fields)) is None,
{
}

/// The amounts of all events that rows state have at most four decimal places.
pub proof fn law_events_have_four_places(rows: Seq<Option<Seq<Seq<u8>>>>)
    ensures
        four_places(events_of(rows)),
    decreases rows.len(),
{
    if rows.len() > 0 {
        law_events_have_four_places(rows.drop_last());
        if let Some(fields) = rows.last() {
            law_parsed_amounts_have_four_places(columns(fields));
        }
    }
}

/// The events of two runs of rows are those of the first and then those of the
/// second.
proof fn lemma_events_of_both(first: Seq<Option<Seq<Seq<u8>>>>, second: Seq<Option<Seq<Seq<u8>>>>)
    ensures
        events_of(first + second) == events_of(first) + events_of(second),
    decreases second.len(),
{
    if second.len() == 0 {
        assert(first + second =~= first);
        assert(events_of(first) + events_of(second) =~= events_of(first));
    } else {
        lemma_events_of_both(first, second.drop_last());
        assert((first + second).drop_last() =~= first + second.drop_last());
        assert((first + second).last() == second.last());
        if let Some(event) = item_of(second.last()) {
            assert(events_of(first) + events_of(second.drop_last()).push(event) =~= (events_of(first)
                + events_of(second.drop_last())).push(event));
        }
    }
}

/// A row that is skipped never happened: the rows around it state the same events
/// with it and without it, and so lead to the same state.
pub proof fn law_skipped_row_never_happened(
    before: Seq<Option<Seq<Seq<u8>>>>,
    skipped: Option<Seq<Seq<u8>>>,
    after: Seq<Option<Seq<Seq<u8>>>>,
)
    requires
        item_of(skipped) is None,
    ensures
        events_of(before.push(skipped) + after) == events_of(before + after),
{
    lemma_events_of_both(before.push(skipped), after);
    lemma_events_of_both(before, after);
    assert(before.push(skipped).drop_last() =~= before);
}

/// Replaying two runs of events is replaying the first and then the second.
pub proof fn law_replay_resumes(state: State, first: Seq<Event>, second: Seq<Event>)
    ensures
        state.replay(first + second) == state.replay(first).replay(second),
    decreases second.len(),
{
    if second.len() == 0 {
        assert(first + second =~= first);
    } else {
        law_replay_resumes(state, first, second.drop_last());
        assert((first + second).drop_last() =~= first + second.drop_last());
        assert((first + second).last() == second.last());
    }
}

/// Whether some event is a deposit or withdrawal of this client.
pub open spec fn has_value_event_of(events: Seq<Event>, client: ClientId) -> bool {
    exists|i: int|
        0 <= i < events.len() && (#[trigger] events[i]).is_value() && events[i].client() == client
}

/// No phantom accounts: a client has an account only if some event deposits or
/// withdraws for it.
pub proof fn law_no_phantom_accounts(events: Seq<Event>, client: ClientId)
    ensures
        State::initial().replay(events).accounts.contains_key(client.0) ==> has_value_event_of(
            events,
            client,
        ),
    decreases events.len(),
{
    if events.len() > 0 {
        let earlier = events.drop_last();
        let before = State::initial().replay(earlier);
        law_no_phantom_accounts(earlier, client);
        if has_value_event_of(earlier, client) {
            let i = choose|i: int|
                0 <= i < earlier.len() && (#[trigger] earlier[i]).is_value() && earlier[i].client()
                    == client;
            assert(events[i] == earlier[i]);
        }
        let event = events[events.len() - 1];
        assert(event == events.last());
        if event.client() != client {
            law_clients_are_isolated(before, event, client);
        }
    }
}

/// The events of one client, in order.
pub open spec fn events_of_client(events: Seq<Event>, client: ClientId) -> Seq<Event>
    decreases events.len(),
{
    if events.len() == 0 {
        seq![]
    } else if events.last().client() == client {
        events_of_client(events.drop_last(), client).push(events.last())
    } else {
        events_of_client(events.drop_last(), client)
    }
}

/// Whether transaction ids are unique among clients: no two clients deposit or
/// withdraw under the same one.
pub open spec fn ids_belong_to_one_client(events: Seq<Event>) -> bool {
    forall|i: int, j: int|
        0 <= i < events.len() && 0 <= j < events.len() && (#[trigger] events[i]).is_value()
            && (#[trigger] events[j]).is_value() && events[i].tx() == events[j].tx()
            ==> events[i].client() == events[j].client()
}

/// Every record stems from a deposit or withdrawal of its client.
proof fn lemma_records_have_an_event(events: Seq<Event>, tx: TxId)
    requires
        State::initial().replay(events).ledger.contains_key(tx.0),
    ensures
        exists|i: int|
            0 <= i < events.len() && (#[trigger] events[i]).is_value() && events[i].tx() == tx
                && events[i].client() == State::initial().replay(events).ledger[tx.0].client,
    decreases events.len(),
{
    let earlier = events.drop_last();
    let before = State::initial().replay(earlier);
    let event = events[events.len() - 1];
    assert(event == events.last());
    if before.ledger.contains_key(tx.0) {
        lemma_records_have_an_event(earlier, tx);
        law_records_are_kept(before, event, tx);
        let i = choose|i: int|
            0 <= i < earlier.len() && (#[trigger] earlier[i]).is_value() && earlier[i].tx() == tx
                && earlier[i].client() == before.ledger[tx.0].client;
        assert(events[i] == earlier[i]);
    }
}

/// The events of one client are that client's.
proof fn lemma_events_of_client(events: Seq<Event>, client: ClientId)
    ensures
        forall|i: int|
            0 <= i < events_of_client(events, client).len() ==> (#[trigger] events_of_client(
                events,
                client,
            )[i]).client() == client,
    decreases events.len(),
{
    if events.len() > 0 {
        let earlier = events_of_client(events.drop_last(), client);
        let all = events_of_client(events, client);
        lemma_events_of_client(events.drop_last(), client);
        assert forall|i: int| 0 <= i < all.len() implies (#[trigger] all[i]).client() == client by {
            if i < earlier.len() {
                assert(all[i] == earlier[i]);
            }
        }
    }
}

/// Whether two states agree on all that concerns a client: its account and its
/// records.
pub open spec fn agree_on(a: State, b: State, client: ClientId) -> bool {
    &&& a.accounts.contains_key(client.0) == b.accounts.contains_key(client.0)
    &&& a.balances(client) == b.balances(client)
    &&& forall|tx: u32| #[trigger]
        a.ledger.contains_key(tx) && a.ledger[tx].client == client ==> b.ledger.contains_key(tx)
            && b.ledger[tx] == a.ledger[tx]
    &&& forall|tx: u32| #[trigger]
        b.ledger.contains_key(tx) && b.ledger[tx].client == client ==> a.ledger.contains_key(tx)
            && a.ledger[tx] == b.ledger[tx]
}

/// A client's account is the fold of that client's events alone: with ids that
/// belong to one client each, the events of others make no difference to its
/// account and records.
pub proof fn law_account_is_the_fold_of_its_events(events: Seq<Event>, client: ClientId)
    requires
        ids_belong_to_one_client(events),
    ensures
        agree_on(
            State::initial().replay(events),
            State::initial().replay(events_of_client(events, client)),
            client,
        ),
    decreases events.len(),
{
    if events.len() > 0 {
        let earlier = events.drop_last();
        let event = events.last();
        let own = events_of_client(earlier, client);
        let before = State::initial().replay(earlier);
        let before_alone = State::initial().replay(own);
        assert forall|i: int, j: int|
            0 <= i < earlier.len() && 0 <= j < earlier.len() && (#[trigger] earlier[i]).is_value()
                && (#[trigger] earlier[j]).is_value() && earlier[i].tx()
                == earlier[j].tx() implies earlier[i].client() == earlier[j].client() by {
            assert(events[i] == earlier[i] && events[j] == earlier[j]);
        }
        law_account_is_the_fold_of_its_events(earlier, client);
        if event.client() == client {
            assert(own.push(event).drop_last() =~= own);
            let tx = event.tx();
            if before_alone.ledger.contains_key(tx.0) {
                lemma_events_of_client(earlier, client);
                lemma_records_have_an_event(own, tx);
                assert(before_alone.ledger[tx.0].client == client);
            }
            if event.is_value() && before.ledger.contains_key(tx.0) {
                lemma_records_have_an_event(earlier, tx);
                let i = choose|i: int|
                    0 <= i < earlier.len() && (#[trigger] earlier[i]).is_value() && earlier[i].tx()
                        == tx && earlier[i].client() == before.ledger[tx.0].client;
                assert(events[i] == earlier[i]);
                assert(events[events.len() - 1] == event);
                assert(before.ledger[tx.0].client == client);
            }
        } else {
            law_clients_are_isolated(before, event, client);
        }
    }
}

/// A run of zeros.
pub open spec fn zeros(k: nat) -> Seq<char> {
    Seq::new(k, |i: int| '0')
}

/// How a number may be written as an identifier: its digits, with any number of
/// zeros before them, and a plus sign before those or none.
pub open spec fn written(n: int, k: nat, plus: bool) -> Seq<char> {
    if plus {
        seq!['+'] + zeros(k) + digits(n)
    } else {
        zeros(k) + digits(n)
    }
}

/// The text that ASCII bytes encode.
spec fn text_of(bytes: Seq<u8>) -> Seq<char> {
    Seq::new(bytes.len(), |i: int| bytes[i] as char)
}

/// ASCII bytes encode a text.
proof fn lemma_text_of(bytes: Seq<u8>)
    requires
        forall|i: int| 0 <= i < bytes.len() ==> #[trigger] bytes[i] < 0x80,
    ensures
        encode_utf8(text_of(bytes)) == bytes,
        valid_utf8(bytes),
{
    let text = text_of(bytes);
    assert(is_ascii_chars(text));
    is_ascii_chars_encode_utf8(text);
    assert forall|i: int| 0 <= i < bytes.len() implies #[trigger] encode_utf8(text)[i]
        == bytes[i] by {
        assert(text[i] as u8 == encode_utf8(text)[i]);
        assert(bytes[i] < 0x80);
    }
    assert(encode_utf8(text) =~= bytes);
    encode_utf8_valid_utf8(text);
}

/// Bytes of digits spell what their text spells.
proof fn lemma_digit_bytes(text: Seq<char>, bytes: Seq<u8>)
    requires
        bytes.len() == text.len(),
        forall|i: int|
            0 <= i < text.len() ==> is_digit(#[trigger] text[i]) && bytes[i] as int == text[i] as int,
    ensures
        all_digits(bytes),
        digit_bytes_value(bytes) == digits_value(text),
    decreases text.len(),
{
    assert forall|i: int| 0 <= i < bytes.len() implies 0x30 <= #[trigger] bytes[i] <= 0x39 by {
        assert(is_digit(text[i]));
    }
    if text.len() > 0 {
        lemma_digit_bytes(text.drop_last(), bytes.drop_last());
        assert(is_digit(text[text.len() - 1]));
    }
}

/// Zeros spell nothing.
proof fn lemma_zeros(k: nat)
    ensures
        digits_value(zeros(k)) == 0,
    decreases k,
{
    if k > 0 {
        lemma_zeros((k - 1) as nat);
        assert(zeros(k).drop_last() =~= zeros((k - 1) as nat));
    }
}

/// An identifier written in decimal reads as its number, and as none where that is
/// beyond the maximum. So different numbers never read as the same client or
/// transaction.
pub proof fn law_identifiers_read_back(n: int, max: int, name: Seq<char>, k: nat, plus: bool)
    requires
        n >= 0,
    ensures
        ({
            let bytes = encode_utf8(written(n, k, plus));
            &&& n <= max ==> identifier(bytes, max) == Some(n)
            &&& n > max ==> identifier(bytes, max) is None
            &&& n <= max ==> read_identifier(Some(bytes), name, max) == Ok::<int, Seq<char>>(n)
            &&& n > max ==> read_identifier(Some(bytes), name, max) is Err
        }),
{
    let text = written(n, k, plus);
    let bytes = encode_utf8(text);
    let number = zeros(k) + digits(n);
    lemma_digits(n);
    lemma_digits_spell(n);
    lemma_zeros(k);
    lemma_digits_follow(zeros(k), digits(n));
    assert(0 * pow10(digits(n).len()) == 0) by (nonlinear_arith);
    assert(digits_value(number) == n);
    assert forall|i: int| 0 <= i < number.len() implies is_digit(#[trigger] number[i]) by {
        if i >= k {
            assert(number[i] == digits(n)[i - k]);
        }
    }
    let start: int = if plus {
        1
    } else {
        0
    };
    assert(text.skip(start) =~= number);
    assert forall|i: int| 0 <= i < text.len() implies '\0' <= #[trigger] text[i] <= '\u{7f}' by {
        if i >= start {
            assert(is_digit(number[i - start]));
            assert(text.skip(start)[i - start] == text[i]);
        }
    }
    assert(is_ascii_chars(text));
    is_ascii_chars_encode_utf8(text);
    encode_utf8_valid_utf8(text);
    let body = bytes.skip(start);
    assert forall|i: int| 0 <= i < number.len() implies is_digit(#[trigger] number[i])
        && body[i] as int == number[i] as int by {
        assert(number[i] == text[i + start]);
        assert(text[i + start] as u8 == bytes[i + start]);
    }
    lemma_digit_bytes(number, body);
    assert(number.len() > 0);
    assert(bytes[0] == text[0] as u8);
    if !plus {
        assert(is_digit(number[0]));
        assert(body =~= bytes);
    }
    assert(without_plus(bytes) =~= body);
}

/// A run of digits is that of a number, with zeros before it.
proof fn lemma_digits_of_a_number(text: Seq<char>) -> (k: nat)
    requires
        text.len() > 0,
        forall|i: int| 0 <= i < text.len() ==> is_digit(#[trigger] text[i]),
    ensures
        digits_value(text) >= 0,
        text == zeros(k) + digits(digits_value(text)),
    decreases text.len(),
{
    let d = text.last() as int - '0' as int;
    assert(is_digit(text[text.len() - 1]));
    let earlier = text.drop_last();
    law_digits_are_decimal(0, d);
    assert(digits(d) =~= seq![text.last()]);
    assert(text =~= earlier.push(text.last()));
    if earlier.len() == 0 {
        assert(digits_value(earlier) == 0);
        assert(text =~= zeros(0) + digits(d));
        0
    } else {
        let k = lemma_digits_of_a_number(earlier);
        let v = digits_value(earlier);
        if v > 0 {
            law_digits_are_decimal(v, d);
            assert(text =~= zeros(k) + digits(10 * v + d));
            k
        } else {
            law_digits_are_decimal(0, 0);
            assert(earlier =~= zeros(k + 1));
            assert(text =~= zeros(k + 1) + digits(d));
            k + 1
        }
    }
}

/// Nothing but a number in decimal reads as an identifier.
pub proof fn law_only_decimal_reads_as_an_identifier(bytes: Seq<u8>, max: int)
    ensures
        identifier(bytes, max) matches Some(n) ==> {
            &&& 0 <= n <= max
            &&& exists|k: nat, plus: bool| bytes == encode_utf8(#[trigger] written(n, k, plus))
        },
{
    if let Some(n) = identifier(bytes, max) {
        let body = without_plus(bytes);
        let text = text_of(body);
        lemma_digit_bytes(text, body);
        let k = lemma_digits_of_a_number(text);
        let plus = bytes[0] == 0x2b;
        let start: int = if plus {
            1
        } else {
            0
        };
        assert forall|i: int| 0 <= i < bytes.len() implies #[trigger] bytes[i] < 0x80 by {
            if i >= start {
                assert(body[i - start] == bytes[i]);
            }
        }
        lemma_text_of(bytes);
        let whole = text_of(bytes);
        assert(whole.skip(start) =~= text);
        assert(plus ==> whole =~= seq!['+'] + whole.skip(1));
        assert(!plus ==> whole =~= whole.skip(0));
        assert(seq!['+'] + (zeros(k) + digits(n)) =~= seq!['+'] + zeros(k) + digits(n));
        assert(whole =~= written(n, k, plus));
        assert(bytes == encode_utf8(written(n, k, plus)));
    }
}

/// Where the first byte looked for stands.
proof fn lemma_first_of(bytes: Seq<u8>, a: u8, b: u8, at: int)
    requires
        0 <= at <= bytes.len(),
        forall|i: int| 0 <= i < at ==> #[trigger] bytes[i] != a && bytes[i] != b,
        at < bytes.len() ==> bytes[at] == a || bytes[at] == b,
    ensures
        first_of(bytes, a, b) == at,
    decreases at,
{
    if at > 0 {
        assert(bytes[0] != a && bytes[0] != b);
        lemma_first_of(bytes.skip(1), a, b, at - 1);
    }
}

/// Whether a byte is an ASCII digit.
pub open spec fn is_digit_byte(byte: u8) -> bool {
    0x30 <= byte <= 0x39
}

/// Counting digits behind a point.
proof fn lemma_count_digits(bytes: Seq<u8>)
    ensures
        count_digits(bytes) == bytes.filter(|b: u8| is_digit_byte(b)).len(),
        count_digits(seq![0x2e] + bytes) == count_digits(bytes),
    decreases bytes.len(),
{
    reveal(Seq::filter);
    if bytes.len() == 0 {
        assert((seq![0x2e] + bytes).drop_last() =~= Seq::<u8>::empty());
        assert(count_digits(Seq::<u8>::empty()) == 0);
    } else {
        lemma_count_digits(bytes.drop_last());
        assert((seq![0x2e] + bytes).drop_last() =~= seq![0x2e] + bytes.drop_last());
    }
}

/// All of a run of digits are digits.
proof fn lemma_count_all(bytes: Seq<u8>)
    requires
        forall|i: int| 0 <= i < bytes.len() ==> is_digit_byte(#[trigger] bytes[i]),
    ensures
        count_digits(bytes) == bytes.len(),
    decreases bytes.len(),
{
    if bytes.len() > 0 {
        lemma_count_all(bytes.drop_last());
        assert(is_digit_byte(bytes[bytes.len() - 1]));
    }
}

/// Whether no exponent is marked.
pub open spec fn has_no_exponent(bytes: Seq<u8>) -> bool {
    forall|i: int| 0 <= i < bytes.len() ==> #[trigger] bytes[i] != 0x65 && bytes[i] != 0x45
}

/// The decimal places an amount is written with are the digits behind its first
/// point, whatever else stands among them; without a point there are none.
pub proof fn law_written_places_are_the_digits_behind_the_point(whole: Seq<u8>, behind: Seq<u8>)
    requires
        has_no_exponent(whole),
        has_no_exponent(behind),
        !whole.contains(0x2e),
    ensures
        written_places(whole) == 0,
        written_places(whole + seq![0x2eu8] + behind) == behind.filter(
            |b: u8| is_digit_byte(b),
        ).len(),
{
    assert forall|i: int| 0 <= i < whole.len() implies #[trigger] whole[i] != 0x2e by {
        assert(whole.contains(whole[i]));
    }
    lemma_first_of(whole, 0x65, 0x45, whole.len() as int);
    assert(whole.take(whole.len() as int) =~= whole);
    lemma_first_of(whole, 0x2e, 0x2e, whole.len() as int);
    assert(whole.skip(whole.len() as int) =~= Seq::<u8>::empty());
    let bytes = whole + seq![0x2eu8] + behind;
    assert forall|i: int| 0 <= i < bytes.len() implies #[trigger] bytes[i] != 0x65 && bytes[i]
        != 0x45 by {
        if i < whole.len() {
            assert(bytes[i] == whole[i]);
        } else if i > whole.len() {
            assert(bytes[i] == behind[i - whole.len() - 1]);
        }
    }
    lemma_first_of(bytes, 0x65, 0x45, bytes.len() as int);
    assert(bytes.take(bytes.len() as int) =~= bytes);
    assert forall|i: int| 0 <= i < whole.len() implies #[trigger] bytes[i] != 0x2e by {
        assert(bytes[i] == whole[i]);
    }
    lemma_first_of(bytes, 0x2e, 0x2e, whole.len() as int);
    assert(bytes.skip(whole.len() as int) =~= seq![0x2eu8] + behind);
    lemma_count_digits(behind);
}

/// An exponent moves the point: it takes as many decimal places away as it says, and
/// a negative one adds them. What is no number moves nothing.
pub proof fn law_exponents_move_the_point(base: Seq<u8>, e: u8, behind: Seq<u8>)
    requires
        has_no_exponent(base),
        e == 0x65 || e == 0x45,
    ensures
        ({
            let moved = written_places(base.push(e) + behind) - written_places(base);
            if behind.len() > 0 && behind[0] == 0x2d {
                moved == match identifier(behind.skip(1), 4294967295) {
                    Some(n) => n,
                    None => 0,
                }
            } else {
                moved == match identifier(behind, 4294967295) {
                    Some(n) => -n,
                    None => 0,
                }
            }
        }),
{
    let whole = base.push(e) + behind;
    let end = base.len() as int;
    assert forall|i: int| 0 <= i < end implies #[trigger] whole[i] != 0x65 && whole[i] != 0x45 by {
        assert(whole[i] == base[i]);
    }
    lemma_first_of(base, 0x65, 0x45, end);
    lemma_first_of(whole, 0x65, 0x45, end);
    assert(base.take(end) =~= base);
    assert(whole.take(end) =~= base);
    assert(whole.skip(end + 1) =~= behind);
}

/// An amount in plain notation is written with as many places as it has digits behind
/// its point.
proof fn lemma_plain_places(text: Seq<char>)
    requires
        is_plain(text),
    ensures
        written_places(encode_utf8(text)) == behind_point(unsigned(text)).len(),
        encode_utf8(text).len() == text.len() > 0,
{
    let bytes = encode_utf8(text);
    let body = unsigned(text);
    let start = text.len() - body.len();
    lemma_plain_characters(text);
    assert forall|i: int| 0 <= i < text.len() implies '\0' <= #[trigger] text[i] <= '\u{7f}' by {
        assert(is_digit(text[i]) || text[i] == '.' || text[i] == '-' || text[i] == '+');
    }
    assert(is_ascii_chars(text));
    is_ascii_chars_encode_utf8(text);
    assert forall|i: int| 0 <= i < bytes.len() implies #[trigger] bytes[i] != 0x65 && bytes[i]
        != 0x45 && bytes[i] as int == text[i] as int by {
        assert(text[i] as u8 == bytes[i]);
        assert(is_digit(text[i]) || text[i] == '.' || text[i] == '-' || text[i] == '+');
    }
    body.index_of_first_ensures('.');
    assert forall|i: int| 0 <= i < body.len() implies body[i] == #[trigger] text[i + start] by {
    }
    if body.contains('.') {
        let p = body.index_of_first('.')->0 + start;
        let whole = bytes.take(p);
        let behind = bytes.skip(p + 1);
        assert(text[p] == body[p - start]);
        assert(bytes =~= whole + seq![0x2eu8] + behind);
        assert forall|i: int| 0 <= i < whole.len() implies #[trigger] whole[i] != 0x2e by {
            assert(whole[i] == bytes[i]);
            if i >= start {
                assert(body[i - start] != '.');
                assert(text[i] == body[i - start]);
            }
        }
        assert(!whole.contains(0x2e));
        law_written_places_are_the_digits_behind_the_point(whole, behind);
        lemma_count_digits(behind);
        let digits_behind = behind_point(body);
        assert forall|i: int| 0 <= i < behind.len() implies is_digit_byte(#[trigger] behind[i]) by {
            assert(behind[i] == bytes[p + 1 + i]);
            assert(digits_behind[i] == body[p - start + 1 + i]);
            assert(is_digit(digits_behind[i]));
        }
        lemma_count_all(behind);
    } else {
        assert forall|i: int| 0 <= i < bytes.len() implies #[trigger] bytes[i] != 0x2e by {
            assert(bytes[i] as int == text[i] as int);
            if i >= start {
                assert(body.contains(body[i - start]));
                assert(text[i] == body[i - start]);
            }
        }
        assert(!bytes.contains(0x2e));
        law_written_places_are_the_digits_behind_the_point(bytes, seq![]);
    }
}

/// An amount is read as just the number that its text stands for, sign and all, and
/// it is read exactly where there is such a number, with at most four decimal places
/// and written with no more.
pub proof fn law_amount_is_what_is_written(bytes: Seq<u8>, amount: Number)
    ensures
        read_amount(Some(bytes)) == Ok::<Number, Seq<char>>(amount) <==> {
            &&& bytes.len() > 0
            &&& valid_utf8(bytes)
            &&& number_of(decode_utf8(bytes)) == Some(amount)
            &&& amount.scale <= 4
            &&& written_places(bytes) <= 4
        },
        read_amount(None) is Err,
{
}

/// Every amount in plain notation with at most four decimal places is read, if it is
/// in range, as the number it stands for: not negative without a minus sign, not
/// positive with one, and zero only where all its digits are.
pub proof fn law_plain_amounts_are_read_exactly(text: Seq<char>)
    requires
        is_plain(text),
        plain_number(text).fits(),
        behind_point(unsigned(text)).len() <= 4,
    ensures
        read_amount(Some(encode_utf8(text))) == Ok::<Number, Seq<char>>(plain_number(text)),
        text[0] != '-' ==> plain_number(text).value() >= 0,
        text[0] == '-' ==> plain_number(text).value() <= 0,
        plain_number(text).value() == 0 ==> forall|i: int|
            0 <= i < plain_digits(text).len() ==> #[trigger] plain_digits(text)[i] == '0',
{
    lemma_plain_places(text);
    encode_utf8_valid_utf8(text);
    encode_utf8_decode_utf8(text);
    lemma_digits_value_sign(plain_digits(text));
    lemma_value_sign(plain_number(text));
    if plain_number(text).value() == 0 {
        assert forall|i: int| 0 <= i < plain_digits(text).len() implies #[trigger] plain_digits(
            text,
        )[i] == '0' by {
            if plain_digits(text)[i] != '0' {
                lemma_digits_value_positive(plain_digits(text), i);
            }
        }
    }
}

/// An amount reads back: whatever number with at most four decimal places is written
/// out in full, just that is read.
pub proof fn law_amounts_read_back(amount: Number)
    requires
        amount.fits(),
        amount.scale <= 4,
    ensures
        read_amount(Some(encode_utf8(amount.text()))) == Ok::<Number, Seq<char>>(amount),
{
    law_text_stands_for_its_number(amount);
    law_plain_amounts_are_read_exactly(amount.text());
}

/// The bytes of a word spell it, and no others do.
proof fn lemma_spells(bytes: Seq<u8>, word: Seq<char>)
    requires
        is_ascii_chars(word),
    ensures
        spells(bytes, word) <==> bytes == encode_utf8(word),
{
    is_ascii_chars_encode_utf8(word);
    let encoded = encode_utf8(word);
    assert forall|i: int| 0 <= i < word.len() implies #[trigger] encoded[i] as int
        == word[i] as int by {
        assert(word[i] as u8 == encoded[i]);
        assert('\0' <= word[i] <= '\u{7f}');
    }
    if spells(bytes, word) {
        assert(bytes =~= encoded);
    }
}

/// Which type a row is of is told by its first column, byte for byte.
proof fn lemma_kinds(kind: Seq<u8>)
    ensures
        spells(kind, "deposit"@) <==> kind == encode_utf8("deposit"@),
        spells(kind, "withdrawal"@) <==> kind == encode_utf8("withdrawal"@),
        spells(kind, "dispute"@) <==> kind == encode_utf8("dispute"@),
        spells(kind, "resolve"@) <==> kind == encode_utf8("resolve"@),
        spells(kind, "chargeback"@) <==> kind == encode_utf8("chargeback"@),
        spells(kind, "deposit"@) ==> !spells(kind, "dispute"@) && !spells(kind, "resolve"@),
        spells(kind, "dispute"@) ==> !spells(kind, "resolve"@),
        spells(kind, "withdrawal"@) ==> !spells(kind, "chargeback"@),
        spells(kind, "deposit"@) || spells(kind, "dispute"@) || spells(kind, "resolve"@)
            ==> !spells(kind, "withdrawal"@) && !spells(kind, "chargeback"@),
{
    reveal_strlit("deposit");
    reveal_strlit("withdrawal");
    reveal_strlit("dispute");
    reveal_strlit("resolve");
    reveal_strlit("chargeback");
    lemma_spells(kind, "deposit"@);
    lemma_spells(kind, "withdrawal"@);
    lemma_spells(kind, "dispute"@);
    lemma_spells(kind, "resolve"@);
    lemma_spells(kind, "chargeback"@);
    assert(spells(kind, "deposit"@) ==> kind[1] as int == 'e' as int && kind[0] as int == 'd' as int);
    assert(spells(kind, "dispute"@) ==> kind[1] as int == 'i' as int && kind[0] as int == 'd' as int);
    assert(spells(kind, "resolve"@) ==> kind[0] as int == 'r' as int);
    assert(spells(kind, "withdrawal"@) ==> kind[0] as int == 'w' as int);
    assert(spells(kind, "chargeback"@) ==> kind[0] as int == 'c' as int);
}

/// An identifier is text.
proof fn lemma_identifier_is_text(bytes: Seq<u8>, max: int)
    ensures
        identifier(bytes, max) is Some ==> valid_utf8(bytes),
{
    if let Some(n) = identifier(bytes, max) {
        law_only_decimal_reads_as_an_identifier(bytes, max);
        let (k, plus) = choose|k: nat, plus: bool|
            bytes == encode_utf8(#[trigger] written(n, k, plus));
        encode_utf8_valid_utf8(written(n, k, plus));
    }
}

/// A record states an event exactly where its columns say so: the type, the client, the
/// transaction, and for a deposit or withdrawal the amount.
pub proof fn law_records_state_what_their_columns_say(row: Row, event: Event)
    ensures
        read_event(row) == Ok::<Event, Seq<char>>(event) <==> {
            let (word, client, tx) = match event {
                Event::Deposit { client, tx, .. } => ("deposit"@, client, tx),
                Event::Withdrawal { client, tx, .. } => ("withdrawal"@, client, tx),
                Event::Dispute { client, tx } => ("dispute"@, client, tx),
                Event::Resolve { client, tx } => ("resolve"@, client, tx),
                Event::Chargeback { client, tx } => ("chargeback"@, client, tx),
            };
            &&& row.kind == Some(encode_utf8(word))
            &&& row.client is Some && identifier(row.client->0, 65535) == Some(client.0 as int)
            &&& row.tx is Some && identifier(row.tx->0, 4294967295) == Some(tx.0 as int)
            &&& match event {
                Event::Deposit { amount, .. } => read_amount(row.amount) == Ok::<
                    Number,
                    Seq<char>,
                >(amount),
                Event::Withdrawal { amount, .. } => read_amount(row.amount) == Ok::<
                    Number,
                    Seq<char>,
                >(amount),
                _ => true,
            }
        },
{
    if let Some(kind) = row.kind {
        lemma_kinds(kind);
    }
    if let Some(bytes) = row.client {
        lemma_identifier_is_text(bytes, 65535);
        law_only_decimal_reads_as_an_identifier(bytes, 65535);
    }
    if let Some(bytes) = row.tx {
        lemma_identifier_is_text(bytes, 4294967295);
        law_only_decimal_reads_as_an_identifier(bytes, 4294967295);
    }
}

/// A row states an event exactly where its fields say so: the type in the first, the
/// client in the second, the transaction in the third, and for a deposit or withdrawal
/// the amount in the fourth, with nothing behind it.
pub proof fn law_rows_state_what_their_fields_say(fields: Seq<Seq<u8>>, event: Event)
    ensures
        read_fields(fields) == Ok::<Event, Seq<char>>(event) <==> {
            let (word, client, tx) = match event {
                Event::Deposit { client, tx, .. } => ("deposit"@, client, tx),
                Event::Withdrawal { client, tx, .. } => ("withdrawal"@, client, tx),
                Event::Dispute { client, tx } => ("dispute"@, client, tx),
                Event::Resolve { client, tx } => ("resolve"@, client, tx),
                Event::Chargeback { client, tx } => ("chargeback"@, client, tx),
            };
            &&& 3 <= fields.len() <= 4
            &&& fields[0] == encode_utf8(word)
            &&& identifier(fields[1], 65535) == Some(client.0 as int)
            &&& identifier(fields[2], 4294967295) == Some(tx.0 as int)
            &&& match event {
                Event::Deposit { amount, .. } => fields.len() == 4 && read_amount(Some(fields[3]))
                    == Ok::<Number, Seq<char>>(amount),
                Event::Withdrawal { amount, .. } => fields.len() == 4 && read_amount(
                    Some(fields[3]),
                ) == Ok::<Number, Seq<char>>(amount),
                _ => true,
            }
        },
{
    law_records_state_what_their_columns_say(columns(fields), event);
}

/// How an event is written as the fields of a row.
pub open spec fn written_row(event: Event) -> Seq<Seq<u8>> {
    match event {
        Event::Deposit { client, tx, amount } => seq![
            encode_utf8("deposit"@),
            encode_utf8(digits(client.0 as int)),
            encode_utf8(digits(tx.0 as int)),
            encode_utf8(amount.text()),
        ],
        Event::Withdrawal { client, tx, amount } => seq![
            encode_utf8("withdrawal"@),
            encode_utf8(digits(client.0 as int)),
            encode_utf8(digits(tx.0 as int)),
            encode_utf8(amount.text()),
        ],
        Event::Dispute { client, tx } => seq![
            encode_utf8("dispute"@),
            encode_utf8(digits(client.0 as int)),
            encode_utf8(digits(tx.0 as int)),
        ],
        Event::Resolve { client, tx } => seq![
            encode_utf8("resolve"@),
            encode_utf8(digits(client.0 as int)),
            encode_utf8(digits(tx.0 as int)),
        ],
        Event::Chargeback { client, tx } => seq![
            encode_utf8("chargeback"@),
            encode_utf8(digits(client.0 as int)),
            encode_utf8(digits(tx.0 as int)),
        ],
    }
}

/// Events read back: a row that an event is written as states just that event, with
/// its own type, client, transaction and amount.
pub proof fn law_events_read_back(event: Event)
    requires
        event.fits(),
        event.amount().scale <= 4,
    ensures
        read_fields(written_row(event)) == Ok::<Event, Seq<char>>(event),
        item_of(Some(written_row(event))) == Some(event),
{
    let fields = written_row(event);
    let client = event.client().0 as int;
    let tx = event.tx().0 as int;
    law_identifiers_read_back(client, 65535, seq![], 0, false);
    law_identifiers_read_back(tx, 4294967295, seq![], 0, false);
    assert(written(client, 0, false) =~= digits(client));
    assert(written(tx, 0, false) =~= digits(tx));
    if event.is_value() {
        law_amounts_read_back(event.amount());
    }
    law_rows_state_what_their_fields_say(fields, event);
}

/// A malformed row says why: the first of its columns that cannot be read, in the
/// order client, transaction, type, amount, unless it has too many.
pub proof fn law_malformed_rows_say_why(fields: Seq<Seq<u8>>)
    requires
        read_fields(fields) is Err,
    ensures
        ({
            let reason = read_fields(fields)->Err_0;
            let kind = if fields.len() > 0 {
                Some(fields[0])
            } else {
                None
            };
            let client = if fields.len() > 1 {
                Some(fields[1])
            } else {
                None
            };
            let tx = if fields.len() > 2 {
                Some(fields[2])
            } else {
                None
            };
            let amount = if fields.len() > 3 {
                Some(fields[3])
            } else {
                None
            };
            if fields.len() > 4 {
                reason == "too many fields"@
            } else if read_identifier(client, "client"@, 65535) is Err {
                reason == read_identifier(client, "client"@, 65535)->Err_0
            } else if read_identifier(tx, "tx"@, 4294967295) is Err {
                reason == read_identifier(tx, "tx"@, 4294967295)->Err_0
            } else if kind == Some(encode_utf8("deposit"@)) || kind == Some(
                encode_utf8("withdrawal"@),
            ) {
                read_amount(amount) is Err && reason == read_amount(amount)->Err_0
            } else {
                reason == "unknown type: "@ + if valid_utf8(fields[0]) {
                    decode_utf8(fields[0])
                } else {
                    lossy_text(fields[0])
                }
            }
        }),
{
    if fields.len() > 0 {
        lemma_kinds(fields[0]);
    }
}

/// A client or transaction column that cannot be read says why.
pub proof fn law_malformed_identifiers_say_why(
    field: Option<Seq<u8>>,
    name: Seq<char>,
    max: int,
    reason: Seq<char>,
)
    ensures
        read_identifier(field, name, max) == Err::<int, Seq<char>>(reason) <==> match field {
            None => reason == "missing "@ + name,
            Some(bytes) => if valid_utf8(bytes) {
                identifier(bytes, max) is None && reason == "invalid "@ + name + ": "@
                    + decode_utf8(bytes)
            } else {
                reason == name + " is not valid UTF-8"@
            },
        },
{
}

/// An amount column that cannot be read says why.
pub proof fn law_malformed_amounts_say_why(field: Option<Seq<u8>>, reason: Seq<char>)
    requires
        read_amount(field) == Err::<Number, Seq<char>>(reason),
    ensures
        match field {
            None => reason == "missing amount"@,
            Some(bytes) => if bytes.len() == 0 {
                reason == "missing amount"@
            } else if !valid_utf8(bytes) {
                reason == "amount is not valid UTF-8"@
            } else if number_of(decode_utf8(bytes)) is None {
                reason == "invalid amount: "@ + decode_utf8(bytes)
            } else {
                reason == "amount exceeds 4 dp: "@ + decode_utf8(bytes)
            },
        },
{
}

/// Rows are handed out as they read: a transaction is the event that the row states,
/// and an error gives the reason why it states none.
pub proof fn law_rows_are_handed_out_as_they_read(
    fields: Seq<Seq<u8>>,
    item: Result<Transaction, EngineError>,
)
    ensures
        handed_out(Some(fields), item) ==> match item {
            Ok(transaction) => {
                &&& read_fields(fields) == Ok::<Event, Seq<char>>(transaction@)
                &&& item_of(Some(fields)) == Some(transaction@)
            },
            Err(EngineError::Malformed(message)) => {
                &&& read_fields(fields) == Err::<Event, Seq<char>>(message@)
                &&& item_of(Some(fields)) is None
            },
            Err(EngineError::Csv(_)) => false,
        },
        handed_out(None, item) ==> item matches Err(EngineError::Csv(_)),
{
}

/// A record whose client and transaction can be read, but that has no type, says so.
pub proof fn law_a_record_without_a_type_says_so(row: Row)
    requires
        row.kind is None,
        read_identifier(row.client, "client"@, 65535) is Ok,
        read_identifier(row.tx, "tx"@, 4294967295) is Ok,
    ensures
        read_event(row) == Err::<Event, Seq<char>>("unknown type: "@ + "<missing>"@),
{
}

/// A record's columns are its fields, byte for byte, and so are those of a row.
pub proof fn law_columns_are_the_fields(
    record: Record,
    fields: Seq<&[u8]>,
    owned: Seq<Vec<u8>>,
    i: int,
)
    requires
        0 <= i < fields.len(),
        0 <= i < owned.len(),
    ensures
        record@.kind == match record.kind {
            Some(bytes) => Some(bytes@),
            None => None,
        },
        record@.client == match record.client {
            Some(bytes) => Some(bytes@),
            None => None,
        },
        record@.tx == match record.tx {
            Some(bytes) => Some(bytes@),
            None => None,
        },
        record@.amount == match record.amount {
            Some(bytes) => Some(bytes@),
            None => None,
        },
        bytes_of(fields).len() == fields.len(),
        bytes_of(fields)[i] == fields[i]@,
        field_bytes(owned).len() == owned.len(),
        field_bytes(owned)[i] == owned[i]@,
{
}

/// A transaction says what its event says, field by field.
pub proof fn law_a_transaction_is_its_event(transaction: Transaction)
    ensures
        match (transaction, transaction@) {
            (
                Transaction::Deposit { client, tx, amount },
                Event::Deposit { client: c, tx: t, amount: a },
            ) => client == c && tx == t && amount@ == a,
            (
                Transaction::Withdrawal { client, tx, amount },
                Event::Withdrawal { client: c, tx: t, amount: a },
            ) => client == c && tx == t && amount@ == a,
            (Transaction::Dispute { client, tx }, Event::Dispute { client: c, tx: t }) => client
                == c && tx == t,
            (Transaction::Resolve { client, tx }, Event::Resolve { client: c, tx: t }) => client
                == c && tx == t,
            (
                Transaction::Chargeback { client, tx },
                Event::Chargeback { client: c, tx: t },
            ) => client == c && tx == t,
            _ => false,
        },
{
}

/// The events of rows are those that the rows state, each once and in order.
pub proof fn law_events_are_those_of_the_rows(
    rows: Seq<Option<Seq<Seq<u8>>>>,
    fields: Seq<Seq<u8>>,
)
    ensures
        events_of(Seq::<Option<Seq<Seq<u8>>>>::empty()) == Seq::<Event>::empty(),
        events_of(rows.push(None)) == events_of(rows),
        events_of(rows.push(Some(fields))) == match read_fields(fields) {
            Ok(event) => events_of(rows).push(event),
            Err(_) => events_of(rows),
        },
{
    assert(rows.push(None).drop_last() =~= rows);
    assert(rows.push(Some(fields)).drop_last() =~= rows);
}

} // verus!
