//! How CSV text falls into records and fields.

use vstd::prelude::*;

verus! {

/// The parts of `bytes` between separators; a lone empty part where there is
/// nothing.
pub open spec fn split(bytes: Seq<u8>, separators: Set<u8>) -> Seq<Seq<u8>>
    decreases bytes.len(),
{
    if bytes.len() == 0 {
        seq![seq![]]
    } else {
        let parts = split(bytes.drop_last(), separators);
        if separators.contains(bytes.last()) {
            parts.push(seq![])
        } else {
            parts.drop_last().push(parts.last().push(bytes.last()))
        }
    }
}

/// A line ends with a line feed, a carriage return, or both.
pub open spec fn line_ends() -> Set<u8> {
    set![0x0a, 0x0d]
}

/// Fields are separated by commas.
pub open spec fn field_ends() -> Set<u8> {
    set![0x2c]
}

/// Space, tab, line feed, form feed or carriage return.
pub open spec fn is_whitespace(byte: u8) -> bool {
    byte == 0x20 || byte == 0x09 || byte == 0x0a || byte == 0x0c || byte == 0x0d
}

/// The bytes without the whitespace around them.
pub open spec fn trimmed(bytes: Seq<u8>) -> Seq<u8>
    decreases bytes.len(),
{
    if bytes.len() > 0 && is_whitespace(bytes.first()) {
        trimmed(bytes.drop_first())
    } else if bytes.len() > 0 && is_whitespace(bytes.last()) {
        trimmed(bytes.drop_last())
    } else {
        bytes
    }
}

/// Whether a source is plain: it holds no quotes, and no byte order mark leads it.
pub open spec fn is_plain_source(source: Seq<u8>) -> bool {
    &&& !source.contains(0x22)
    &&& !(source.len() >= 3 && source[0] == 0xef && source[1] == 0xbb && source[2] == 0xbf)
}

/// The lines of a source that are not empty.
pub open spec fn filled_lines(source: Seq<u8>) -> Seq<Seq<u8>> {
    split(source, line_ends()).filter(|line: Seq<u8>| line.len() > 0)
}

/// The fields of a line.
pub open spec fn line_fields(line: Seq<u8>) -> Seq<Seq<u8>> {
    split(line, field_ends()).map_values(|field: Seq<u8>| trimmed(field))
}

/// The records of a plain source: one for each line that is not empty, but for the
/// first, which is a header.
pub open spec fn plain_records(source: Seq<u8>) -> Seq<Seq<Seq<u8>>> {
    let lines = filled_lines(source);
    if lines.len() == 0 {
        seq![]
    } else {
        lines.drop_first().map_values(|line: Seq<u8>| line_fields(line))
    }
}

/// The records that the `csv` crate reads from a source whose first record is a
/// header, each as its fields.
pub uninterp spec fn csv_records(source: Seq<u8>) -> Seq<Seq<Seq<u8>>>;

/// The records of a source behind its header, each as its fields: of a plain
/// source those that its lines hold, and of any other what the `csv` crate makes of
/// it.
pub open spec fn records_of(source: Seq<u8>) -> Seq<Seq<Seq<u8>>> {
    if is_plain_source(source) {
        plain_records(source)
    } else {
        csv_records(source)
    }
}

/// The parts of a text that a separator divides are those before it and those
/// behind it.
pub proof fn lemma_split_at(before: Seq<u8>, separator: u8, after: Seq<u8>, separators: Set<u8>)
    requires
        separators.contains(separator),
    ensures
        split(before.push(separator) + after, separators) == split(before, separators) + split(
            after,
            separators,
        ),
    decreases after.len(),
{
    let whole = before.push(separator) + after;
    if after.len() == 0 {
        assert(whole.drop_last() =~= before);
        assert(split(before, separators).push(seq![]) =~= split(before, separators) + seq![
            Seq::<u8>::empty(),
        ]);
    } else {
        lemma_split_at(before, separator, after.drop_last(), separators);
        lemma_split_has_parts(after.drop_last(), separators);
        assert(whole.drop_last() =~= before.push(separator) + after.drop_last());
        let first = split(before, separators);
        let second = split(after.drop_last(), separators);
        assert((first + second).push(seq![]) =~= first + second.push(seq![]));
        assert((first + second).last() == second.last());
        assert((first + second).drop_last() =~= first + second.drop_last());
        let last = second.last().push(after.last());
        assert((first + second.drop_last()).push(last) =~= first + second.drop_last().push(last));
    }
}

/// There is always a part.
proof fn lemma_split_has_parts(bytes: Seq<u8>, separators: Set<u8>)
    ensures
        split(bytes, separators).len() > 0,
    decreases bytes.len(),
{
    if bytes.len() > 0 {
        lemma_split_has_parts(bytes.drop_last(), separators);
    }
}

/// A carriage return before a line feed makes no difference.
pub proof fn law_crlf_reads_like_lf(before: Seq<u8>, after: Seq<u8>)
    requires
        is_plain_source(before.push(0x0a) + after),
    ensures
        records_of(before.push(0x0d).push(0x0a) + after) == records_of(before.push(0x0a) + after),
{
    let lf = before.push(0x0a) + after;
    let crlf = before.push(0x0d).push(0x0a) + after;
    let filled = |line: Seq<u8>| line.len() > 0;
    let first = split(before, line_ends());
    let second = split(after, line_ends());
    assert(is_plain_source(crlf)) by {
        assert forall|i: int| 0 <= i < crlf.len() implies #[trigger] crlf[i] != 0x22 by {
            if i < before.len() {
                assert(lf.contains(lf[i]) && lf[i] == crlf[i]);
            } else if i >= before.len() + 2 {
                assert(lf.contains(lf[i - 1]) && lf[i - 1] == crlf[i]);
            }
        }
    }
    lemma_split_at(before, 0x0a, after, line_ends());
    lemma_split_at(before.push(0x0d), 0x0a, after, line_ends());
    assert(before.push(0x0d) + Seq::<u8>::empty() =~= before.push(0x0d));
    lemma_split_at(before, 0x0d, seq![], line_ends());
    let nothing = seq![Seq::<u8>::empty()];
    Seq::filter_distributes_over_add(first, second, filled);
    Seq::filter_distributes_over_add(first + nothing, second, filled);
    Seq::filter_distributes_over_add(first, nothing, filled);
    assert(nothing.filter(filled) =~= Seq::<Seq<u8>>::empty()) by {
        reveal_with_fuel(Seq::filter, 2);
        assert(nothing.drop_last() =~= Seq::<Seq<u8>>::empty());
        assert(!filled(nothing.last()));
    }
    assert(first.filter(filled) + Seq::<Seq<u8>>::empty() =~= first.filter(filled));
    assert(filled_lines(crlf) == filled_lines(lf));
}

/// Whether there is nothing but whitespace.
pub open spec fn is_blank(bytes: Seq<u8>) -> bool {
    forall|i: int| 0 <= i < bytes.len() ==> is_whitespace(#[trigger] bytes[i])
}

/// Whitespace around a field makes no difference.
pub proof fn law_surrounding_whitespace_is_ignored(
    before: Seq<u8>,
    field: Seq<u8>,
    after: Seq<u8>,
)
    requires
        is_blank(before),
        is_blank(after),
    ensures
        trimmed(before + field + after) == trimmed(field),
    decreases before.len(), field.len(), after.len(),
{
    let whole = before + field + after;
    if before.len() > 0 {
        assert(whole.first() == before[0]);
        assert(whole.drop_first() =~= before.drop_first() + field + after);
        law_surrounding_whitespace_is_ignored(before.drop_first(), field, after);
    } else if field.len() > 0 && is_whitespace(field.first()) {
        assert(whole.first() == field[0]);
        assert(whole.drop_first() =~= before + field.drop_first() + after);
        law_surrounding_whitespace_is_ignored(before, field.drop_first(), after);
    } else if after.len() > 0 {
        assert(whole.last() == after[after.len() - 1]);
        if field.len() > 0 {
            assert(whole.first() == field[0]);
            assert(whole.drop_last() =~= before + field + after.drop_last());
            law_surrounding_whitespace_is_ignored(before, field, after.drop_last());
        } else {
            assert(whole.first() == after[0]);
            assert(whole.drop_first() =~= before + field + after.drop_first());
            law_surrounding_whitespace_is_ignored(before, field, after.drop_first());
        }
    } else {
        assert(whole =~= field);
    }
}

/// Without a separator there is just one part.
pub proof fn lemma_split_whole(bytes: Seq<u8>, separators: Set<u8>)
    requires
        forall|i: int| 0 <= i < bytes.len() ==> !separators.contains(#[trigger] bytes[i]),
    ensures
        split(bytes, separators) == seq![bytes],
    decreases bytes.len(),
{
    if bytes.len() == 0 {
        assert(bytes =~= Seq::<u8>::empty());
    } else {
        let shorter = bytes.drop_last();
        lemma_split_whole(shorter, separators);
        assert(!separators.contains(bytes[bytes.len() - 1]));
        assert(shorter.push(bytes.last()) =~= bytes);
        assert(seq![shorter].drop_last() =~= Seq::<Seq<u8>>::empty());
        assert(split(bytes, separators) =~= seq![bytes]);
    }
}

/// One more line behind a source that is empty or ends with a line feed.
pub proof fn lemma_one_more_line(source: Seq<u8>, line: Seq<u8>)
    requires
        source.len() == 0 || source.last() == 0x0a,
        line.len() > 0,
        forall|i: int| 0 <= i < line.len() ==> !line_ends().contains(#[trigger] line[i]),
    ensures
        filled_lines(source + line.push(0x0a)) == filled_lines(source).push(line),
{
    let filled = |line: Seq<u8>| line.len() > 0;
    let ends = line_ends();
    let nothing = seq![Seq::<u8>::empty()];
    lemma_split_whole(line, ends);
    lemma_split_whole(Seq::<u8>::empty(), ends);
    lemma_split_at(line, 0x0a, seq![], ends);
    assert(line.push(0x0a) + Seq::<u8>::empty() =~= line.push(0x0a));
    let parts = seq![line] + nothing;
    assert(split(line.push(0x0a), ends) =~= parts);
    assert(nothing.filter(filled) =~= Seq::<Seq<u8>>::empty()) by {
        reveal_with_fuel(Seq::filter, 2);
        assert(nothing.drop_last() =~= Seq::<Seq<u8>>::empty());
        assert(!filled(nothing.last()));
    }
    assert(seq![line].filter(filled) =~= seq![line]) by {
        reveal_with_fuel(Seq::filter, 2);
        assert(seq![line].drop_last() =~= Seq::<Seq<u8>>::empty());
        assert(filled(seq![line].last()));
    }
    Seq::filter_distributes_over_add(seq![line], nothing, filled);
    assert(parts.filter(filled) =~= seq![line]);
    if source.len() == 0 {
        assert(source + line.push(0x0a) =~= line.push(0x0a));
        assert(source =~= Seq::<u8>::empty());
        assert(filled_lines(source) =~= Seq::<Seq<u8>>::empty());
        assert(seq![line] =~= Seq::<Seq<u8>>::empty().push(line));
    } else {
        let before = source.drop_last();
        let first = split(before, ends);
        assert(before.push(0x0a) =~= source);
        lemma_split_at(before, 0x0a, line.push(0x0a), ends);
        lemma_split_at(before, 0x0a, seq![], ends);
        assert(source + Seq::<u8>::empty() =~= source);
        Seq::filter_distributes_over_add(first, parts, filled);
        Seq::filter_distributes_over_add(first, nothing, filled);
        assert(filled_lines(source) =~= first.filter(filled));
        assert(first.filter(filled) + seq![line] =~= first.filter(filled).push(line));
    }
}

/// Bytes with no whitespace among them have none around them.
pub proof fn lemma_trimmed_whole(bytes: Seq<u8>)
    requires
        forall|i: int| 0 <= i < bytes.len() ==> !is_whitespace(#[trigger] bytes[i]),
    ensures
        trimmed(bytes) == bytes,
{
    if bytes.len() > 0 {
        assert(!is_whitespace(bytes[0]) && !is_whitespace(bytes[bytes.len() - 1]));
    }
}

/// Trimming takes away space, tab, line feed, form feed and carriage return around a
/// field, and nothing else.
pub proof fn law_trimming_takes_the_whitespace_around(
    before: Seq<u8>,
    field: Seq<u8>,
    after: Seq<u8>,
)
    requires
        forall|i: int|
            0 <= i < before.len() ==> #[trigger] before[i] == 0x20 || before[i] == 0x09 || before[i]
                == 0x0a || before[i] == 0x0c || before[i] == 0x0d,
        forall|i: int|
            0 <= i < after.len() ==> #[trigger] after[i] == 0x20 || after[i] == 0x09 || after[i]
                == 0x0a || after[i] == 0x0c || after[i] == 0x0d,
        field.len() > 0 ==> {
            let first = field[0];
            let last = field[field.len() - 1];
            &&& first != 0x20 && first != 0x09 && first != 0x0a && first != 0x0c && first != 0x0d
            &&& last != 0x20 && last != 0x09 && last != 0x0a && last != 0x0c && last != 0x0d
        },
    ensures
        trimmed(before + field + after) == field,
{
    law_surrounding_whitespace_is_ignored(before, field, after);
}

/// Fields are separated by commas: those of two runs with a comma between are those of
/// the first and then those of the second, and a run without a comma is one field.
pub proof fn law_fields_are_separated_by_commas(first: Seq<u8>, second: Seq<u8>)
    ensures
        line_fields(first.push(0x2c) + second) == line_fields(first) + line_fields(second),
        !first.contains(0x2c) ==> line_fields(first) == seq![trimmed(first)],
{
    lemma_split_at(first, 0x2c, second, field_ends());
    assert(line_fields(first.push(0x2c) + second) =~= line_fields(first) + line_fields(second));
    if !first.contains(0x2c) {
        assert forall|i: int| 0 <= i < first.len() implies !field_ends().contains(
            #[trigger] first[i],
        ) by {
            assert(first.contains(first[i]));
        }
        lemma_split_whole(first, field_ends());
        assert(line_fields(first) =~= seq![trimmed(first)]);
    }
}

/// Whether the bytes hold no end of a line.
pub open spec fn is_one_line(bytes: Seq<u8>) -> bool {
    forall|i: int| 0 <= i < bytes.len() ==> #[trigger] bytes[i] != 0x0a && bytes[i] != 0x0d
}

/// Each line behind the header is a record: in a plain source, a further line adds its
/// fields as a further record, an empty one adds nothing, and the first is a header
/// and adds nothing either. A line that nothing ends is one all the same, and a
/// carriage return ends a line as a line feed does.
pub proof fn law_lines_are_records(header: Seq<u8>, source: Seq<u8>, line: Seq<u8>, end: u8)
    requires
        is_one_line(header),
        header.len() > 0,
        is_one_line(line),
        line.len() > 0,
        end == 0x0a || end == 0x0d,
    ensures
        is_plain_source(header) ==> records_of(header) == Seq::<Seq<Seq<u8>>>::empty(),
        is_plain_source(Seq::<u8>::empty()) && records_of(Seq::<u8>::empty()) == Seq::<
            Seq<Seq<u8>>,
        >::empty(),
        ({
            let start = header.push(0x0a) + source;
            is_plain_source(start.push(end) + line) ==> {
                &&& records_of(start.push(end) + line) == records_of(start).push(line_fields(line))
                &&& records_of(start.push(end)) == records_of(start)
                &&& records_of((start.push(end) + line).push(end)) == records_of(start).push(
                    line_fields(line),
                )
            }
        }),
{
    let filled = |line: Seq<u8>| line.len() > 0;
    let ends = line_ends();
    let nothing = seq![Seq::<u8>::empty()];
    let start = header.push(0x0a) + source;
    let longer = start.push(end) + line;
    lemma_split_whole(header, ends);
    lemma_split_whole(line, ends);
    lemma_split_whole(Seq::<u8>::empty(), ends);
    assert(nothing.filter(filled) =~= Seq::<Seq<u8>>::empty()) by {
        reveal_with_fuel(Seq::filter, 2);
        assert(nothing.drop_last() =~= Seq::<Seq<u8>>::empty());
        assert(!filled(nothing.last()));
    }
    lemma_filter_one(header);
    lemma_filter_one(line);
    assert(filled_lines(Seq::<u8>::empty()) =~= Seq::<Seq<u8>>::empty());
    assert(filled_lines(header) =~= seq![header]);
    assert(seq![header].drop_first() =~= Seq::<Seq<u8>>::empty());
    assert(plain_records(header) =~= Seq::<Seq<Seq<u8>>>::empty());
    lemma_split_at(header, 0x0a, source, ends);
    Seq::filter_distributes_over_add(seq![header], split(source, ends), filled);
    lemma_split_at(start, end, line, ends);
    lemma_split_at(start, end, seq![], ends);
    lemma_split_at(longer, end, seq![], ends);
    assert(start.push(end) + Seq::<u8>::empty() =~= start.push(end));
    assert(longer.push(end) + Seq::<u8>::empty() =~= longer.push(end));
    let parts = split(start, ends);
    Seq::filter_distributes_over_add(parts, seq![line], filled);
    Seq::filter_distributes_over_add(parts, nothing, filled);
    Seq::filter_distributes_over_add(parts + seq![line], nothing, filled);
    let lines = filled_lines(start);
    assert(lines.len() > 0);
    assert(filled_lines(start.push(end)) =~= lines);
    assert(filled_lines(longer) =~= lines.push(line));
    assert(filled_lines(longer.push(end)) =~= lines.push(line));
    assert(lines.push(line).drop_first() =~= lines.drop_first().push(line));
    assert(plain_records(longer) =~= plain_records(start).push(line_fields(line)));
    if is_plain_source(longer) {
        lemma_plain_beginning(longer, start);
        lemma_plain_beginning(longer, start.push(end));
        assert forall|i: int| 0 <= i < longer.push(end).len() implies #[trigger] longer.push(end)[i]
            != 0x22 by {
            if i < longer.len() {
                assert(longer.contains(longer[i]));
            }
        }
        assert(is_plain_source(longer.push(end)));
    }
}

/// A line that is not empty stays.
proof fn lemma_filter_one(line: Seq<u8>)
    requires
        line.len() > 0,
    ensures
        seq![line].filter(|line: Seq<u8>| line.len() > 0) == seq![line],
{
    reveal_with_fuel(Seq::filter, 2);
    assert(seq![line].drop_last() =~= Seq::<Seq<u8>>::empty());
    assert(seq![line].filter(|line: Seq<u8>| line.len() > 0) =~= seq![line]);
}

/// The beginning of a plain source is plain.
proof fn lemma_plain_beginning(source: Seq<u8>, beginning: Seq<u8>)
    requires
        is_plain_source(source),
        beginning.is_prefix_of(source),
    ensures
        is_plain_source(beginning),
{
    assert forall|i: int| 0 <= i < beginning.len() implies #[trigger] beginning[i] != 0x22 by {
        assert(source[i] == beginning[i]);
        assert(source.contains(source[i]));
    }
    if beginning.len() >= 3 {
        assert(source[0] == beginning[0] && source[1] == beginning[1] && source[2]
            == beginning[2]);
    }
}

} // verus!
