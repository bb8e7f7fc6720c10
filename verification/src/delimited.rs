//! The tabular formats for other programs to read.
use vstd::prelude::*;
#[allow(unused_imports)]
use vstd::utf8::encode_utf8;

use crate::model::{Analysis, Entry};
use crate::outside::{display_path, format_size, write_csv_record};
#[allow(unused_imports)]
use crate::outside::{
    csv_doubled, csv_field, csv_joined, csv_needs_quotes, csv_record, csv_special, human_size,
    path_text,
};
use crate::text::to_decimal;
#[allow(unused_imports)]
use crate::text::{decimal, line_views};

verus! {

/// The names of the columns.
pub open spec fn header_fields() -> Seq<Seq<char>> {
    seq![
        "rank"@,
        "name"@,
        "path"@,
        "size_in_bytes"@,
        "size_human"@,
        "percentage"@,
        "is_dir"@,
    ]
}

/// Whether an entry is a directory, in words.
pub open spec fn truth(is_dir: bool) -> Seq<char> {
    if is_dir {
        "true"@
    } else {
        "false"@
    }
}

/// The fields of the row for an entry, given the texts of its path, of its
/// size for reading, and of its percentage. The largest entry has rank 1.
pub open spec fn entry_fields(
    rank: nat,
    entry: Entry,
    path: Seq<char>,
    size: Seq<char>,
    pct: Seq<char>,
) -> Seq<Seq<char>> {
    seq![
        decimal(rank),
        entry.name@,
        path,
        decimal(entry.size_in_bytes as nat),
        size,
        pct,
        truth(entry.is_dir),
    ]
}

/// The table of an analysis: the names of the columns, then a row for every
/// entry.
pub open spec fn table_fields(entries: Seq<Entry>, pcts: Seq<Seq<char>>) -> Seq<Seq<Seq<char>>> {
    seq![header_fields()] + Seq::new(
        entries.len(),
        |i: int|
            entry_fields(
                (i + 1) as nat,
                entries[i],
                path_text(entries[i].path),
                human_size(entries[i].size_in_bytes, true),
                pcts[i],
            ),
    )
}

/// Each record of a table as it is written.
pub open spec fn encoded_table(table: Seq<Seq<Seq<char>>>, delimiter: u8) -> Seq<Seq<u8>> {
    table.map_values(|fields: Seq<Seq<char>>| csv_record(fields, delimiter))
}

/// Several byte strings as sequences.
pub open spec fn record_views(records: Seq<Vec<u8>>) -> Seq<Seq<u8>> {
    records.map_values(|record: Vec<u8>| record@)
}

/// The names of the columns.
pub fn table_header() -> (fields: Vec<String>)
    ensures
        line_views(fields@) == header_fields(),
{
    let mut fields: Vec<String> = Vec::new();
    fields.push("rank".to_string());
    fields.push("name".to_string());
    fields.push("path".to_string());
    fields.push("size_in_bytes".to_string());
    fields.push("size_human".to_string());
    fields.push("percentage".to_string());
    fields.push("is_dir".to_string());
    assert(line_views(fields@) =~= header_fields());
    fields
}

/// The fields of the row for an entry, given the texts of its path, of its
/// size for reading, and of its percentage.
pub fn table_row(rank: usize, entry: &Entry, path: String, size: String, pct: String) -> (fields: Vec<
    String,
>)
    ensures
        line_views(fields@) == entry_fields(rank as nat, *entry, path@, size@, pct@),
{
    let mut fields: Vec<String> = Vec::new();
    fields.push(to_decimal(rank as u64));
    fields.push(entry.name.clone());
    fields.push(path);
    fields.push(to_decimal(entry.size_in_bytes));
    fields.push(size);
    fields.push(pct);
    fields.push(
        if entry.is_dir {
            "true".to_string()
        } else {
            "false".to_string()
        },
    );
    assert(line_views(fields@) =~= entry_fields(rank as nat, *entry, path@, size@, pct@));
    fields
}

/// Renders the table of an analysis with the given delimiter, given the texts
/// of the percent column. The records come apart, in their order. Every entry
/// is in the table; errors are not.
pub fn render_delimited(analysis: &Analysis, delimiter: u8, pcts: &Vec<String>) -> (records: Vec<
    Vec<u8>,
>)
    requires
        pcts@.len() == analysis@.entries.len(),
    ensures
        record_views(records@) == encoded_table(
            table_fields(analysis@.entries, line_views(pcts@)),
            delimiter,
        ),
        records@.len() == analysis@.entries.len() + 1,
{
    let entries = analysis.entries();
    let ghost table = table_fields(entries@, line_views(pcts@));
    let ghost target = encoded_table(table, delimiter);
    let mut records: Vec<Vec<u8>> = Vec::new();
    let header = table_header();
    assert(header@.len() == line_views(header@).len());
    records.push(write_csv_record(&header, delimiter));
    assert(table[0] == header_fields());
    assert(record_views(records@) =~= target.take(1));
    let mut i: usize = 0;
    while i < entries.len()
        invariant
            i <= entries@.len(),
            pcts@.len() == entries@.len(),
            table == table_fields(entries@, line_views(pcts@)),
            target == encoded_table(table, delimiter),
            record_views(records@) == target.take(i + 1),
        decreases entries@.len() - i,
    {
        let ghost before = records@;
        let entry = &entries[i];
        let fields = table_row(
            i + 1,
            entry,
            display_path(&entry.path),
            format_size(entry.size_in_bytes, true),
            pcts[i].clone(),
        );
        assert(fields@.len() == line_views(fields@).len());
        assert(line_views(fields@) == table[i + 1]);
        let record = write_csv_record(&fields, delimiter);
        records.push(record);
        i += 1;
        assert(record_views(records@) =~= record_views(before).push(record@));
        assert(record_views(records@) =~= target.take(i + 1));
    }
    assert(target.take(i + 1) =~= target);
    assert(record_views(records@).len() == records@.len());
    records
}

/// A field as a reader takes it: what stands between quotes, with each doubled
/// quote read as one, or the field as it is where it does not begin with one.
pub open spec fn csv_read(written: Seq<u8>) -> Seq<u8> {
    if written.len() >= 2 && written[0] == 0x22 {
        csv_undoubled(written.subrange(1, written.len() - 1))
    } else {
        written
    }
}

/// The bytes with each pair of quotes, from the end, read as one quote.
pub open spec fn csv_undoubled(bytes: Seq<u8>) -> Seq<u8>
    decreases bytes.len(),
{
    if bytes.len() == 0 {
        Seq::empty()
    } else if bytes.len() >= 2 && bytes.last() == 0x22 && bytes[bytes.len() - 2] == 0x22 {
        csv_undoubled(bytes.subrange(0, bytes.len() - 2)).push(0x22)
    } else {
        csv_undoubled(bytes.drop_last()).push(bytes.last())
    }
}

/// Whatever a name holds, delimiters, quotes and line ends among it, the field
/// that is written for it reads as the name again.
pub proof fn law_fields_read_back(field: Seq<u8>, delimiter: u8)
    ensures
        csv_read(csv_field(field, delimiter)) == field,
{
    let written = csv_field(field, delimiter);
    if csv_needs_quotes(field, delimiter) {
        assert(written.subrange(1, written.len() - 1) =~= csv_doubled(field));
        lemma_undoubled(field);
    } else if field.len() > 0 {
        assert(!csv_special(field[0], delimiter));
    }
}

proof fn lemma_undoubled(field: Seq<u8>)
    ensures
        csv_undoubled(csv_doubled(field)) == field,
    decreases field.len(),
{
    if field.len() > 0 {
        let before = csv_doubled(field.drop_last());
        let whole = csv_doubled(field);
        lemma_undoubled(field.drop_last());
        if field.last() == 0x22 {
            assert(whole.subrange(0, whole.len() - 2) =~= before);
        } else {
            assert(whole.drop_last() =~= before);
        }
        assert(field =~= field.drop_last().push(field.last()));
    }
}

/// The byte stands in a written field only between quotes.
pub open spec fn is_guarded(written: Seq<u8>, byte: u8) -> bool {
    written.contains(byte) ==> written.len() >= 2 && written[0] == 0x22 && written.last() == 0x22
}

/// A delimiter or a line end inside a name never shows as one: a field that
/// holds any stands between quotes.
pub proof fn law_delimiters_are_guarded(field: Seq<u8>, delimiter: u8)
    ensures
        is_guarded(csv_field(field, delimiter), delimiter),
        is_guarded(csv_field(field, delimiter), 0x0a),
        is_guarded(csv_field(field, delimiter), 0x0d),
{
    if !csv_needs_quotes(field, delimiter) {
        assert forall|byte: u8| csv_special(byte, delimiter) implies !field.contains(byte) by {
            if field.contains(byte) {
                let i = field.index_of(byte);
                assert(csv_special(field[i], delimiter));
            }
        }
        assert(csv_special(delimiter, delimiter));
        assert(csv_special(0x0a, delimiter));
        assert(csv_special(0x0d, delimiter));
    }
}

/// Where a reader of a table stands.
pub struct ReaderView {
    /// The records that it has read.
    pub records: Seq<Seq<Seq<u8>>>,
    /// The fields that it has read of the record it is in.
    pub fields: Seq<Seq<u8>>,
    /// What it has read of the field it is in.
    pub field: Seq<u8>,
    /// How the bytes that follow are to be taken.
    pub mode: ReaderMode,
}

/// How a reader takes the next byte.
pub enum ReaderMode {
    /// As the first one of a field.
    Start,
    /// As one of a field without quotes.
    Plain,
    /// As one between quotes.
    Quoted,
    /// As the one behind a quote that closes the field or is the first of two.
    Closing,
}

impl ReaderView {
    /// At the end of a field.
    pub open spec fn field_ended(self) -> ReaderView {
        ReaderView {
            fields: self.fields.push(self.field),
            field: Seq::empty(),
            mode: ReaderMode::Start,
            ..self
        }
    }

    /// At the end of a record, which is the end of its last field too.
    pub open spec fn record_ended(self) -> ReaderView {
        ReaderView {
            records: self.records.push(self.fields.push(self.field)),
            fields: Seq::empty(),
            field: Seq::empty(),
            mode: ReaderMode::Start,
        }
    }

    /// Behind one more byte of a field.
    pub open spec fn taken(self, byte: u8, mode: ReaderMode) -> ReaderView {
        ReaderView { field: self.field.push(byte), mode, ..self }
    }

    /// Behind one more byte.
    pub open spec fn read(self, byte: u8, delimiter: u8) -> ReaderView {
        match self.mode {
            ReaderMode::Quoted => if byte == 0x22 {
                ReaderView { mode: ReaderMode::Closing, ..self }
            } else {
                self.taken(byte, ReaderMode::Quoted)
            },
            ReaderMode::Closing if byte == 0x22 => self.taken(byte, ReaderMode::Quoted),
            ReaderMode::Start if byte == 0x22 => ReaderView { mode: ReaderMode::Quoted, ..self },
            _ => if byte == delimiter {
                self.field_ended()
            } else if byte == 0x0a || byte == 0x0d {
                self.record_ended()
            } else {
                self.taken(byte, ReaderMode::Plain)
            },
        }
    }

    /// Behind all of the given bytes.
    pub open spec fn read_all(self, bytes: Seq<u8>, delimiter: u8) -> ReaderView
        decreases bytes.len(),
    {
        if bytes.len() == 0 {
            self
        } else {
            self.read_all(bytes.drop_last(), delimiter).read(bytes.last(), delimiter)
        }
    }
}

/// A reader at the beginning of a table.
pub open spec fn new_reader() -> ReaderView {
    ReaderView {
        records: Seq::empty(),
        fields: Seq::empty(),
        field: Seq::empty(),
        mode: ReaderMode::Start,
    }
}

proof fn lemma_read_concat(reader: ReaderView, a: Seq<u8>, b: Seq<u8>, delimiter: u8)
    ensures
        reader.read_all(a + b, delimiter) == reader.read_all(a, delimiter).read_all(b, delimiter),
    decreases b.len(),
{
    if b.len() == 0 {
        assert(a + b =~= a);
    } else {
        assert((a + b).drop_last() =~= a + b.drop_last());
        lemma_read_concat(reader, a, b.drop_last(), delimiter);
    }
}

proof fn lemma_read_one(reader: ReaderView, byte: u8, delimiter: u8)
    ensures
        reader.read_all(seq![byte], delimiter) == reader.read(byte, delimiter),
{
    assert(seq![byte].drop_last() =~= Seq::empty());
    assert(reader.read_all(Seq::empty(), delimiter) == reader);
}

proof fn lemma_read_quoted(reader: ReaderView, field: Seq<u8>, delimiter: u8)
    requires
        reader.mode is Quoted,
    ensures
        reader.read_all(csv_doubled(field), delimiter) == (ReaderView {
            field: reader.field + field,
            ..reader
        }),
    decreases field.len(),
{
    if field.len() == 0 {
        assert(reader.field + field =~= reader.field);
    } else {
        let before = csv_doubled(field.drop_last());
        lemma_read_quoted(reader, field.drop_last(), delimiter);
        let here = reader.read_all(before, delimiter);
        assert(reader.field + field =~= (reader.field + field.drop_last()).push(field.last()));
        if field.last() == 0x22 {
            lemma_read_concat(reader, before, seq![0x22u8, 0x22u8], delimiter);
            lemma_read_concat(here, seq![0x22u8], seq![0x22u8], delimiter);
            assert(seq![0x22u8] + seq![0x22u8] =~= seq![0x22u8, 0x22u8]);
            lemma_read_one(here, 0x22, delimiter);
            lemma_read_one(here.read(0x22, delimiter), 0x22, delimiter);
        } else {
            assert(csv_doubled(field) == before.push(field.last()));
            assert(before.push(field.last()) =~= before + seq![field.last()]);
            lemma_read_concat(reader, before, seq![field.last()], delimiter);
            lemma_read_one(here, field.last(), delimiter);
        }
    }
}

proof fn lemma_read_plain(reader: ReaderView, field: Seq<u8>, delimiter: u8)
    requires
        reader.mode is Start,
        !csv_needs_quotes(field, delimiter),
    ensures
        reader.read_all(field, delimiter) == (ReaderView {
            field: reader.field + field,
            mode: if field.len() == 0 {
                ReaderMode::Start
            } else {
                ReaderMode::Plain
            },
            ..reader
        }),
    decreases field.len(),
{
    if field.len() == 0 {
        assert(reader.field + field =~= reader.field);
    } else {
        let before = field.drop_last();
        assert(!csv_needs_quotes(before, delimiter)) by {
            assert forall|i: int| 0 <= i < before.len() implies !csv_special(
                #[trigger] before[i],
                delimiter,
            ) by {
                assert(before[i] == field[i]);
            }
        }
        lemma_read_plain(reader, before, delimiter);
        assert(!csv_special(field[field.len() - 1], delimiter));
        assert(reader.field + field =~= (reader.field + before).push(field.last()));
    }
}

/// A field that has been read is in the reader's hands, and its end comes next.
proof fn lemma_read_field(reader: ReaderView, field: Seq<u8>, delimiter: u8)
    requires
        reader.mode is Start,
        reader.field.len() == 0,
        delimiter != 0x22,
    ensures
        ({
            let after = reader.read_all(csv_field(field, delimiter), delimiter);
            &&& !(after.mode is Quoted)
            &&& after == (ReaderView { field, mode: after.mode, ..reader })
        }),
{
    assert(reader.field + field =~= field);
    if csv_needs_quotes(field, delimiter) {
        let opened = reader.read(0x22, delimiter);
        let doubled = csv_doubled(field);
        lemma_read_one(reader, 0x22, delimiter);
        lemma_read_concat(reader, seq![0x22u8], doubled, delimiter);
        lemma_read_quoted(opened, field, delimiter);
        let inside = opened.read_all(doubled, delimiter);
        lemma_read_concat(reader, seq![0x22u8] + doubled, seq![0x22u8], delimiter);
        lemma_read_one(inside, 0x22, delimiter);
    } else {
        lemma_read_plain(reader, field, delimiter);
    }
}

/// The fields of a record as bytes.
pub open spec fn field_bytes(fields: Seq<Seq<char>>) -> Seq<Seq<u8>> {
    fields.map_values(|field: Seq<char>| encode_utf8(field))
}

proof fn lemma_read_joined(
    reader: ReaderView,
    fields: Seq<Seq<char>>,
    n: int,
    delimiter: u8,
)
    requires
        reader.mode is Start,
        reader.field.len() == 0,
        reader.fields.len() == 0,
        1 <= n <= fields.len(),
        delimiter != 0x22 && delimiter != 0x0a && delimiter != 0x0d,
    ensures
        ({
            let after = reader.read_all(csv_joined(fields, n, delimiter), delimiter);
            &&& !(after.mode is Quoted)
            &&& after == (ReaderView {
                fields: field_bytes(fields).take(n - 1),
                field: encode_utf8(fields[n - 1]),
                mode: after.mode,
                ..reader
            })
        }),
    decreases n,
{
    let last = encode_utf8(fields[n - 1]);
    if n == 1 {
        lemma_read_field(reader, last, delimiter);
        assert(reader.fields =~= field_bytes(fields).take(0));
    } else {
        let before = csv_joined(fields, n - 1, delimiter);
        lemma_read_joined(reader, fields, n - 1, delimiter);
        let there = reader.read_all(before, delimiter);
        assert(before.push(delimiter) =~= before + seq![delimiter]);
        lemma_read_concat(reader, before, seq![delimiter], delimiter);
        lemma_read_one(there, delimiter, delimiter);
        let here = there.read(delimiter, delimiter);
        lemma_read_concat(
            reader,
            before.push(delimiter),
            csv_field(last, delimiter),
            delimiter,
        );
        lemma_read_field(here, last, delimiter);
        assert(here.fields =~= field_bytes(fields).take(n - 1));
    }
}

/// A record that is written reads as its fields again, whatever they hold. The
/// delimiter can be any byte but a quote or the end of a line.
pub proof fn law_records_read_back(reader: ReaderView, fields: Seq<Seq<char>>, delimiter: u8)
    requires
        reader.mode is Start,
        reader.field.len() == 0,
        reader.fields.len() == 0,
        fields.len() >= 1,
        delimiter != 0x22 && delimiter != 0x0a && delimiter != 0x0d,
    ensures
        reader.read_all(csv_record(fields, delimiter), delimiter) == (ReaderView {
            records: reader.records.push(field_bytes(fields)),
            ..reader
        }),
{
    let n = fields.len() as int;
    let joined = csv_joined(fields, n, delimiter);
    lemma_read_joined(reader, fields, n, delimiter);
    assert(joined.push(0x0a) =~= joined + seq![0x0au8]);
    lemma_read_concat(reader, joined, seq![0x0au8], delimiter);
    lemma_read_one(reader.read_all(joined, delimiter), 0x0a, delimiter);
    assert(field_bytes(fields).take(n - 1).push(encode_utf8(fields[n - 1])) =~= field_bytes(fields));
    let after = reader.read_all(csv_record(fields, delimiter), delimiter);
    assert(after.fields =~= reader.fields);
    assert(after.field =~= reader.field);
}

/// The first `n` records one behind the other.
pub open spec fn table_bytes(records: Seq<Seq<u8>>, n: int) -> Seq<u8>
    decreases n,
{
    if n <= 0 {
        Seq::empty()
    } else {
        table_bytes(records, n - 1) + records[n - 1]
    }
}

proof fn lemma_table_read(table: Seq<Seq<Seq<char>>>, n: int, delimiter: u8)
    requires
        0 <= n <= table.len(),
        forall|i: int| 0 <= i < table.len() ==> (#[trigger] table[i]).len() >= 1,
        delimiter != 0x22 && delimiter != 0x0a && delimiter != 0x0d,
    ensures
        new_reader().read_all(table_bytes(encoded_table(table, delimiter), n), delimiter) == (
        ReaderView {
            records: table.map_values(|fields: Seq<Seq<char>>| field_bytes(fields)).take(n),
            ..new_reader()
        }),
    decreases n,
{
    let all = table.map_values(|fields: Seq<Seq<char>>| field_bytes(fields));
    let records = encoded_table(table, delimiter);
    if n == 0 {
        assert(all.take(0) =~= Seq::empty());
    } else {
        lemma_table_read(table, n - 1, delimiter);
        lemma_read_concat(
            new_reader(),
            table_bytes(records, n - 1),
            records[n - 1],
            delimiter,
        );
        assert(table[n - 1].len() >= 1);
        let there = new_reader().read_all(table_bytes(records, n - 1), delimiter);
        law_records_read_back(there, table[n - 1], delimiter);
        assert(all.take(n - 1).push(field_bytes(table[n - 1])) =~= all.take(n));
    }
}

/// The whole table of an analysis reads as its header and one record for each
/// entry again.
pub proof fn law_tables_read_back(entries: Seq<Entry>, pcts: Seq<Seq<char>>, delimiter: u8)
    requires
        pcts.len() == entries.len(),
        delimiter != 0x22 && delimiter != 0x0a && delimiter != 0x0d,
    ensures
        ({
            let table = table_fields(entries, pcts);
            let records = encoded_table(table, delimiter);
            new_reader().read_all(table_bytes(records, records.len() as int), delimiter).records
                == table.map_values(|fields: Seq<Seq<char>>| field_bytes(fields))
        }),
{
    let table = table_fields(entries, pcts);
    let all = table.map_values(|fields: Seq<Seq<char>>| field_bytes(fields));
    lemma_table_read(table, table.len() as int, delimiter);
    assert(all.take(all.len() as int) =~= all);
}

/// The table that is written holds one record for the names of the columns and
/// one for each entry, none left out. The record behind `i` others of its kind
/// reads as rank `i + 1`, the entry's name, path and bytes, its size for
/// reading, its percentage and its kind.
pub proof fn law_every_entry_has_its_record(
    entries: Seq<Entry>,
    pcts: Seq<Seq<char>>,
    delimiter: u8,
)
    requires
        pcts.len() == entries.len(),
        delimiter != 0x22 && delimiter != 0x0a && delimiter != 0x0d,
    ensures
        ({
            let records = encoded_table(table_fields(entries, pcts), delimiter);
            let read = new_reader().read_all(
                table_bytes(records, records.len() as int),
                delimiter,
            ).records;
            &&& records.len() == entries.len() + 1
            &&& read.len() == entries.len() + 1
            &&& read[0] == seq![
                encode_utf8("rank"@),
                encode_utf8("name"@),
                encode_utf8("path"@),
                encode_utf8("size_in_bytes"@),
                encode_utf8("size_human"@),
                encode_utf8("percentage"@),
                encode_utf8("is_dir"@),
            ]
            &&& forall|i: int|
                0 <= i < entries.len() ==> read[i + 1] == seq![
                    encode_utf8(decimal((i + 1) as nat)),
                    encode_utf8((#[trigger] entries[i]).name@),
                    encode_utf8(path_text(entries[i].path)),
                    encode_utf8(decimal(entries[i].size_in_bytes as nat)),
                    encode_utf8(human_size(entries[i].size_in_bytes, true)),
                    encode_utf8(pcts[i]),
                    encode_utf8(
                        if entries[i].is_dir {
                            "true"@
                        } else {
                            "false"@
                        },
                    ),
                ]
        }),
{
    law_tables_read_back(entries, pcts, delimiter);
    let table = table_fields(entries, pcts);
    let read = table.map_values(|fields: Seq<Seq<char>>| field_bytes(fields));
    assert(read[0] == field_bytes(header_fields()));
    assert(read[0] =~= seq![
        encode_utf8("rank"@),
        encode_utf8("name"@),
        encode_utf8("path"@),
        encode_utf8("size_in_bytes"@),
        encode_utf8("size_human"@),
        encode_utf8("percentage"@),
        encode_utf8("is_dir"@),
    ]);
    assert forall|i: int| 0 <= i < entries.len() implies read[i + 1] == seq![
        encode_utf8(decimal((i + 1) as nat)),
        encode_utf8((#[trigger] entries[i]).name@),
        encode_utf8(path_text(entries[i].path)),
        encode_utf8(decimal(entries[i].size_in_bytes as nat)),
        encode_utf8(human_size(entries[i].size_in_bytes, true)),
        encode_utf8(pcts[i]),
        encode_utf8(
            if entries[i].is_dir {
                "true"@
            } else {
                "false"@
            },
        ),
    ] by {
        assert(read[i + 1] =~= field_bytes(table[i + 1]));
    }
}

/// Each record of a table is written on its own: read alone, it is one record,
/// with the fields that it was made of.
pub proof fn law_each_record_stands_alone(table: Seq<Seq<Seq<char>>>, delimiter: u8, i: int)
    requires
        0 <= i < table.len(),
        table[i].len() >= 1,
        delimiter != 0x22 && delimiter != 0x0a && delimiter != 0x0d,
    ensures
        encoded_table(table, delimiter).len() == table.len(),
        ({
            let read = new_reader().read_all(encoded_table(table, delimiter)[i], delimiter).records;
            &&& read.len() == 1
            &&& read[0].len() == table[i].len()
            &&& forall|k: int|
                0 <= k < table[i].len() ==> #[trigger] read[0][k] == encode_utf8(table[i][k])
        }),
{
    law_records_read_back(new_reader(), table[i], delimiter);
}

/// Several records are seen one for one.
pub proof fn law_records_are_seen_whole(records: Seq<Vec<u8>>)
    ensures
        record_views(records).len() == records.len(),
        forall|i: int| 0 <= i < records.len() ==> #[trigger] record_views(records)[i] == records[i]@,
{
}

} // verus!
