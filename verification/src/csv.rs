//! What the engine makes of CSV text: a header line of column names, then one
//! row per non-blank line, fields split at commas.
use vstd::prelude::*;
use crate::model::{
    emit_number_step, emit_string_step, end_row_step, index_of, intern_key_step, lemma_emit_shapes,
    lemma_literals_fit_push, lemma_sum_u16_push, lemma_sum_u16_range, literals_fit, model_complete, push_key_step,
    sum_u16, Model,
};
use crate::number::{json_number, parse_i64_spec};
use crate::text::{
    find_byte_from, all_number_chars, all_spaces, find_from, json_escape, lemma_find_from, strip_cr, trimmed,
    unquote,
};

verus! {

/// The pieces of `line` from `start` on, split at commas (always at least one).
pub open spec fn split_fields(line: Seq<u8>, start: int) -> Seq<Seq<u8>>
    decreases line.len() - start,
{
    if start < 0 || start > line.len() {
        Seq::empty()
    } else {
        match find_from(line, 0x2c, start) {
            Some(i) => {
                proof {
                    lemma_find_from(line, 0x2c, start);
                }
                seq![line.subrange(start, i)] + split_fields(line, i + 1)
            },
            None => seq![line.subrange(start, line.len() as int)],
        }
    }
}

/// Column names of a header line: each piece trimmed, unquoted and written
/// as it stands in a JSON string (see [`json_escape`]).
pub open spec fn header_names(line: Seq<u8>) -> Seq<Seq<u8>> {
    split_fields(line, 0).map_values(|p: Seq<u8>| json_escape(unquote(trimmed(p))))
}

/// Interns each name in turn; `None` when the key table fills up.
pub open spec fn intern_all(m: Model, names: Seq<Seq<u8>>) -> Option<(Model, Seq<u16>)>
    decreases names.len(),
{
    if names.len() == 0 {
        Some((m, Seq::empty()))
    } else {
        match intern_all(m, names.drop_last()) {
            None => None,
            Some((m1, ids)) => match intern_key_step(m1, names.last()) {
                None => None,
                Some((m2, id)) => Some((m2, ids.push(id))),
            },
        }
    }
}

/// One CSV field for column key `key`: a quoted field is a string without
/// its quotes; a non-empty field of number characters that reads as an `i64`
/// or is a JSON number token is a number (an integer, or a literal kept as
/// written); anything else is a string. The field is trimmed first, and a
/// string is kept as it stands in a JSON string (see [`json_escape`]).
pub open spec fn csv_value_step(m: Model, field: Seq<u8>, key: u16) -> Option<Model> {
    let m1 = push_key_step(m, key);
    let t = trimmed(field);
    if t.len() >= 2 && t[0] == 0x22 && t.last() == 0x22 {
        emit_string_step(m1, key, json_escape(t.subrange(1, t.len() - 1)))
    } else if t.len() > 0 && all_number_chars(t) && (parse_i64_spec(t) is Some || json_number(t)) {
        emit_number_step(m1, t)
    } else {
        emit_string_step(m1, key, json_escape(t))
    }
}

/// The fields of one row, the i-th for the i-th column.
pub open spec fn csv_row_fields(m: Model, fields: Seq<Seq<u8>>, ids: Seq<u16>) -> Option<Model>
    decreases fields.len(),
{
    if fields.len() == 0 {
        Some(m)
    } else {
        match csv_row_fields(m, fields.drop_last(), ids) {
            None => None,
            Some(m1) => csv_value_step(m1, fields.last(), ids[fields.len() - 1]),
        }
    }
}

/// One row: refused when it has more fields than there are columns.
pub open spec fn csv_row(m: Model, fields: Seq<Seq<u8>>, ids: Seq<u16>) -> Option<Model> {
    if fields.len() > ids.len() || fields.len() > 0xffff {
        None
    } else {
        match csv_row_fields(m, fields, ids) {
            None => None,
            Some(m1) => Some(end_row_step(m1, fields.len() as u16)),
        }
    }
}

/// End of the line that starts at `cursor`: its line feed, or the end of the text.
pub open spec fn line_end(data: Seq<u8>, cursor: int) -> int {
    match find_from(data, 0x0a, cursor) {
        Some(p) => p,
        None => data.len() as int,
    }
}

/// The line that starts at `cursor`: skipped when blank, else one row.
pub open spec fn csv_line_step(m: Model, data: Seq<u8>, cursor: int, ids: Seq<u16>) -> Option<Model> {
    let line = strip_cr(data.subrange(cursor, line_end(data, cursor)));
    if all_spaces(line) {
        Some(m)
    } else {
        csv_row(m, split_fields(line, 0), ids)
    }
}

/// The rows from `cursor` on; blank lines are skipped.
pub open spec fn csv_lines(m: Model, data: Seq<u8>, cursor: int, ids: Seq<u16>) -> Option<Model>
    decreases data.len() + 1 - cursor,
    via csv_lines_decreases
{
    if cursor < 0 || cursor >= data.len() {
        Some(m)
    } else {
        match csv_line_step(m, data, cursor, ids) {
            None => None,
            Some(m2) => csv_lines(m2, data, line_end(data, cursor) + 1, ids),
        }
    }
}

#[via_fn]
proof fn csv_lines_decreases(m: Model, data: Seq<u8>, cursor: int, ids: Seq<u16>) {
    if 0 <= cursor < data.len() {
        lemma_find_from(data, 0x0a, cursor);
        let le = line_end(data, cursor);
        assert(le >= cursor);
    }
}

/// What reading one field leaves in the model, accepted or not: where the
/// value is refused, the field's key has come and no value.
pub open spec fn csv_value_state(m: Model, field: Seq<u8>, key: u16) -> Model {
    match csv_value_step(m, field, key) {
        Some(m2) => m2,
        None => push_key_step(m, key),
    }
}

/// What reading the fields of a row leaves, up to the first one refused.
pub open spec fn csv_fields_state(m: Model, fields: Seq<Seq<u8>>, ids: Seq<u16>) -> Model
    decreases fields.len(),
{
    if fields.len() == 0 {
        m
    } else {
        match csv_row_fields(m, fields.drop_last(), ids) {
            None => csv_fields_state(m, fields.drop_last(), ids),
            Some(m1) => csv_value_state(m1, fields.last(), ids[fields.len() - 1]),
        }
    }
}

/// What reading a row leaves, accepted or not: a row with more fields than
/// there are columns has its fields read up to the last column first; a row
/// of more than 65 535 fields is refused before any of them.
pub open spec fn csv_row_state(m: Model, fields: Seq<Seq<u8>>, ids: Seq<u16>) -> Model {
    if fields.len() > ids.len() {
        csv_fields_state(m, fields.take(ids.len() as int), ids)
    } else if fields.len() > 0xffff {
        m
    } else {
        match csv_row_fields(m, fields, ids) {
            None => csv_fields_state(m, fields, ids),
            Some(m1) => end_row_step(m1, fields.len() as u16),
        }
    }
}

/// What reading the line that starts at `cursor` leaves, accepted or not.
pub open spec fn csv_line_state(m: Model, data: Seq<u8>, cursor: int, ids: Seq<u16>) -> Model {
    let line = strip_cr(data.subrange(cursor, line_end(data, cursor)));
    if all_spaces(line) {
        m
    } else {
        csv_row_state(m, split_fields(line, 0), ids)
    }
}

/// What reading the rows from `cursor` on leaves, up to the first line
/// refused.
pub open spec fn csv_lines_state(m: Model, data: Seq<u8>, cursor: int, ids: Seq<u16>) -> Model
    decreases data.len() + 1 - cursor,
    via csv_lines_state_decreases
{
    if cursor < 0 || cursor >= data.len() {
        m
    } else {
        match csv_line_step(m, data, cursor, ids) {
            None => csv_line_state(m, data, cursor, ids),
            Some(m2) => csv_lines_state(m2, data, line_end(data, cursor) + 1, ids),
        }
    }
}

#[via_fn]
proof fn csv_lines_state_decreases(m: Model, data: Seq<u8>, cursor: int, ids: Seq<u16>) {
    if 0 <= cursor < data.len() {
        lemma_find_from(data, 0x0a, cursor);
    }
}

/// What interning the names leaves, up to the first one refused.
pub open spec fn intern_all_state(m: Model, names: Seq<Seq<u8>>) -> Model
    decreases names.len(),
{
    if names.len() == 0 {
        m
    } else {
        match intern_all(m, names.drop_last()) {
            None => intern_all_state(m, names.drop_last()),
            Some((m1, _)) => match intern_key_step(m1, names.last()) {
                None => m1,
                Some((m2, _)) => m2,
            },
        }
    }
}

/// What the engine holds once it has read CSV text, whether it accepts it or
/// gives up on it: unchanged without a line feed; else the columns interned
/// up to the first refused, then the rows read up to the first refused.
pub open spec fn csv_state(m: Model, data: Seq<u8>) -> Model {
    match find_from(data, 0x0a, 0) {
        None => m,
        Some(he) => {
            let names = header_names(strip_cr(data.subrange(0, he)));
            match intern_all(m, names) {
                None => intern_all_state(m, names),
                Some((m1, ids)) => csv_lines_state(m1, data, he + 1, ids),
            }
        },
    }
}

/// Once a prefix of a row's fields is refused, reading more of them changes
/// nothing.
pub proof fn lemma_fields_state_frozen(m: Model, fs: Seq<Seq<u8>>, ids: Seq<u16>, k: int)
    requires
        0 <= k <= fs.len(),
        csv_row_fields(m, fs.take(k), ids) is None,
    ensures
        csv_fields_state(m, fs, ids) == csv_fields_state(m, fs.take(k), ids),
    decreases fs.len() - k,
{
    if k < fs.len() {
        assert(fs.take(k + 1).drop_last() =~= fs.take(k));
        assert(csv_row_fields(m, fs.take(k + 1), ids) is None);
        assert(csv_fields_state(m, fs.take(k + 1), ids) == csv_fields_state(m, fs.take(k), ids));
        lemma_fields_state_frozen(m, fs, ids, k + 1);
    } else {
        assert(fs.take(k) =~= fs);
    }
}

/// Once a prefix of the names is refused, interning more of them changes
/// nothing.
pub proof fn lemma_intern_state_frozen(m: Model, names: Seq<Seq<u8>>, k: int)
    requires
        0 <= k <= names.len(),
        intern_all(m, names.take(k)) is None,
    ensures
        intern_all_state(m, names) == intern_all_state(m, names.take(k)),
    decreases names.len() - k,
{
    if k < names.len() {
        assert(names.take(k + 1).drop_last() =~= names.take(k));
        assert(intern_all(m, names.take(k + 1)) is None);
        lemma_intern_state_frozen(m, names, k + 1);
    } else {
        assert(names.take(k) =~= names);
    }
}

/// CSV text: a header line, then rows. `None` where the engine gives up on
/// it: no line feed, a row with too many fields, a table that fills up, or no
/// field at all in the end.
pub open spec fn csv_parse(m: Model, data: Seq<u8>) -> Option<Model> {
    match find_from(data, 0x0a, 0) {
        None => None,
        Some(he) => {
            let names = header_names(strip_cr(data.subrange(0, he)));
            match intern_all(m, names) {
                None => None,
                Some((m1, ids)) => match csv_lines(m1, data, he + 1, ids) {
                    None => None,
                    Some(m2) => if m2.kstream.len() > 0 {
                        Some(m2)
                    } else {
                        None
                    },
                },
            }
        },
    }
}

/// The pieces of `line` split at commas.
pub fn split_commas(line: &[u8]) -> (r: Vec<&[u8]>)
    ensures
        r@.len() == split_fields(line@, 0).len(),
        forall|i: int| 0 <= i < r@.len() ==> (#[trigger] r@[i])@ == split_fields(line@, 0)[i],
{
    let mut pieces: Vec<&[u8]> = Vec::new();
    let mut start: usize = 0;
    loop
        invariant
            start <= line.len(),
            pieces@.len() + split_fields(line@, start as int).len() == split_fields(line@, 0).len(),
            forall|i: int| 0 <= i < pieces@.len() ==> (#[trigger] pieces@[i])@ == split_fields(
                line@,
                0,
            )[i],
            forall|i: int|
                0 <= i < split_fields(line@, start as int).len() ==> split_fields(
                    line@,
                    start as int,
                )[i] == split_fields(line@, 0)[pieces@.len() + i],
        decreases line.len() - start,
    {
        proof {
            lemma_find_from(line@, 0x2c, start as int);
        }
        match find_byte_from(line, 0x2c, start) {
            Some(i) => {
                let ghost rest = split_fields(line@, start as int);
                assert(rest == seq![line@.subrange(start as int, i as int)] + split_fields(
                    line@,
                    i + 1,
                ));
                assert(rest[0] == line@.subrange(start as int, i as int));
                pieces.push(&line[start..i]);
                assert forall|k: int| 0 <= k < split_fields(line@, i + 1).len() implies #[trigger] split_fields(
                    line@,
                    i + 1,
                )[k] == split_fields(line@, 0)[pieces@.len() + k] by {
                    assert(rest[k + 1] == split_fields(line@, i + 1)[k]);
                }
                start = i + 1;
            },
            None => {
                let ghost rest = split_fields(line@, start as int);
                assert(rest[0] == line@.subrange(start as int, line@.len() as int));
                pieces.push(&line[start..line.len()]);
                return pieces;
            },
        }
    }
}

/// The rows of `m` hold, each, the first of the keys `ids` in order, and
/// together all of its key stream.
pub open spec fn rows_keyed(m: Model, ids: Seq<u16>) -> bool {
    &&& sum_u16(m.rows) == m.kstream.len()
    &&& forall|r: int| 0 <= r < m.rows.len() ==> #[trigger] m.rows[r] <= ids.len()
    &&& forall|r: int, j: int|
        #![trigger m.rows[r], ids[j]]
        0 <= r < m.rows.len() && 0 <= j < m.rows[r] ==> m.kstream[sum_u16(m.rows.take(r)) + j] == ids[j]
}

/// A field adds its column's key and one value, and no key or row.
pub proof fn lemma_csv_value_step(m: Model, field: Seq<u8>, key: u16)
    ensures
        csv_value_step(m, field, key) matches Some(m2) ==> m2.kstream == m.kstream.push(key) && m2.rows
            == m.rows && m2.keys == m.keys && m2.fields.len() == m.fields.len() + 1 && (literals_fit(m.fields)
            ==> literals_fit(m2.fields)),
{
    let m1 = push_key_step(m, key);
    let t = trimmed(field);
    lemma_emit_shapes(m1, key, t);
    lemma_emit_shapes(m1, key, json_escape(t));
    if t.len() >= 2 {
        lemma_emit_shapes(m1, key, json_escape(t.subrange(1, t.len() - 1)));
    }
    match csv_value_step(m, field, key) {
        Some(m2) => {
            if literals_fit(m.fields) {
                lemma_literals_fit_push(m.fields, m2.fields);
            }
        },
        None => {},
    }
}

/// The fields of a row add the keys of their columns, in order.
pub proof fn lemma_csv_row_fields(m: Model, fields: Seq<Seq<u8>>, ids: Seq<u16>)
    requires
        fields.len() <= ids.len(),
    ensures
        csv_row_fields(m, fields, ids) matches Some(m2) ==> m2.kstream == m.kstream + ids.take(
            fields.len() as int,
        ) && m2.rows == m.rows && m2.keys == m.keys && m2.fields.len() == m.fields.len() + fields.len() && (
        literals_fit(m.fields) ==> literals_fit(m2.fields)),
    decreases fields.len(),
{
    if fields.len() > 0 {
        lemma_csv_row_fields(m, fields.drop_last(), ids);
        match csv_row_fields(m, fields.drop_last(), ids) {
            Some(m1) => {
                lemma_csv_value_step(m1, fields.last(), ids[fields.len() - 1]);
                assert(ids.take(fields.len() - 1).push(ids[fields.len() - 1]) =~= ids.take(
                    fields.len() as int,
                ));
                assert(m.kstream + ids.take(fields.len() - 1) + seq![ids[fields.len() - 1]] =~= m.kstream
                    + ids.take(fields.len() as int));
            },
            None => {},
        }
    } else {
        assert(m.kstream + ids.take(0) =~= m.kstream);
    }
}

/// A row keeps the rows keyed.
pub proof fn lemma_csv_row(m: Model, fields: Seq<Seq<u8>>, ids: Seq<u16>)
    requires
        rows_keyed(m, ids),
    ensures
        csv_row(m, fields, ids) matches Some(m2) ==> rows_keyed(m2, ids) && m2.keys == m.keys,
{
    if fields.len() <= ids.len() && fields.len() <= 0xffff {
        lemma_csv_row_fields(m, fields, ids);
        match csv_row_fields(m, fields, ids) {
            Some(m1) => {
                let n = fields.len() as u16;
                let m2 = end_row_step(m1, n);
                lemma_sum_u16_push(m.rows, n);
                assert(m2.rows == m.rows.push(n));
                assert(m2.kstream == m.kstream + ids.take(n as int));
                assert(sum_u16(m2.rows) == m2.kstream.len());
                assert forall|r: int| 0 <= r < m2.rows.len() implies #[trigger] m2.rows[r] <= ids.len() by {
                    if r < m.rows.len() {
                        assert(m2.rows[r] == m.rows[r]);
                    }
                }
                assert forall|r: int, j: int|
                    #![trigger m2.rows[r], ids[j]]
                    0 <= r < m2.rows.len() && 0 <= j < m2.rows[r] implies m2.kstream[sum_u16(
                        m2.rows.take(r),
                    ) + j] == ids[j] by {
                    if r < m.rows.len() {
                        assert(m2.rows.take(r) =~= m.rows.take(r));
                        assert(m2.rows[r] == m.rows[r]);
                        lemma_sum_u16_range(m.rows, r, r + 1);
                        lemma_sum_u16_range(m.rows, r + 1, m.rows.len() as int);
                        assert(m.rows.take(m.rows.len() as int) =~= m.rows);
                        assert(m.rows.subrange(r, r + 1) =~= Seq::<u16>::empty().push(m.rows[r]));
                        lemma_sum_u16_push(Seq::<u16>::empty(), m.rows[r]);
                        assert(sum_u16(Seq::<u16>::empty()) == 0);
                        assert(sum_u16(m.rows.take(r)) + j < m.kstream.len());
                        assert(m.kstream[sum_u16(m.rows.take(r)) + j] == ids[j]);
                    } else {
                        assert(r == m.rows.len());
                        assert(m2.rows.take(r) =~= m.rows);
                        assert(m2.rows[r] == n);
                        assert(m2.kstream[m.kstream.len() + j] == ids.take(n as int)[j]);
                    }
                }
            },
            None => {},
        }
    }
}

/// The lines from `cursor` on keep the rows keyed.
pub proof fn lemma_csv_lines(m: Model, data: Seq<u8>, cursor: int, ids: Seq<u16>)
    requires
        rows_keyed(m, ids),
    ensures
        csv_lines(m, data, cursor, ids) matches Some(m2) ==> rows_keyed(m2, ids) && m2.keys == m.keys,
    decreases data.len() + 1 - cursor,
{
    if 0 <= cursor < data.len() {
        let line = strip_cr(data.subrange(cursor, line_end(data, cursor)));
        if !all_spaces(line) {
            lemma_csv_row(m, split_fields(line, 0), ids);
        }
        match csv_line_step(m, data, cursor, ids) {
            Some(m2) => {
                lemma_find_from(data, 0x0a, cursor);
                lemma_csv_lines(m2, data, line_end(data, cursor) + 1, ids);
            },
            None => {},
        }
    }
}

/// Interning names gives each its key id, the key at that id being the name.
pub proof fn lemma_intern_all(m: Model, names: Seq<Seq<u8>>)
    requires
        m.keys.len() <= 0xffff,
    ensures
        intern_all(m, names) matches Some((m2, ids)) ==> {
            &&& ids.len() == names.len()
            &&& forall|j: int| 0 <= j < ids.len() ==> (#[trigger] ids[j]) < m2.keys.len()
            &&& forall|j: int| 0 <= j < ids.len() ==> m2.keys[#[trigger] ids[j] as int] == names[j]
            &&& m2.kstream == m.kstream
            &&& m2.rows == m.rows
            &&& m2.fields == m.fields
            &&& m.keys.len() <= m2.keys.len() <= 0xffff
            &&& m2.keys.take(m.keys.len() as int) == m.keys
        },
    decreases names.len(),
{
    if names.len() > 0 {
        lemma_intern_all(m, names.drop_last());
        match intern_all(m, names.drop_last()) {
            Some((m1, ids1)) => {
                let k = names.last();
                lemma_intern_key_step(m1, k);
                match intern_key_step(m1, k) {
                    Some((m2, id)) => {
                        assert(intern_all(m, names) == Some((m2, ids1.push(id))));
                        assert(m2.keys.take(m.keys.len() as int) =~= m.keys) by {
                            assert(m2.keys.take(m.keys.len() as int) =~= m1.keys.take(
                                m.keys.len() as int,
                            ));
                        }
                        let ids = ids1.push(id);
                        assert forall|j: int| 0 <= j < ids.len() implies (#[trigger] ids[j]) < m2.keys.len()
                            && m2.keys[ids[j] as int] == names[j] by {
                            if j < ids1.len() {
                                assert(names.drop_last()[j] == names[j]);
                                assert(ids[j] == ids1[j]);
                                assert(m2.keys.take(m1.keys.len() as int)[ids1[j] as int] == m1.keys[ids1[j] as int]);
                            } else {
                                assert(ids[j] == id);
                            }
                        }
                    },
                    None => {},
                }
            },
            None => {},
        }
    } else {
        assert(m.keys.take(m.keys.len() as int) =~= m.keys);
    }
}

/// Interning a key gives an id whose key it is; the keys before stay.
pub proof fn lemma_intern_key_step(m: Model, k: Seq<u8>)
    requires
        m.keys.len() <= 0xffff,
    ensures
        intern_key_step(m, k) matches Some((m2, id)) ==> {
            &&& id < m2.keys.len()
            &&& m2.keys[id as int] == k
            &&& m2.keys.len() <= 0xffff
            &&& m.keys.len() <= m2.keys.len()
            &&& m2.keys.take(m.keys.len() as int) == m.keys
            &&& m2.kstream == m.kstream
            &&& m2.rows == m.rows
            &&& m2.fields == m.fields
        },
{
    match index_of(m.keys, k) {
        Some(i) => {
            assert(exists|x: int| 0 <= x < m.keys.len() && m.keys[x] == k);
            assert(m.keys.take(m.keys.len() as int) =~= m.keys);
        },
        None => {
            assert(m.keys.push(k).take(m.keys.len() as int) =~= m.keys);
        },
    }
}

/// The rows from `cursor` on keep a model complete: each row adds one key and
/// one value per field.
pub proof fn lemma_csv_lines_complete(m: Model, data: Seq<u8>, cursor: int, ids: Seq<u16>)
    requires
        model_complete(m),
        literals_fit(m.fields),
    ensures
        csv_lines(m, data, cursor, ids) matches Some(m2) ==> model_complete(m2) && literals_fit(m2.fields),
    decreases data.len() + 1 - cursor,
{
    if 0 <= cursor < data.len() {
        let line = strip_cr(data.subrange(cursor, line_end(data, cursor)));
        if !all_spaces(line) {
            let fs = split_fields(line, 0);
            if fs.len() <= ids.len() && fs.len() <= 0xffff {
                lemma_csv_row_fields(m, fs, ids);
                match csv_row_fields(m, fs, ids) {
                    Some(m1) => {
                        lemma_sum_u16_push(m1.rows, fs.len() as u16);
                    },
                    None => {},
                }
            }
        }
        match csv_line_step(m, data, cursor, ids) {
            Some(m2) => {
                lemma_find_from(data, 0x0a, cursor);
                lemma_csv_lines_complete(m2, data, line_end(data, cursor) + 1, ids);
            },
            None => {},
        }
    }
}

/// CSV text read into a complete model whose literals fit leaves it so.
pub proof fn lemma_csv_parse_complete(m: Model, data: Seq<u8>)
    requires
        model_complete(m),
        literals_fit(m.fields),
        m.keys.len() <= 0xffff,
    ensures
        csv_parse(m, data) matches Some(m2) ==> model_complete(m2) && literals_fit(m2.fields),
{
    match find_from(data, 0x0a, 0) {
        Some(he) => {
            let names = header_names(strip_cr(data.subrange(0, he)));
            lemma_intern_all(m, names);
            match intern_all(m, names) {
                Some((m1, ids)) => {
                    lemma_csv_lines_complete(m1, data, he + 1, ids);
                },
                None => {},
            }
        },
        None => {},
    }
}


} // verus!
