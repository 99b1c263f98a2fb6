//! The columnar engine: interns keys and string values, and keeps the parsed
//! fields of flat JSON lines and CSV rows as separate byte streams.
use vstd::prelude::*;
use crate::bytes::{append_bytes, push_u16, push_u32, u16_le_bytes, u32_le_bytes};
use crate::archive::{
    archive_header, compressed_model, frame_bytes, frame_count, frame_fits, model_fits, frames_concat, is_raw_archive,
    is_structured_archive, lemma_frame_count, lemma_hex_lower, parse_input, raw_hash, sha256_hex, structured_layout,
    LumpiError, BLOCK_LEVEL, RAW_MARK, VERSION_MAJOR, VERSION_MINOR,
    data_block, frame_end, frame_start, lit_span, row_fields, scan_block, u16s_le, scan_rows_block, data_rows_block,
    dict_block, push_u16s, push_u32s, schema_block, schema_entries, schema_entry, u32s_le,
};
use crate::model::{
    dict_bytes_of, dict_lens_of, empty_model, value_type, emit_number_step, emit_string_step, value_ok,
    push_key_step, end_row_step, sum_u16, lemma_sum_u16_push, lemma_sum_u16_range, lemma_concat_map_range, lemma_lit_lens_bound,
    intern_key_step, intern_value_step, lemma_to_set_push, lemma_concat_map_push, lemma_index_of_unique, lit_lens_of, lits_of,
    count_byte, ints_of, lemma_stream_counts, varints_of_ints, literal_fits, model_complete, model_wf, seen_of, sid_part, varint_part, lit_part, lit_len_part, index_of, sids_of, types_of, varints_of, Value, Model, MAX_KEYS, high_cardinality, judged_high,
    TYPE_LITERAL, TYPE_STRING, TYPE_STRING_LIT, TYPE_VARINT,
};
use crate::number::{is_json_number, parse_i64};
use crate::format::InputFormat;
use crate::trusted::{
    compress_block, zstd_decoded, zstd_encode_all, zstd_frame,
    key_ids_contents, key_set_contents, seen_counts_contents, value_ids_contents, KeyIds, KeySet,
    SeenCounts, ValueIds,
};
use crate::varint::{encode_zigzag_varint, lemma_varint_len_of_bytes, skip_varint, varint_bytes, varint_len, zigzag};
use crate::number::parse_i64_spec;
use crate::json::{
    json_measure, json_parse, json_start,
    after_value, backslashes_before, closing_quote, json_finish, json_run, json_step, lemma_closing_quote,
    lemma_json_step_decreases, only_separators, FsmState, JsonState, JsonStep,
};
use crate::csv::{
    csv_fields_state, csv_line_state, csv_line_step, csv_lines, csv_lines_state, csv_parse, csv_row, csv_row_fields,
    csv_row_state, csv_state, csv_value_state, csv_value_step, header_names, intern_all, intern_all_state,
    lemma_fields_state_frozen, lemma_intern_state_frozen, line_end, split_commas, split_fields,
};
use crate::text::{
    all_number_chars_exec, all_spaces, all_spaces_exec, find_byte_from, find_from, json_escape_exec,
    lemma_find_from, strip_cr, strip_cr_slice, trim_ascii_slice, trimmed, unquote, find2_from,
    find_byte2_from, lemma_find2_from, lemma_skip_spaces_bounds, lemma_trim_end_bounds,
    skip_spaces, skip_spaces_from, trim_end, is_space_byte, is_space,
};

verus! {

/// Once interning a prefix of the names fails, interning them all fails.
proof fn lemma_intern_all_none(m: Model, names: Seq<Seq<u8>>, k: int)
    requires
        0 <= k <= names.len(),
        intern_all(m, names.take(k)) is None,
    ensures
        intern_all(m, names) is None,
    decreases names.len() - k,
{
    if k < names.len() {
        assert(names.take(k + 1).drop_last() =~= names.take(k));
        lemma_intern_all_none(m, names, k + 1);
    } else {
        assert(names.take(k) =~= names);
    }
}

/// Once a prefix of a row's fields is refused, so is the row.
proof fn lemma_csv_row_fields_none(m: Model, fs: Seq<Seq<u8>>, ids: Seq<u16>, k: int)
    requires
        0 <= k <= fs.len(),
        csv_row_fields(m, fs.take(k), ids) is None,
    ensures
        csv_row_fields(m, fs, ids) is None,
    decreases fs.len() - k,
{
    if k < fs.len() {
        assert(fs.take(k + 1).drop_last() =~= fs.take(k));
        lemma_csv_row_fields_none(m, fs, ids, k + 1);
    } else {
        assert(fs.take(k) =~= fs);
    }
}

/// The parser's position and registers while it reads JSON.
struct JsonCursor {
    cursor: usize,
    state: FsmState,
    field_count: u16,
    val_start: usize,
    cur_key_id: u16,
}

/// The parser's whole state, with the engine's model.
spec fn jstate(p: JsonCursor, m: Model) -> JsonState {
    JsonState {
        cursor: p.cursor as int,
        state: p.state,
        field_count: p.field_count as int,
        val_start: p.val_start as int,
        cur_key: p.cur_key_id,
        m: m,
    }
}

/// What holds of the parser's state between steps.
spec fn parser_inv(s: Seq<u8>, st: JsonState) -> bool {
    &&& 0 <= st.cursor <= s.len()
    &&& 0 <= st.val_start <= st.cursor
    &&& 0 <= st.field_count <= 0xffff
    &&& sum_u16(st.m.rows) + st.field_count <= st.m.fields.len()
    &&& sum_u16(st.m.rows) + st.field_count <= st.m.kstream.len()
    &&& (st.state == FsmState::Colon || st.state == FsmState::ValueString || st.state
        == FsmState::ValueNumber) ==> sum_u16(st.m.rows) + st.field_count < st.m.kstream.len()
    &&& st.state == FsmState::ValueString ==> st.val_start >= 1
}

/// How a step of the parser ended.
#[derive(PartialEq, Eq, Structural)]
enum Outcome {
    Continue,
    Done,
    Fail,
}

/// The step's outcome and the state it leads to agree with [`json_step`].
spec fn outcome_matches(step: JsonStep, r: Outcome, st2: JsonState) -> bool {
    match step {
        JsonStep::Continue(t) => r == Outcome::Continue && st2 == t,
        JsonStep::Done(t) => r == Outcome::Done && st2 == t,
        JsonStep::Fail => r == Outcome::Fail,
    }
}

/// Whether every byte of `s[a..b]` is whitespace or a comma.
fn only_separators_exec(s: &[u8], a: usize, b: usize) -> (r: bool)
    requires
        a <= b <= s.len(),
    ensures
        r == only_separators(s@, a as int, b as int),
{
    let mut i = a;
    while i < b
        invariant
            a <= i <= b <= s.len(),
            forall|k: int| a <= k < i ==> is_space(#[trigger] s@[k]) || s@[k] == 0x2c,
        decreases b - i,
    {
        if !is_space_byte(s[i]) && s[i] != 0x2c {
            return false;
        }
        i = i + 1;
    }
    true
}

/// Number of backslashes right before `p`, not counting any before `lo`.
fn count_backslashes(s: &[u8], lo: usize, p: usize) -> (r: usize)
    requires
        1 <= lo <= p < s.len(),
    ensures
        r == backslashes_before(s@, lo as int, p as int),
{
    let mut escapes: usize = 0;
    let mut ci: usize = p - 1;
    while ci >= lo && s[ci] == 0x5c
        invariant
            lo >= 1,
            lo - 1 <= ci < p < s.len(),
            escapes + (ci + 1) == p,
            backslashes_before(s@, lo as int, p as int) == escapes + backslashes_before(
                s@,
                lo as int,
                ci + 1,
            ),
        decreases ci,
    {
        escapes = escapes + 1;
        ci = ci - 1;
    }
    escapes
}

/// The quote that closes the string value begun at `lo`, searching from `c`.
fn find_closing_quote(s: &[u8], lo: usize, c: usize) -> (r: Option<usize>)
    requires
        1 <= lo <= c <= s.len(),
    ensures
        r == (match closing_quote(s@, lo as int, c as int) {
            Some(p) => Some(p as usize),
            None => None::<usize>,
        }),
{
    let mut cursor = c;
    loop
        invariant
            1 <= lo <= cursor <= s.len(),
            closing_quote(s@, lo as int, cursor as int) == closing_quote(s@, lo as int, c as int),
        decreases s.len() - cursor,
    {
        if cursor >= s.len() {
            return None;
        }
        proof {
            lemma_find_from(s@, 0x22, cursor as int);
        }
        match find_byte_from(s, 0x22, cursor) {
            None => {
                return None;
            },
            Some(p) => {
                let escapes = count_backslashes(s, lo, p);
                if escapes % 2 == 1 {
                    cursor = p + 1;
                } else {
                    return Some(p);
                }
            },
        }
    }
}

/// What an engine's tables and streams hold, as values.
pub struct EngineState {
    /// Key bytes to key id.
    pub key_ids: Map<Seq<u8>, u16>,
    pub next_key_id: u16,
    /// Dictionary string to its id.
    pub value_ids: Map<Seq<u8>, u32>,
    pub next_val_id: u32,
    /// The dictionary strings' bytes, one after the other.
    pub dict_bytes: Seq<u8>,
    /// The dictionary strings' lengths.
    pub dict_lengths: Seq<u32>,
    pub keys_stream: Seq<u16>,
    pub types_stream: Seq<u8>,
    pub string_ids_stream: Seq<u32>,
    pub varint_stream: Seq<u8>,
    pub literal_stream: Seq<u8>,
    pub literal_lengths: Seq<u16>,
    pub fields_per_row: Seq<u16>,
}

/// The compressor's state: dictionaries of keys and string values, and the
/// streams of parsed fields that an archive is written from.
pub struct LumpiEngine {
    schema_dict: KeyIds,
    next_key_id: u16,
    value_dict: ValueIds,
    next_val_id: u32,
    dict_bytes: Vec<u8>,
    dict_lengths: Vec<u32>,
    keys_stream: Vec<u16>,
    types_stream: Vec<u8>,
    string_ids_stream: Vec<u32>,
    varint_stream: Vec<u8>,
    literal_stream: Vec<u8>,
    literal_lengths: Vec<u16>,
    fields_per_row: Vec<u16>,
    key_str_seen: SeenCounts,
    high_card_keys: KeySet,
    content: Ghost<Model>,
}

impl LumpiEngine {
    /// What the engine holds.
    pub closed spec fn model(&self) -> Model {
        self.content@
    }

    /// The engine's tables and streams agree with its model.
    pub closed spec fn wf(&self) -> bool {
        let m = self.content@;
        &&& model_wf(m)
        &&& key_ids_contents(self.schema_dict).dom() == m.keys.to_set()
        &&& forall|i: int|
            0 <= i < m.keys.len() ==> key_ids_contents(self.schema_dict)[#[trigger] m.keys[i]]
                == i
        &&& self.next_key_id == m.keys.len()
        &&& value_ids_contents(self.value_dict).dom() == m.vals.to_set()
        &&& forall|i: int|
            0 <= i < m.vals.len() ==> value_ids_contents(self.value_dict)[#[trigger] m.vals[i]]
                == i
        &&& self.next_val_id == m.vals.len()
        &&& self.dict_bytes@ == dict_bytes_of(m.vals)
        &&& self.dict_lengths@ == dict_lens_of(m.vals)
        &&& self.keys_stream@ == m.kstream
        &&& self.types_stream@ == types_of(m.fields)
        &&& self.string_ids_stream@ == sids_of(m.fields)
        &&& self.varint_stream@ == varints_of(m.fields)
        &&& self.literal_stream@ == lits_of(m.fields)
        &&& self.literal_lengths@ == lit_lens_of(m.fields)
        &&& self.fields_per_row@ == m.rows
        &&& seen_counts_contents(self.key_str_seen) == m.seen
        &&& key_set_contents(self.high_card_keys) == m.high
    }

    /// The engine's tables and streams.
    pub closed spec fn state(&self) -> EngineState {
        EngineState {
            key_ids: key_ids_contents(self.schema_dict),
            next_key_id: self.next_key_id,
            value_ids: value_ids_contents(self.value_dict),
            next_val_id: self.next_val_id,
            dict_bytes: self.dict_bytes@,
            dict_lengths: self.dict_lengths@,
            keys_stream: self.keys_stream@,
            types_stream: self.types_stream@,
            string_ids_stream: self.string_ids_stream@,
            varint_stream: self.varint_stream@,
            literal_stream: self.literal_stream@,
            literal_lengths: self.literal_lengths@,
            fields_per_row: self.fields_per_row@,
        }
    }

    /// What the tables and streams of every engine hold, and how they stand
    /// to its model: the key stream is the fields' key ids, each below the
    /// next key id; the type stream has one byte per field; the row lengths
    /// add up to at most the number of fields and of key ids (exactly both in
    /// a complete model); one string id per string type byte, each below the
    /// next string id; one literal length per literal type byte, the lengths
    /// adding up to the literal bytes; one complete varint per integer type
    /// byte; each key and dictionary string at its id in its table, the next
    /// ids being the table sizes, and the dictionary's bytes and lengths those
    /// of its strings in id order.
    pub proof fn lemma_state(&self)
        requires
            self.wf(),
        ensures
            ({
                let st = self.state();
                let m = self.model();
                &&& st.keys_stream == m.kstream
                &&& st.types_stream == types_of(m.fields)
                &&& st.fields_per_row == m.rows
                &&& st.types_stream.len() == m.fields.len()
                &&& sum_u16(st.fields_per_row) <= st.types_stream.len()
                &&& sum_u16(st.fields_per_row) <= st.keys_stream.len()
                &&& model_complete(m) ==> sum_u16(st.fields_per_row) == st.types_stream.len()
                    == st.keys_stream.len()
                &&& forall|i: int| 0 <= i < st.keys_stream.len() ==> #[trigger] st.keys_stream[i] < st.next_key_id
                &&& st.string_ids_stream.len() == count_byte(st.types_stream, TYPE_STRING)
                &&& forall|i: int|
                    0 <= i < st.string_ids_stream.len() ==> #[trigger] st.string_ids_stream[i] < st.next_val_id
                &&& st.literal_lengths.len() == count_byte(st.types_stream, TYPE_LITERAL) + count_byte(
                    st.types_stream,
                    TYPE_STRING_LIT,
                )
                &&& sum_u16(st.literal_lengths) == st.literal_stream.len()
                &&& st.varint_stream == varints_of_ints(ints_of(m.fields))
                &&& ints_of(m.fields).len() == count_byte(st.types_stream, TYPE_VARINT)
                &&& st.next_key_id == m.keys.len()
                &&& st.key_ids.dom() == m.keys.to_set()
                &&& forall|i: int| 0 <= i < m.keys.len() ==> st.key_ids[#[trigger] m.keys[i]] == i
                &&& st.next_val_id == m.vals.len()
                &&& st.value_ids.dom() == m.vals.to_set()
                &&& st.value_ids.dom().len() == st.next_val_id
                &&& forall|i: int| 0 <= i < m.vals.len() ==> st.value_ids[#[trigger] m.vals[i]] == i
                &&& st.dict_lengths.len() == st.next_val_id
                &&& forall|i: int| 0 <= i < m.vals.len() ==> #[trigger] st.dict_lengths[i] == m.vals[i].len() as u32
                &&& st.dict_bytes == dict_bytes_of(m.vals)
            }),
    {
        let m = self.content@;
        lemma_stream_counts(m.fields, m.vals.len());
        crate::roundtrip::lemma_lit_span_exact(m.fields);
        m.vals.unique_seq_to_set();
        assert forall|k: int| 0 <= k < m.fields.len() implies (#[trigger] m.fields[k] matches Value::Str(id)
            ==> id < m.vals.len()) by {
            assert(value_ok(m, m.fields[k]));
        }
    }

    /// What holds of the model of every engine.
    pub proof fn lemma_model_wf(&self)
        requires
            self.wf(),
        ensures
            model_wf(self.model()),
    {
    }

    /// An empty engine.
    pub fn new() -> (r: Self)
        ensures
            r.wf(),
            r.model() == empty_model(),
    {
        let r = LumpiEngine {
            schema_dict: KeyIds::new(),
            next_key_id: 0,
            value_dict: ValueIds::new(),
            next_val_id: 0,
            dict_bytes: Vec::new(),
            dict_lengths: Vec::new(),
            keys_stream: Vec::new(),
            types_stream: Vec::new(),
            string_ids_stream: Vec::new(),
            varint_stream: Vec::new(),
            literal_stream: Vec::new(),
            literal_lengths: Vec::new(),
            fields_per_row: Vec::new(),
            key_str_seen: SeenCounts::new(),
            high_card_keys: KeySet::new(),
            content: Ghost(empty_model()),
        };
        proof {
            let m = empty_model();
            assert(m.keys.to_set() =~= Set::empty());
            assert(m.vals.to_set() =~= Set::empty());
            assert(types_of(m.fields) =~= Seq::empty());
            assert(dict_lens_of(m.vals) =~= Seq::empty());
        }
        r
    }

    /// Empties the engine.
    pub fn clear(&mut self)
        ensures
            final(self).wf(),
            final(self).model() == empty_model(),
    {
        self.schema_dict.clear();
        self.next_key_id = 0;
        self.value_dict.clear();
        self.next_val_id = 0;
        self.dict_bytes.clear();
        self.dict_lengths.clear();
        self.keys_stream.clear();
        self.types_stream.clear();
        self.string_ids_stream.clear();
        self.varint_stream.clear();
        self.literal_stream.clear();
        self.literal_lengths.clear();
        self.fields_per_row.clear();
        self.key_str_seen.clear();
        self.high_card_keys.clear();
        self.content = Ghost(empty_model());
        proof {
            let m = empty_model();
            assert(m.keys.to_set() =~= Set::empty());
            assert(m.vals.to_set() =~= Set::empty());
            assert(types_of(m.fields) =~= Seq::empty());
            assert(dict_lens_of(m.vals) =~= Seq::empty());
        }
    }

    /// Whether the engine holds any key of a parsed field.
    pub fn was_structured(&self) -> (r: bool)
        requires
            self.wf(),
        ensures
            r == (self.model().kstream.len() > 0),
    {
        self.keys_stream.len() != 0
    }

    /// The id of `key`, interned if it is new; `None` when the key table is full.
    fn intern_key(&mut self, key: &[u8]) -> (r: Option<u16>)
        requires
            old(self).wf(),
        ensures
            final(self).wf(),
            match intern_key_step(old(self).model(), key@) {
                Some((m, id)) => r == Some(id) && final(self).model() == m,
                None => r is None && final(self).model() == old(self).model(),
            },
    {
        let ghost m = self.content@;
        match self.schema_dict.get(key) {
            Some(id) => {
                proof {
                    assert(m.keys.to_set().contains(key@));
                    let i = choose|i: int| 0 <= i < m.keys.len() && m.keys[i] == key@;
                    lemma_index_of_unique(m.keys, i);
                }
                return Some(id);
            },
            None => {},
        }
        proof {
            if exists|i: int| 0 <= i < m.keys.len() && m.keys[i] == key@ {
                let i = choose|i: int| 0 <= i < m.keys.len() && m.keys[i] == key@;
                assert(m.keys.to_set().contains(m.keys[i]));
            }
        }
        if self.next_key_id >= MAX_KEYS {
            return None;
        }
        let id = self.next_key_id;
        self.next_key_id = self.next_key_id + 1;
        self.schema_dict.insert(vstd::slice::slice_to_vec(key), id);
        let ghost m2 = Model { keys: m.keys.push(key@), ..m };
        self.content = Ghost(m2);
        proof {
            lemma_to_set_push(m.keys, key@);
            assert forall|i: int| 0 <= i < m2.keys.len() implies key_ids_contents(
                self.schema_dict,
            )[#[trigger] m2.keys[i]] == i by {
                if i < m.keys.len() {
                    assert(m2.keys[i] == m.keys[i]);
                }
            }
            assert forall|i: int, j: int|
                0 <= i < m2.keys.len() && 0 <= j < m2.keys.len() && i != j implies m2.keys[i]
                != m2.keys[j] by {
                if i < m.keys.len() && j < m.keys.len() {
                } else if i < m.keys.len() {
                    assert(m.keys.to_set().contains(m.keys[i]));
                } else if j < m.keys.len() {
                    assert(m.keys.to_set().contains(m.keys[j]));
                }
            }
            assert forall|i: int| 0 <= i < m2.fields.len() implies value_ok(
                m2,
                #[trigger] m2.fields[i],
            ) by {
                assert(value_ok(m, m.fields[i]));
            }
        }
        Some(id)
    }

    /// The id of the dictionary string `val`, interned if it is new; `None`
    /// when the dictionary is full.
    fn intern_string_value(&mut self, val: &[u8]) -> (r: Option<u32>)
        requires
            old(self).wf(),
        ensures
            final(self).wf(),
            match intern_value_step(old(self).model(), val@) {
                Some((m, id)) => r == Some(id) && final(self).model() == m,
                None => r is None && final(self).model() == old(self).model(),
            },
    {
        let ghost m = self.content@;
        match self.value_dict.get(val) {
            Some(id) => {
                proof {
                    assert(m.vals.to_set().contains(val@));
                    let i = choose|i: int| 0 <= i < m.vals.len() && m.vals[i] == val@;
                    lemma_index_of_unique(m.vals, i);
                }
                return Some(id);
            },
            None => {},
        }
        proof {
            if exists|i: int| 0 <= i < m.vals.len() && m.vals[i] == val@ {
                let i = choose|i: int| 0 <= i < m.vals.len() && m.vals[i] == val@;
                assert(m.vals.to_set().contains(m.vals[i]));
            }
        }
        if self.next_val_id == 0xffff_ffffu32 {
            return None;
        }
        let id = self.next_val_id;
        self.next_val_id = self.next_val_id + 1;
        append_bytes(&mut self.dict_bytes, val);
        self.dict_lengths.push(val.len() as u32);
        self.value_dict.insert(vstd::slice::slice_to_vec(val), id);
        let ghost m2 = Model { vals: m.vals.push(val@), ..m };
        self.content = Ghost(m2);
        proof {
            lemma_to_set_push(m.vals, val@);
            lemma_concat_map_push(m.vals, val@, |v: Seq<u8>| v);
            assert(dict_lens_of(m2.vals) =~= dict_lens_of(m.vals).push(val@.len() as u32));
            assert forall|i: int| 0 <= i < m2.vals.len() implies value_ids_contents(
                self.value_dict,
            )[#[trigger] m2.vals[i]] == i by {
                if i < m.vals.len() {
                    assert(m2.vals[i] == m.vals[i]);
                }
            }
            assert forall|i: int, j: int|
                0 <= i < m2.vals.len() && 0 <= j < m2.vals.len() && i != j implies m2.vals[i]
                != m2.vals[j] by {
                if i < m.vals.len() && j < m.vals.len() {
                } else if i < m.vals.len() {
                    assert(m.vals.to_set().contains(m.vals[i]));
                } else if j < m.vals.len() {
                    assert(m.vals.to_set().contains(m.vals[j]));
                }
            }
            assert forall|i: int| 0 <= i < m2.fields.len() implies value_ok(
                m2,
                #[trigger] m2.fields[i],
            ) by {
                assert(value_ok(m, m.fields[i]));
            }
        }
        Some(id)
    }

    /// Writes the key id of a field whose value comes next.
    fn push_key(&mut self, id: u16)
        requires
            old(self).wf(),
            id < old(self).model().keys.len(),
        ensures
            final(self).wf(),
            final(self).model() == push_key_step(old(self).model(), id),
    {
        self.keys_stream.push(id);
        let ghost m = self.content@;
        self.content = Ghost(push_key_step(m, id));
    }

    /// Ends a row of `count` fields.
    fn end_row(&mut self, count: u16)
        requires
            old(self).wf(),
            sum_u16(old(self).model().rows) + count <= old(self).model().fields.len(),
            sum_u16(old(self).model().rows) + count <= old(self).model().kstream.len(),
        ensures
            final(self).wf(),
            final(self).model() == end_row_step(old(self).model(), count),
    {
        self.fields_per_row.push(count);
        let ghost m = self.content@;
        self.content = Ghost(end_row_step(m, count));
        proof {
            lemma_sum_u16_push(m.rows, count);
        }
    }

    proof fn lemma_push_value(m: Model, f: Value)
        ensures
            types_of(m.fields.push(f)) == types_of(m.fields).push(value_type(f)),
            sids_of(m.fields.push(f)) == sids_of(m.fields) + sid_part(f),
            varints_of(m.fields.push(f)) == varints_of(m.fields) + varint_part(f),
            lits_of(m.fields.push(f)) == lits_of(m.fields) + lit_part(f),
            lit_lens_of(m.fields.push(f)) == lit_lens_of(m.fields) + lit_len_part(f),
    {
        assert(types_of(m.fields.push(f)) =~= types_of(m.fields).push(value_type(f)));
        lemma_concat_map_push(m.fields, f, |f: Value| sid_part(f));
        lemma_concat_map_push(m.fields, f, |f: Value| varint_part(f));
        lemma_concat_map_push(m.fields, f, |f: Value| lit_part(f));
        lemma_concat_map_push(m.fields, f, |f: Value| lit_len_part(f));
    }

    /// Emits a string value of a field of key `key_id`: as a literal when the
    /// key is high-cardinality, else by dictionary id, judging the key's
    /// cardinality on the way. `false` when a counter or the dictionary is full.
    fn emit_string_value(&mut self, key_id: u16, val: &[u8]) -> (r: bool)
        requires
            old(self).wf(),
        ensures
            final(self).wf(),
            final(self).model().keys == old(self).model().keys,
            match emit_string_step(old(self).model(), key_id, val@) {
                Some(m) => r && final(self).model() == m,
                None => !r && final(self).model() == old(self).model(),
            },
    {
        let ghost m = self.content@;
        if self.high_card_keys.contains(key_id) {
            if val.len() > 0xffff {
                return false;
            }
            self.types_stream.push(TYPE_STRING_LIT);
            append_bytes(&mut self.literal_stream, val);
            self.literal_lengths.push(val.len() as u16);
            let ghost f = Value::StrLit(val@);
            self.content = Ghost(Model { fields: m.fields.push(f), ..m });
            proof {
                Self::lemma_push_value(m, f);
                assert(self.literal_lengths@ =~= lit_lens_of(m.fields.push(f)));
                let m2 = self.content@;
                assert forall|i: int| 0 <= i < m2.fields.len() implies value_ok(
                    m2,
                    #[trigger] m2.fields[i],
                ) by {
                    if i < m.fields.len() {
                        assert(value_ok(m, m.fields[i]));
                    }
                }
            }
            return true;
        }
        let was_new = self.value_dict.get(val).is_none();
        let seen = match self.key_str_seen.get(key_id) {
            Some(c) => c,
            None => (0u32, 0u32),
        };
        if seen.0 == 0xffff_ffffu32 {
            return false;
        }
        proof {
            if exists|i: int| 0 <= i < m.vals.len() && m.vals[i] == val@ {
                let i = choose|i: int| 0 <= i < m.vals.len() && m.vals[i] == val@;
                assert(m.vals.to_set().contains(m.vals[i]));
            }
            assert(was_new == (index_of(m.vals, val@) is None));
            assert(seen == seen_of(m, key_id));
        }
        let dict_id = match self.intern_string_value(val) {
            Some(id) => id,
            None => {
                return false;
            },
        };
        let ghost m1 = self.content@;
        let new_count: u32 = if was_new {
            seen.1 + 1
        } else {
            seen.1
        };
        let counts = (seen.0 + 1, new_count);
        self.key_str_seen.insert(key_id, counts);
        if high_cardinality(counts.0, counts.1) {
            self.high_card_keys.insert(key_id);
        }
        self.types_stream.push(TYPE_STRING);
        self.string_ids_stream.push(dict_id);
        let ghost f = Value::Str(dict_id);
        let ghost high = if judged_high(counts.0, counts.1) {
            m.high.insert(key_id)
        } else {
            m.high
        };
        self.content = Ghost(
            Model { fields: m1.fields.push(f), seen: m.seen.insert(key_id, counts), high: high, ..m1 },
        );
        proof {
            Self::lemma_push_value(m1, f);
            assert(self.string_ids_stream@ =~= sids_of(m1.fields.push(f)));
            let m2 = self.content@;
            assert forall|i: int| 0 <= i < m2.fields.len() implies value_ok(
                m2,
                #[trigger] m2.fields[i],
            ) by {
                if i < m1.fields.len() {
                    assert(value_ok(m1, m1.fields[i]));
                } else {
                    assert(dict_id < m1.vals.len());
                }
            }
            assert forall|k: u16| #[trigger] m2.seen.contains_key(k) implies m2.seen[k].1
                <= m2.seen[k].0 by {
                if k != key_id {
                    assert(m.seen.contains_key(k));
                }
            }
        }
        true
    }

    /// Emits a number: as a zigzag varint when the text is an `i64`, else as a
    /// literal.
    fn emit_number_value(&mut self, bytes: &[u8]) -> (r: bool)
        requires
            old(self).wf(),
        ensures
            final(self).wf(),
            match emit_number_step(old(self).model(), bytes@) {
                Some(m) => r && final(self).model() == m,
                None => !r && final(self).model() == old(self).model(),
            },
    {
        let ghost m = self.content@;
        match parse_i64(bytes) {
            Some(n) => {
                self.types_stream.push(TYPE_VARINT);
                encode_zigzag_varint(n, &mut self.varint_stream);
                let ghost f = Value::Int(n);
                self.content = Ghost(Model { fields: m.fields.push(f), ..m });
                proof {
                    Self::lemma_push_value(m, f);
                }
            },
            None => {
                if bytes.len() > 0xffff {
                    return false;
                }
                self.types_stream.push(TYPE_LITERAL);
                append_bytes(&mut self.literal_stream, bytes);
                self.literal_lengths.push(bytes.len() as u16);
                let ghost f = Value::Lit(bytes@);
                self.content = Ghost(Model { fields: m.fields.push(f), ..m });
                proof {
                    Self::lemma_push_value(m, f);
                    assert(self.literal_lengths@ =~= lit_lens_of(m.fields.push(f)));
                }
            },
        }
        proof {
            let m2 = self.content@;
            assert forall|i: int| 0 <= i < m2.fields.len() implies value_ok(
                m2,
                #[trigger] m2.fields[i],
            ) by {
                if i < m.fields.len() {
                    assert(value_ok(m, m.fields[i]));
                }
            }
        }
        true
    }

    /// Emits one CSV field of column key `key_id`.
    fn emit_csv_field(&mut self, field: &[u8], key_id: u16) -> (r: bool)
        requires
            old(self).wf(),
            key_id < old(self).model().keys.len(),
        ensures
            final(self).wf(),
            final(self).model().keys == old(self).model().keys,
            r == (csv_value_step(old(self).model(), field@, key_id) is Some),
            final(self).model() == csv_value_state(old(self).model(), field@, key_id),
    {
        self.push_key(key_id);
        let t = trim_ascii_slice(field);
        if t.len() >= 2 && t[0] == 0x22 && t[t.len() - 1] == 0x22 {
            let inner = json_escape_exec(&t[1..t.len() - 1]);
            self.emit_string_value(key_id, inner.as_slice())
        } else if t.len() > 0 && all_number_chars_exec(t) && (parse_i64(t).is_some() || is_json_number(t)) {
            self.emit_number_value(t)
        } else {
            let esc = json_escape_exec(t);
            self.emit_string_value(key_id, esc.as_slice())
        }
    }

    /// Emits one CSV row: each field for its column, then the row's end.
    fn emit_csv_row(&mut self, fields: &Vec<&[u8]>, key_ids: &Vec<u16>) -> (r: bool)
        requires
            old(self).wf(),
            forall|i: int| 0 <= i < key_ids@.len() ==> #[trigger] key_ids@[i] < old(self).model().keys.len(),
        ensures
            final(self).wf(),
            final(self).model().keys == old(self).model().keys,
            match csv_row(old(self).model(), fields@.map_values(|f: &[u8]| f@), key_ids@) {
                Some(m) => r && final(self).model() == m,
                None => !r,
            },
            final(self).model() == csv_row_state(old(self).model(), fields@.map_values(|f: &[u8]| f@), key_ids@),
    {
        let ghost m0 = self.content@;
        let ghost fs = fields@.map_values(|f: &[u8]| f@);
        if fields.len() <= key_ids.len() && fields.len() > 0xffff {
            return false;
        }
        let n = if fields.len() < key_ids.len() {
            fields.len()
        } else {
            key_ids.len()
        };
        let ghost gs = fs.take(n as int);
        let mut i: usize = 0;
        while i < n
            invariant
                0 <= i <= n,
                n <= fields@.len(),
                n <= key_ids@.len(),
                fields@.len() <= key_ids@.len() ==> n == fields@.len() && n <= 0xffff,
                fields@.len() > key_ids@.len() ==> n == key_ids@.len(),
                fs == fields@.map_values(|f: &[u8]| f@),
                gs == fs.take(n as int),
                m0 == old(self).model(),
                self.wf(),
                self.content@.keys == m0.keys,
                forall|k: int| 0 <= k < key_ids@.len() ==> #[trigger] key_ids@[k] < m0.keys.len(),
                csv_row_fields(m0, fs.take(i as int), key_ids@) == Some(self.content@),
                sum_u16(self.content@.rows) + i <= self.content@.fields.len(),
                sum_u16(self.content@.rows) + i <= self.content@.kstream.len(),
            decreases n - i,
        {
            let ghost before = self.content@;
            assert(fs.take(i + 1).drop_last() =~= fs.take(i as int));
            assert(fs.take(i + 1).last() == fields@[i as int]@);
            let ok = self.emit_csv_field(fields[i], key_ids[i]);
            if !ok {
                proof {
                    assert(csv_row_fields(m0, fs.take(i + 1), key_ids@) is None);
                    assert(csv_fields_state(m0, fs.take(i + 1), key_ids@) == self.content@);
                    assert(gs.take(i + 1) =~= fs.take(i + 1));
                    lemma_fields_state_frozen(m0, gs, key_ids@, i + 1);
                    lemma_csv_row_fields_none(m0, fs, key_ids@, i + 1);
                    if fs.len() <= key_ids@.len() {
                        assert(gs =~= fs);
                    }
                }
                return false;
            }
            i = i + 1;
        }
        if fields.len() > key_ids.len() {
            proof {
                assert(gs =~= fs.take(n as int));
                assert(csv_row_fields(m0, gs, key_ids@) == Some(self.content@));
                if gs.len() > 0 {
                    assert(csv_fields_state(m0, gs, key_ids@) == self.content@);
                }
            }
            return false;
        }
        assert(fs.take(fs.len() as int) =~= fs);
        self.end_row(fields.len() as u16);
        true
    }

    /// Interns the column names of a CSV header line.
    fn intern_headers(&mut self, header_line: &[u8]) -> (r: Option<Vec<u16>>)
        requires
            old(self).wf(),
        ensures
            final(self).wf(),
            match intern_all(old(self).model(), header_names(header_line@)) {
                Some((m, ids)) => r matches Some(v) && v@ == ids && final(self).model() == m,
                None => r is None,
            },
            r matches Some(v) ==> forall|k: int|
                0 <= k < v@.len() ==> #[trigger] v@[k] < final(self).model().keys.len(),
            r is None ==> final(self).model() == intern_all_state(old(self).model(), header_names(header_line@)),
    {
        let headers = split_commas(header_line);
        let ghost names = header_names(header_line@);
        let ghost m0 = self.content@;
        let mut key_ids: Vec<u16> = Vec::new();
        let mut h: usize = 0;
        while h < headers.len()
            invariant
                0 <= h <= headers@.len(),
                headers@.len() == split_fields(header_line@, 0).len(),
                forall|i: int| 0 <= i < headers@.len() ==> (#[trigger] headers@[i])@ == split_fields(header_line@, 0)[i],
                names == header_names(header_line@),
                m0 == old(self).model(),
                self.wf(),
                intern_all(m0, names.take(h as int)) == Some((self.content@, key_ids@)),
                forall|k: int| 0 <= k < key_ids@.len() ==> #[trigger] key_ids@[k] < self.content@.keys.len(),
            decreases headers@.len() - h,
        {
            let t = trim_ascii_slice(headers[h]);
            let col = if t.len() >= 2 && t[0] == 0x22 && t[t.len() - 1] == 0x22 {
                &t[1..t.len() - 1]
            } else {
                t
            };
            let col = json_escape_exec(col);
            let col = col.as_slice();
            assert(col@ == names[h as int]);
            assert(names.take(h + 1).drop_last() =~= names.take(h as int));
            match self.intern_key(col) {
                Some(id) => {
                    key_ids.push(id);
                },
                None => {
                    proof {
                        assert(intern_all(m0, names.take(h + 1)) is None);
                        assert(intern_all_state(m0, names.take(h + 1)) == self.content@);
                        lemma_intern_all_none(m0, names, h + 1);
                        lemma_intern_state_frozen(m0, names, h + 1);
                        assert(names.take(names.len() as int) =~= names);
                    }
                    return None;
                },
            }
            h = h + 1;
        }
        assert(names.take(names.len() as int) =~= names);
        Some(key_ids)
    }

    /// Reads the CSV line that starts at `cursor`: nothing when it is blank,
    /// else one row.
    fn parse_csv_line(&mut self, data: &[u8], cursor: usize, key_ids: &Vec<u16>) -> (r: bool)
        requires
            old(self).wf(),
            cursor < data.len(),
            forall|k: int| 0 <= k < key_ids@.len() ==> #[trigger] key_ids@[k] < old(self).model().keys.len(),
        ensures
            final(self).wf(),
            final(self).model().keys == old(self).model().keys,
            r == (csv_line_step(old(self).model(), data@, cursor as int, key_ids@) is Some),
            r ==> final(self).model() == csv_line_step(old(self).model(), data@, cursor as int, key_ids@).unwrap(),
            final(self).model() == csv_line_state(old(self).model(), data@, cursor as int, key_ids@),
    {
        proof {
            lemma_find_from(data@, 0x0a, cursor as int);
        }
        let le = match find_byte_from(data, 0x0a, cursor) {
            Some(p) => p,
            None => data.len(),
        };
        assert(le == line_end(data@, cursor as int));
        let line = strip_cr_slice(&data[cursor..le]);
        if all_spaces_exec(line) {
            return true;
        }
        let fields = split_commas(line);
        let ghost fs = fields@.map_values(|f: &[u8]| f@);
        assert(fs =~= split_fields(line@, 0));
        self.emit_csv_row(&fields, key_ids)
    }

    /// Reads CSV text (a header line, then rows) into the engine; `false` where
    /// it gives up on the text (see [`csv_parse`]).
    fn parse_csv(&mut self, data: &[u8]) -> (r: bool)
        requires
            old(self).wf(),
        ensures
            final(self).wf(),
            r == (csv_parse(old(self).model(), data@) is Some),
            r ==> final(self).model() == csv_parse(old(self).model(), data@).unwrap(),
            final(self).model() == csv_state(old(self).model(), data@),
    {
        let ghost m0 = self.content@;
        proof {
            lemma_find_from(data@, 0x0a, 0);
        }
        let header_end = match find_byte_from(data, 0x0a, 0) {
            Some(p) => p,
            None => {
                return false;
            },
        };
        assert(header_end < data.len());
        let header_line = strip_cr_slice(&data[0..header_end]);
        let key_ids = match self.intern_headers(header_line) {
            Some(v) => v,
            None => {
                return false;
            },
        };
        let ghost m1 = self.content@;
        let mut cursor = header_end + 1;
        while cursor < data.len()
            invariant
                header_end < data.len(),
                find_from(data@, 0x0a, 0) == Some(header_end as int),
                intern_all(old(self).model(), header_names(strip_cr(data@.subrange(0, header_end as int))))
                    == Some((m1, key_ids@)),
                cursor <= data.len(),
                self.wf(),
                self.content@.keys == m1.keys,
                forall|k: int| 0 <= k < key_ids@.len() ==> #[trigger] key_ids@[k] < m1.keys.len(),
                csv_lines(self.content@, data@, cursor as int, key_ids@) == csv_lines(
                    m1,
                    data@,
                    header_end + 1,
                    key_ids@,
                ),
                csv_lines_state(self.content@, data@, cursor as int, key_ids@) == csv_lines_state(
                    m1,
                    data@,
                    header_end + 1,
                    key_ids@,
                ),
            decreases data.len() - cursor,
        {
            proof {
                lemma_find_from(data@, 0x0a, cursor as int);
            }
            let le = match find_byte_from(data, 0x0a, cursor) {
                Some(p) => p,
                None => data.len(),
            };
            let ghost before = self.content@;
            assert(csv_lines(before, data@, cursor as int, key_ids@) == match csv_line_step(
                before,
                data@,
                cursor as int,
                key_ids@,
            ) {
                None => None,
                Some(m2) => csv_lines(m2, data@, le + 1, key_ids@),
            });
            assert(csv_lines_state(before, data@, cursor as int, key_ids@) == match csv_line_step(
                before,
                data@,
                cursor as int,
                key_ids@,
            ) {
                None => csv_line_state(before, data@, cursor as int, key_ids@),
                Some(m2) => csv_lines_state(m2, data@, le + 1, key_ids@),
            });
            if !self.parse_csv_line(data, cursor, &key_ids) {
                return false;
            }
            assert(csv_lines(self.content@, data@, data.len() as int, key_ids@) == csv_lines(
                self.content@,
                data@,
                data.len() + 1,
                key_ids@,
            ));
            cursor = if le < data.len() {
                le + 1
            } else {
                data.len()
            };
        }
        self.keys_stream.len() != 0
    }

    /// Parser step in state `ObjectStart`.
    fn json_object_start(&mut self, s: &[u8], p: &mut JsonCursor) -> (r: Outcome)
        requires
            old(self).wf(),
            old(p).state == FsmState::ObjectStart,
            old(p).cursor < s.len(),
            parser_inv(s@, jstate(*old(p), old(self).model())),
        ensures
            final(self).wf(),
            outcome_matches(
                json_step(s@, jstate(*old(p), old(self).model())),
                r,
                jstate(*final(p), final(self).model()),
            ),
            r != Outcome::Fail ==> parser_inv(s@, jstate(*final(p), final(self).model())),
    {
        proof {
            lemma_find_from(s@, 0x7b, p.cursor as int);
        }
        match find_byte_from(s, 0x7b, p.cursor) {
            None => {
                if only_separators_exec(s, p.cursor, s.len()) {
                    Outcome::Done
                } else {
                    Outcome::Fail
                }
            },
            Some(pos) => {
                if !only_separators_exec(s, p.cursor, pos) {
                    Outcome::Fail
                } else {
                    p.cursor = pos + 1;
                    p.field_count = 0;
                    p.state = FsmState::Key;
                    Outcome::Continue
                }
            },
        }
    }

    /// Parser step in state `Key`.
    fn json_key(&mut self, s: &[u8], p: &mut JsonCursor) -> (r: Outcome)
        requires
            old(self).wf(),
            old(p).state == FsmState::Key,
            old(p).cursor < s.len(),
            parser_inv(s@, jstate(*old(p), old(self).model())),
        ensures
            final(self).wf(),
            outcome_matches(
                json_step(s@, jstate(*old(p), old(self).model())),
                r,
                jstate(*final(p), final(self).model()),
            ),
            r != Outcome::Fail ==> parser_inv(s@, jstate(*final(p), final(self).model())),
    {
        proof {
            lemma_find2_from(s@, 0x22, 0x7d, p.cursor as int);
        }
        let pos = match find_byte2_from(s, 0x22, 0x7d, p.cursor) {
            Some(x) => x,
            None => {
                return Outcome::Fail;
            },
        };
        if !only_separators_exec(s, p.cursor, pos) {
            return Outcome::Fail;
        }
        if s[pos] == 0x7d {
            self.end_row(p.field_count);
            p.cursor = pos + 1;
            p.field_count = 0;
            p.state = FsmState::ObjectStart;
            Outcome::Continue
        } else {
            proof {
                lemma_find_from(s@, 0x22, pos + 1);
            }
            let q = match find_byte_from(s, 0x22, pos + 1) {
                Some(x) => x,
                None => {
                    return Outcome::Fail;
                },
            };
            let key = &s[pos + 1..q];
            if count_backslashes(s, pos + 1, q) % 2 == 1 {
                return Outcome::Fail;
            }
            let id = match self.intern_key(key) {
                Some(x) => x,
                None => {
                    return Outcome::Fail;
                },
            };
            self.push_key(id);
            p.cursor = q + 1;
            p.cur_key_id = id;
            p.state = FsmState::Colon;
            Outcome::Continue
        }
    }

    /// Parser step in state `Colon`.
    fn json_colon(&mut self, s: &[u8], p: &mut JsonCursor) -> (r: Outcome)
        requires
            old(self).wf(),
            old(p).state == FsmState::Colon,
            old(p).cursor < s.len(),
            parser_inv(s@, jstate(*old(p), old(self).model())),
        ensures
            final(self).wf(),
            outcome_matches(
                json_step(s@, jstate(*old(p), old(self).model())),
                r,
                jstate(*final(p), final(self).model()),
            ),
            r != Outcome::Fail ==> parser_inv(s@, jstate(*final(p), final(self).model())),
    {
        proof {
            lemma_find_from(s@, 0x3a, p.cursor as int);
        }
        let q = match find_byte_from(s, 0x3a, p.cursor) {
            Some(x) => x,
            None => {
                return Outcome::Fail;
            },
        };
        let c2 = skip_spaces_from(s, q + 1);
        if !all_spaces_exec(&s[p.cursor..q]) || c2 >= s.len() {
            return Outcome::Fail;
        }
        if s[c2] == 0x22 {
            p.cursor = c2 + 1;
            p.val_start = c2 + 1;
            p.state = FsmState::ValueString;
            Outcome::Continue
        } else if s[c2] == 0x7b || s[c2] == 0x5b {
            Outcome::Fail
        } else {
            p.cursor = c2;
            p.val_start = c2;
            p.state = FsmState::ValueNumber;
            Outcome::Continue
        }
    }

    /// Parser step in state `ValueString`.
    fn json_value_string(&mut self, s: &[u8], p: &mut JsonCursor) -> (r: Outcome)
        requires
            old(self).wf(),
            old(p).state == FsmState::ValueString,
            old(p).cursor < s.len(),
            parser_inv(s@, jstate(*old(p), old(self).model())),
        ensures
            final(self).wf(),
            outcome_matches(
                json_step(s@, jstate(*old(p), old(self).model())),
                r,
                jstate(*final(p), final(self).model()),
            ),
            r != Outcome::Fail ==> parser_inv(s@, jstate(*final(p), final(self).model())),
    {
        proof {
            lemma_closing_quote(s@, p.val_start as int, p.cursor as int);
        }
        let end = match find_closing_quote(s, p.val_start, p.cursor) {
            Some(x) => x,
            None => {
                return Outcome::Fail;
            },
        };
        if !self.emit_string_value(p.cur_key_id, &s[p.val_start..end]) {
            return Outcome::Fail;
        }
        if p.field_count == 0xffff {
            return Outcome::Fail;
        }
        let c2 = skip_spaces_from(s, end + 1);
        let c3 = if c2 < s.len() && s[c2] == 0x2c {
            c2 + 1
        } else {
            c2
        };
        p.cursor = c3;
        p.state = FsmState::Key;
        p.field_count = p.field_count + 1;
        Outcome::Continue
    }

    /// Parser step in state `ValueNumber`.
    fn json_value_number(&mut self, s: &[u8], p: &mut JsonCursor) -> (r: Outcome)
        requires
            old(self).wf(),
            old(p).state == FsmState::ValueNumber,
            old(p).cursor < s.len(),
            parser_inv(s@, jstate(*old(p), old(self).model())),
        ensures
            final(self).wf(),
            outcome_matches(
                json_step(s@, jstate(*old(p), old(self).model())),
                r,
                jstate(*final(p), final(self).model()),
            ),
            r != Outcome::Fail ==> parser_inv(s@, jstate(*final(p), final(self).model())),
    {
        proof {
            lemma_find2_from(s@, 0x2c, 0x7d, p.cursor as int);
        }
        let end = match find_byte2_from(s, 0x2c, 0x7d, p.cursor) {
            Some(x) => x,
            None => s.len(),
        };
        let te = trim_end(s, end, p.val_start);
        if !self.emit_number_value(&s[p.val_start..te]) {
            return Outcome::Fail;
        }
        if p.field_count == 0xffff {
            return Outcome::Fail;
        }
        let c3 = if end < s.len() && s[end] == 0x2c {
            end + 1
        } else {
            end
        };
        p.cursor = c3;
        p.state = FsmState::Key;
        p.field_count = p.field_count + 1;
        Outcome::Continue
    }

    /// Reads flat JSON objects into the engine; `false` where it gives up on
    /// the text (see [`json_parse`]).
    fn parse_json(&mut self, data: &[u8]) -> (r: bool)
        requires
            old(self).wf(),
        ensures
            final(self).wf(),
            r == (json_parse(old(self).model(), data@) is Some),
            r ==> final(self).model() == json_parse(old(self).model(), data@).unwrap(),
    {
        let ghost m0 = self.content@;
        let mut p = JsonCursor {
            cursor: 0,
            state: FsmState::ObjectStart,
            field_count: 0,
            val_start: 0,
            cur_key_id: 0,
        };
        let mut done = false;
        assert(jstate(p, m0) == json_start(m0));
        while !done && p.cursor < data.len()
            invariant
                m0 == old(self).model(),
                self.wf(),
                parser_inv(data@, jstate(p, self.content@)),
                !done ==> json_run(data@, jstate(p, self.content@)) == json_parse(m0, data@),
                done ==> json_finish(jstate(p, self.content@)) == json_parse(m0, data@),
            decreases (if done {
                0
            } else {
                json_measure(data@, jstate(p, self.content@)) + 1
            }),
        {
            let ghost st = jstate(p, self.content@);
            proof {
                lemma_json_step_decreases(data@, st);
            }
            let out = match p.state {
                FsmState::ObjectStart => self.json_object_start(data, &mut p),
                FsmState::Key => self.json_key(data, &mut p),
                FsmState::Colon => self.json_colon(data, &mut p),
                FsmState::ValueString => self.json_value_string(data, &mut p),
                FsmState::ValueNumber => self.json_value_number(data, &mut p),
            };
            match out {
                Outcome::Fail => {
                    assert(json_run(data@, st) is None);
                    return false;
                },
                Outcome::Done => {
                    done = true;
                },
                Outcome::Continue => {},
            }
        }
        p.state == FsmState::ObjectStart && self.keys_stream.len() != 0
    }

    /// The schema block: every key with its id, in id order.
    fn schema_raw(&self) -> (r: (Vec<u8>, bool))
        requires
            self.wf(),
        ensures
            r.0@ == schema_block(self.model().keys),
            r.1 == forall|i: int|
                0 <= i < self.model().keys.len() ==> (#[trigger] self.model().keys[i]).len() <= u32::MAX,
    {
        let ghost keys = self.content@.keys;
        let mut out: Vec<u8> = Vec::new();
        proof {
            keys.unique_seq_to_set();
        }
        push_u32(self.schema_dict.len() as u32, &mut out);
        let entries = self.schema_dict.entries();
        let n = self.next_key_id as usize;
        let mut ordered: Vec<Vec<u8>> = Vec::new();
        let mut i: usize = 0;
        while i < n
            invariant
                i <= n,
                ordered@.len() == i,
            decreases n - i,
        {
            ordered.push(Vec::new());
            i = i + 1;
        }
        assert forall|i: int| 0 <= i < entries@.len() implies (#[trigger] entries@[i]).1 < n
            && keys[entries@[i].1 as int] == entries@[i].0@ by {
            let k = entries@[i].0@;
            assert(keys.to_set().contains(k));
            let j = choose|j: int| 0 <= j < keys.len() && keys[j] == k;
            assert(key_ids_contents(self.schema_dict)[keys[j]] == j);
        }
        let mut e: usize = 0;
        while e < entries.len()
            invariant
                self.wf(),
                keys == self.content@.keys,
                n == keys.len(),
                ordered@.len() == n,
                e <= entries@.len(),
                forall|i: int| 0 <= i < entries@.len() ==> key_ids_contents(self.schema_dict).dom().contains(
                    #[trigger] entries@[i].0@,
                ) && key_ids_contents(self.schema_dict)[entries@[i].0@] == entries@[i].1,
                forall|i: int| 0 <= i < entries@.len() ==> (#[trigger] entries@[i]).1 < n
                    && keys[entries@[i].1 as int] == entries@[i].0@,
                forall|i: int|
                    0 <= i < e ==> (#[trigger] ordered@[entries@[i].1 as int])@ == keys[entries@[i].1 as int],
            decreases entries@.len() - e,
        {
            let id = entries[e].1;
            assert(entries@[e as int].1 < n);
            let kb = vstd::slice::slice_to_vec(entries[e].0.as_slice());
            ordered.set(id as usize, kb);
            assert forall|i: int| 0 <= i < e + 1 implies (#[trigger] ordered@[entries@[i].1 as int])@
                == keys[entries@[i].1 as int] by {
                assert(entries@[i].1 < n);
                if entries@[i].1 != id {
                } else {
                    assert(keys[id as int] == entries@[e as int].0@);
                }
            }
            e = e + 1;
        }
        proof {
            assert forall|j: int| 0 <= j < n implies (#[trigger] ordered@[j])@ == keys[j] by {
                assert(keys.to_set().contains(keys[j]));
                let i = choose|i: int| 0 <= i < entries@.len() && #[trigger] entries@[i].0@ == keys[j];
                assert(entries@[i].1 < n && keys[entries@[i].1 as int] == keys[j]);
                assert(entries@[i].1 == j);
            }
        }
        let mut k: usize = 0;
        let mut fits = true;
        while k < n
            invariant
                k <= n,
                n == keys.len(),
                n <= 0xffff,
                ordered@.len() == n,
                forall|j: int| 0 <= j < n ==> (#[trigger] ordered@[j])@ == keys[j],
                out@ == u32_le_bytes(keys.len() as u32) + schema_entries(keys, k as nat),
                fits == forall|j: int| 0 <= j < k ==> (#[trigger] keys[j]).len() <= u32::MAX,
            decreases n - k,
        {
            let kb = &ordered[k];
            assert(kb@ == keys[k as int]);
            if kb.len() > 0xffff_ffff {
                fits = false;
            }
            push_u32(kb.len() as u32, &mut out);
            append_bytes(&mut out, kb.as_slice());
            push_u16(k as u16, &mut out);
            proof {
                assert(schema_entries(keys, (k + 1) as nat) == schema_entries(keys, k as nat)
                    + schema_entry(keys, k as int));
            }
            assert(out@ =~= u32_le_bytes(keys.len() as u32) + schema_entries(keys, (k + 1) as nat));
            k = k + 1;
        }
        assert(k == n);
        (out, fits)
    }

    /// The dictionary block: the strings' bytes, then their lengths.
    fn dict_raw(&self) -> (r: Vec<u8>)
        requires
            self.wf(),
        ensures
            r@ == dict_block(self.model().vals),
    {
        let mut out: Vec<u8> = Vec::new();
        push_u32(self.dict_bytes.len() as u32, &mut out);
        append_bytes(&mut out, self.dict_bytes.as_slice());
        push_u32(self.dict_lengths.len() as u32, &mut out);
        push_u32s(self.dict_lengths.as_slice(), &mut out);
        assert(out@ =~= dict_block(self.content@.vals));
        out
    }

    proof fn lemma_field_step(m: Model, k: int)
        requires
            model_wf(m),
            0 <= k < m.fields.len(),
        ensures
            m.fields.take(k + 1) == m.fields.take(k).push(m.fields[k]),
            sids_of(m.fields.take(k + 1)) == sids_of(m.fields.take(k)) + sid_part(m.fields[k]),
            varints_of(m.fields.take(k + 1)) == varints_of(m.fields.take(k)) + varint_part(m.fields[k]),
            lit_lens_of(m.fields.take(k + 1)) == lit_lens_of(m.fields.take(k)) + lit_len_part(m.fields[k]),
            lits_of(m.fields.take(k + 1)) == lits_of(m.fields.take(k)) + lit_part(m.fields[k]),
            varints_of(m.fields) == varints_of(m.fields.take(k + 1)) + varints_of(m.fields.skip(k + 1)),
            lit_lens_of(m.fields).take(lit_lens_of(m.fields.take(k + 1)).len() as int)
                == lit_lens_of(m.fields.take(k + 1)),
            sids_of(m.fields.take(k + 1)).len() <= sids_of(m.fields).len(),
            lit_lens_of(m.fields.take(k + 1)).len() <= lit_lens_of(m.fields).len(),
            varints_of(m.fields.take(k + 1)).len() <= varints_of(m.fields).len(),
            lits_of(m.fields.take(k + 1)).len() <= lits_of(m.fields).len(),
            sum_u16(lit_lens_of(m.fields.take(k + 1))) <= lits_of(m.fields.take(k + 1)).len(),
            sum_u16(lit_lens_of(m.fields.take(k + 1))) == sum_u16(lit_lens_of(m.fields.take(k)))
                + sum_u16(lit_len_part(m.fields[k])),
    {
        let s = m.fields;
        assert(s.take(k + 1) =~= s.take(k).push(s[k]));
        lemma_concat_map_push(s.take(k), s[k], |f: Value| sid_part(f));
        lemma_concat_map_push(s.take(k), s[k], |f: Value| varint_part(f));
        lemma_concat_map_push(s.take(k), s[k], |f: Value| lit_len_part(f));
        lemma_concat_map_push(s.take(k), s[k], |f: Value| lit_part(f));
        lemma_concat_map_range(s, k + 1, k + 1, |f: Value| varint_part(f));
        lemma_concat_map_range(s, k + 1, k + 1, |f: Value| lit_len_part(f));
        lemma_concat_map_range(s, k + 1, k + 1, |f: Value| sid_part(f));
        lemma_concat_map_range(s, k + 1, k + 1, |f: Value| lit_part(f));
        lemma_lit_lens_bound(s.take(k + 1));
        crate::model::lemma_sum_u16_append(lit_lens_of(s.take(k)), lit_len_part(s[k]));
    }

    /// Number of fields in the first `b` rows, from that of the first `a`.
    fn rows_fields_end(&self, a: usize, b: usize, fa: usize) -> (fb: usize)
        requires
            self.wf(),
            a <= b <= self.model().rows.len(),
            fa == row_fields(self.model(), a as nat),
        ensures
            fb == row_fields(self.model(), b as nat),
            fa <= fb <= self.model().fields.len(),
    {
        let ghost m = self.content@;
        let nfields = self.types_stream.len();
        assert(nfields == m.fields.len());
        let mut fb = fa;
        let mut r = a;
        proof {
            lemma_sum_u16_range(m.rows, b as int, m.rows.len() as int);
            assert(m.rows.take(m.rows.len() as int) =~= m.rows);
        }
        while r < b
            invariant
                a <= r <= b <= m.rows.len(),
                m == self.content@,
                self.wf(),
                fb == row_fields(m, r as nat),
                row_fields(m, b as nat) <= m.fields.len(),
                m.fields.len() == nfields,
                fa <= fb,
            decreases b - r,
        {
            proof {
                lemma_sum_u16_range(m.rows, r as int, (r + 1) as int);
                lemma_sum_u16_range(m.rows, (r + 1) as int, b as int);
                assert(m.rows.subrange(r as int, r + 1) =~= Seq::<u16>::empty().push(m.rows[r as int]));
                lemma_sum_u16_push(Seq::<u16>::empty(), m.rows[r as int]);
                assert(sum_u16(Seq::<u16>::empty()) == 0);
                assert(sum_u16(m.rows.subrange(r as int, r + 1)) == m.rows[r as int]);
                assert(row_fields(m, (r + 1) as nat) == fb + m.rows[r as int]);
                assert(row_fields(m, (r + 1) as nat) <= row_fields(m, b as nat));
                assert(self.fields_per_row@[r as int] == m.rows[r as int]);
            }
            fb = fb + self.fields_per_row[r] as usize;
            r = r + 1;
        }
        fb
    }

    /// The cursors into the string ids, varints, literal lengths and literal
    /// bytes after field `k`, from those before it.
    fn field_cursors_step(&self, k: usize, c: (usize, usize, usize, usize)) -> (r: (
        usize,
        usize,
        usize,
        usize,
    ))
        requires
            self.wf(),
            k < self.model().fields.len(),
            c.0 == sids_of(self.model().fields.take(k as int)).len(),
            c.1 == varints_of(self.model().fields.take(k as int)).len(),
            c.2 == lit_lens_of(self.model().fields.take(k as int)).len(),
            c.3 == lit_span(self.model(), k as nat),
        ensures
            r.0 == sids_of(self.model().fields.take(k + 1)).len(),
            r.1 == varints_of(self.model().fields.take(k + 1)).len(),
            r.2 == lit_lens_of(self.model().fields.take(k + 1)).len(),
            r.3 == lit_span(self.model(), (k + 1) as nat),
    {
        let ghost m = self.content@;
        proof {
            Self::lemma_field_step(m, k as int);
        }
        let (mut sid, mut vc, mut llc, mut lc) = c;
        let nsids = self.string_ids_stream.len();
        let nlits = self.literal_stream.len();
        let nlens = self.literal_lengths.len();
        let t = self.types_stream[k];
        assert(t == crate::model::value_type(m.fields[k as int]));
        if t == TYPE_STRING {
            proof {
                match m.fields[k as int] {
                    Value::Str(id) => {
                        assert(sid_part(m.fields[k as int]) =~= seq![id]);
                        assert(sids_of(m.fields.take(k + 1)).len() == sid + 1);
                        assert(sid + 1 <= self.string_ids_stream@.len());
                    },
                    _ => {},
                }
            }
            sid = sid + 1;
        } else if t == TYPE_VARINT {
            proof {
                match m.fields[k as int] {
                    Value::Int(n) => {
                        lemma_varint_len_of_bytes(
                            zigzag(n),
                            varints_of(m.fields.take(k as int)),
                            varints_of(m.fields.skip(k + 1)),
                        );
                    },
                    _ => {},
                }
            }
            skip_varint(&self.varint_stream, &mut vc);
        } else if t == TYPE_LITERAL || t == TYPE_STRING_LIT {
            proof {
                let lens = lit_lens_of(m.fields.take(k + 1));
                assert(lens.len() == llc + 1);
                assert(lit_lens_of(m.fields).take(lens.len() as int)[llc as int] == lens[llc as int]);
                match m.fields[k as int] {
                    Value::Lit(bs) => {
                        lemma_sum_u16_push(Seq::<u16>::empty(), bs.len() as u16);
                        assert(seq![bs.len() as u16] =~= Seq::<u16>::empty().push(bs.len() as u16));
                    },
                    Value::StrLit(bs) => {
                        lemma_sum_u16_push(Seq::<u16>::empty(), bs.len() as u16);
                        assert(seq![bs.len() as u16] =~= Seq::<u16>::empty().push(bs.len() as u16));
                    },
                    _ => {},
                }
            }
            lc = lc + self.literal_lengths[llc] as usize;
            llc = llc + 1;
        }
        proof {
            match m.fields[k as int] {
                Value::Int(_) => {
                    assert(sum_u16(Seq::<u16>::empty()) == 0);
                },
                Value::Str(_) => {
                    assert(sum_u16(Seq::<u16>::empty()) == 0);
                },
                _ => {},
            }
        }
        (sid, vc, llc, lc)
    }

    /// The cursors after the fields `fa..fb`, from those before them.
    fn fields_cursors(&self, fa: usize, fb: usize, c: (usize, usize, usize, usize)) -> (r: (
        usize,
        usize,
        usize,
        usize,
    ))
        requires
            self.wf(),
            fa <= fb <= self.model().fields.len(),
            c.0 == sids_of(self.model().fields.take(fa as int)).len(),
            c.1 == varints_of(self.model().fields.take(fa as int)).len(),
            c.2 == lit_lens_of(self.model().fields.take(fa as int)).len(),
            c.3 == lit_span(self.model(), fa as nat),
        ensures
            r.0 == sids_of(self.model().fields.take(fb as int)).len(),
            r.1 == varints_of(self.model().fields.take(fb as int)).len(),
            r.2 == lit_lens_of(self.model().fields.take(fb as int)).len(),
            r.3 == lit_span(self.model(), fb as nat),
    {
        let mut k = fa;
        let mut c = c;
        while k < fb
            invariant
                self.wf(),
                fa <= k <= fb <= self.model().fields.len(),
                c.0 == sids_of(self.model().fields.take(k as int)).len(),
                c.1 == varints_of(self.model().fields.take(k as int)).len(),
                c.2 == lit_lens_of(self.model().fields.take(k as int)).len(),
                c.3 == lit_span(self.model(), k as nat),
            decreases fb - k,
        {
            c = self.field_cursors_step(k, c);
            k = k + 1;
        }
        c
    }

    /// The scan block of rows `a..b`, whose fields are `fa..fb` and whose
    /// string ids are `sid..sid2`.
    fn scan_raw(&self, a: usize, b: usize, fa: usize, fb: usize, sid: usize, sid2: usize) -> (r: Vec<u8>)
        requires
            self.wf(),
            a <= b <= self.model().rows.len(),
            fa == row_fields(self.model(), a as nat),
            fb == row_fields(self.model(), b as nat),
            fa <= fb <= self.model().fields.len(),
            sid == sids_of(self.model().fields.take(fa as int)).len(),
            sid2 == sids_of(self.model().fields.take(fb as int)).len(),
        ensures
            r@ == scan_rows_block(self.model(), a as nat, b as nat),
    {
        let ghost m = self.content@;
        proof {
            lemma_sum_u16_range(m.rows, b as int, m.rows.len() as int);
            assert(m.rows.take(m.rows.len() as int) =~= m.rows);
            lemma_concat_map_range(m.fields, fa as int, fb as int, |f: Value| sid_part(f));
            assert(self.types_stream@.subrange(fa as int, fb as int) =~= types_of(
                m.fields.subrange(fa as int, fb as int),
            ));
        }
        let mut scan: Vec<u8> = Vec::new();
        push_u32((fb - fa) as u32, &mut scan);
        push_u32((sid2 - sid) as u32, &mut scan);
        push_u16s(&self.keys_stream[fa..fb], &mut scan);
        append_bytes(&mut scan, &self.types_stream[fa..fb]);
        push_u32s(&self.string_ids_stream[sid..sid2], &mut scan);
        push_u16s(&self.fields_per_row[a..b], &mut scan);
        assert(scan@ =~= scan_rows_block(m, a as nat, b as nat));
        scan
    }

    /// The data block of the fields `fa..fb`, whose varints are `vc..vc2`,
    /// literal lengths `llc..llc2` and literal bytes `lc..lc2`.
    fn data_raw(
        &self,
        a: usize,
        b: usize,
        fa: usize,
        fb: usize,
        c: (usize, usize, usize, usize),
        c2: (usize, usize, usize, usize),
    ) -> (r: Vec<u8>)
        requires
            self.wf(),
            a <= b <= self.model().rows.len(),
            fa == row_fields(self.model(), a as nat),
            fb == row_fields(self.model(), b as nat),
            fa <= fb <= self.model().fields.len(),
            c.1 == varints_of(self.model().fields.take(fa as int)).len(),
            c.2 == lit_lens_of(self.model().fields.take(fa as int)).len(),
            c.3 == lit_span(self.model(), fa as nat),
            c2.1 == varints_of(self.model().fields.take(fb as int)).len(),
            c2.2 == lit_lens_of(self.model().fields.take(fb as int)).len(),
            c2.3 == lit_span(self.model(), fb as nat),
        ensures
            r@ == data_rows_block(self.model(), a as nat, b as nat),
    {
        let ghost m = self.content@;
        proof {
            lemma_concat_map_range(m.fields, fa as int, fb as int, |f: Value| varint_part(f));
            lemma_concat_map_range(m.fields, fa as int, fb as int, |f: Value| lit_len_part(f));
            lemma_concat_map_range(m.fields, fa as int, fb as int, |f: Value| lit_part(f));
            lemma_concat_map_range(m.fields, fb as int, fb as int, |f: Value| lit_part(f));
            lemma_concat_map_range(m.fields, fa as int, fa as int, |f: Value| lit_part(f));
            lemma_lit_lens_bound(m.fields.take(fa as int));
            lemma_lit_lens_bound(m.fields.take(fb as int));
            lemma_sum_u16_range(lit_lens_of(m.fields.take(fb as int)), c.2 as int, c2.2 as int);
            assert(lit_lens_of(m.fields.take(fb as int)).take(c.2 as int) =~= lit_lens_of(
                m.fields.take(fa as int),
            ));
        }
        let (_, vc, llc, lc) = c;
        let (_, vc2, llc2, lc2) = c2;
        let mut data: Vec<u8> = Vec::new();
        push_u32((vc2 - vc) as u32, &mut data);
        append_bytes(&mut data, &self.varint_stream[vc..vc2]);
        push_u32((llc2 - llc) as u32, &mut data);
        push_u16s(&self.literal_lengths[llc..llc2], &mut data);
        push_u32((lc2 - lc) as u32, &mut data);
        append_bytes(&mut data, &self.literal_stream[lc..lc2]);
        assert(data@ =~= data_rows_block(m, a as nat, b as nat));
        data
    }

    /// Whether the blocks of frame `f`, the rows `row..end` whose fields start
    /// at `fa` with cursors `c`, fit their fields; with the fields' end and
    /// the cursors after them.
    fn frame_fits_exec(
        &self,
        f: usize,
        row: usize,
        end: usize,
        fa: usize,
        c: (usize, usize, usize, usize),
    ) -> (r: (bool, usize, (usize, usize, usize, usize)))
        requires
            self.wf(),
            row == frame_start(f as nat),
            end == frame_end(self.model(), f as nat),
            row <= end,
            fa == row_fields(self.model(), row as nat),
            fa <= self.model().fields.len(),
            c.0 == sids_of(self.model().fields.take(fa as int)).len(),
            c.1 == varints_of(self.model().fields.take(fa as int)).len(),
            c.2 == lit_lens_of(self.model().fields.take(fa as int)).len(),
            c.3 == lit_span(self.model(), fa as nat),
        ensures
            ({
                let m = self.model();
                let (ok, fb, c2) = r;
                &&& ok == frame_fits(m, f as nat)
                &&& fb == row_fields(m, end as nat)
                &&& fb <= m.fields.len()
                &&& c2.0 == sids_of(m.fields.take(fb as int)).len()
                &&& c2.1 == varints_of(m.fields.take(fb as int)).len()
                &&& c2.2 == lit_lens_of(m.fields.take(fb as int)).len()
                &&& c2.3 == lit_span(m, fb as nat)
            }),
    {
        let ghost m = self.content@;
        let fb = self.rows_fields_end(row, end, fa);
        let c2 = self.fields_cursors(fa, fb, c);
        proof {
            let fs = m.fields;
            lemma_concat_map_range(fs, fa as int, fb as int, |x: Value| varint_part(x));
            lemma_concat_map_range(fs, fa as int, fb as int, |x: Value| lit_part(x));
            assert forall|k: int| 0 <= k < fs.take(fa as int).len() implies literal_fits(
                #[trigger] fs.take(fa as int)[k],
            ) by {
                assert(fs.take(fa as int)[k] == fs[k]);
            }
            assert forall|k: int| 0 <= k < fs.take(fb as int).len() implies literal_fits(
                #[trigger] fs.take(fb as int)[k],
            ) by {
                assert(fs.take(fb as int)[k] == fs[k]);
            }
            crate::roundtrip::lemma_lit_span_exact(fs.take(fa as int));
            crate::roundtrip::lemma_lit_span_exact(fs.take(fb as int));
        }
        let ok = !(fb - fa > 0xffff_ffff || c2.1 - c.1 > 0xffff_ffff || c2.3 - c.3 > 0xffff_ffff || (fb - fa)
            as u128 * 7 + 8 > usize::MAX as u128);
        (ok, fb, c2)
    }

    /// Whether the blocks of every frame fit their fields (see [`frame_fits`]).
    fn frames_fit(&self) -> (r: bool)
        requires
            self.wf(),
        ensures
            r == forall|g: nat| g < frame_count(self.model().rows.len()) ==> #[trigger] frame_fits(self.model(), g),
    {
        let ghost m = self.content@;
        let n = self.fields_per_row.len();
        let mut row: usize = 0;
        let mut f: usize = 0;
        let mut fa: usize = 0;
        let mut c: (usize, usize, usize, usize) = (0, 0, 0, 0);
        proof {
            assert(m.rows.take(0) =~= Seq::<u16>::empty());
            assert(m.fields.take(0) =~= Seq::<Value>::empty());
            assert(lit_lens_of(m.fields.take(0)) =~= Seq::<u16>::empty());
        }
        while row < n
            invariant
                self.wf(),
                m == self.model(),
                n == m.rows.len(),
                row <= n,
                row == (if 65536 * f <= n {
                    65536 * f
                } else {
                    n as int
                }),
                f > 0 ==> 65536 * (f - 1) < n,
                fa == row_fields(m, row as nat),
                fa <= m.fields.len(),
                c.0 == sids_of(m.fields.take(fa as int)).len(),
                c.1 == varints_of(m.fields.take(fa as int)).len(),
                c.2 == lit_lens_of(m.fields.take(fa as int)).len(),
                c.3 == lit_span(m, fa as nat),
                forall|g: nat| g < f ==> #[trigger] frame_fits(m, g),
            decreases n - row,
        {
            let end = if n - row > 65536 {
                row + 65536
            } else {
                n
            };
            let (ok, fb, c2) = self.frame_fits_exec(f, row, end, fa, c);
            if !ok {
                proof {
                    crate::archive::lemma_frame_below(n as nat, f as nat);
                }
                return false;
            }
            row = end;
            f = f + 1;
            fa = fb;
            c = c2;
        }
        proof {
            lemma_frame_count(n as nat, f as nat);
        }
        true
    }

    /// Writes frame `f`, the rows `row..end`, whose fields start at `fa` and
    /// whose cursors are `c`; gives the fields' end, the cursors after them,
    /// and the compressed data block.
    fn write_frame(
        &self,
        out: &mut Vec<u8>,
        f: usize,
        row: usize,
        end: usize,
        fa: usize,
        c: (usize, usize, usize, usize),
        threads: u32,
    ) -> (r: Result<(usize, (usize, usize, usize, usize), Ghost<Seq<u8>>), LumpiError>)
        requires
            self.wf(),
            row == frame_start(f as nat),
            end == frame_end(self.model(), f as nat),
            row <= end,
            fa == row_fields(self.model(), row as nat),
            fa <= self.model().fields.len(),
            c.0 == sids_of(self.model().fields.take(fa as int)).len(),
            c.1 == varints_of(self.model().fields.take(fa as int)).len(),
            c.2 == lit_lens_of(self.model().fields.take(fa as int)).len(),
            c.3 == lit_span(self.model(), fa as nat),
            frame_fits(self.model(), f as nat),
        ensures
            r matches Ok((fb, c2, z)) ==> {
                let m = self.model();
                &&& fb == row_fields(m, end as nat)
                &&& fb <= m.fields.len()
                &&& c2.0 == sids_of(m.fields.take(fb as int)).len()
                &&& c2.1 == varints_of(m.fields.take(fb as int)).len()
                &&& c2.2 == lit_lens_of(m.fields.take(fb as int)).len()
                &&& c2.3 == lit_span(m, fb as nat)
                &&& final(out)@ == old(out)@ + frame_bytes(m, f as nat, z@)
                &&& zstd_decoded(z@) == Some(data_block(m, f as nat))
                &&& zstd_decoded(zstd_frame(scan_block(m, f as nat), BLOCK_LEVEL)) == Some(
                    scan_block(m, f as nat),
                )
                &&& z@.len() <= u32::MAX
                &&& zstd_frame(scan_block(m, f as nat), BLOCK_LEVEL).len() <= u32::MAX
            },
            r matches Err(e) ==> e is Zstd || e is BlockTooLarge,
    {
        let ghost m = self.content@;
        proof {
            reveal(frame_bytes);
            reveal(crate::archive::scan_block);
            reveal(crate::archive::data_block);
        }
        let fb = self.rows_fields_end(row, end, fa);
        let c2 = self.fields_cursors(fa, fb, c);
        let scan = self.scan_raw(row, end, fa, fb, c.0, c2.0);
        let data = self.data_raw(row, end, fa, fb, c, c2);
        let scan_z = match zstd_encode_all(scan.as_slice(), BLOCK_LEVEL) {
            Ok(z) => z,
            Err(e) => {
                return Err(LumpiError::Zstd(e));
            },
        };
        let data_z = match compress_block(data.as_slice(), BLOCK_LEVEL, threads) {
            Ok(z) => z,
            Err(e) => {
                return Err(LumpiError::Zstd(e));
            },
        };
        if scan_z.len() > 0xffff_ffff || data_z.len() > 0xffff_ffff {
            return Err(LumpiError::BlockTooLarge);
        }
        push_u32((end - row) as u32, out);
        push_u32(scan_z.len() as u32, out);
        append_bytes(out, scan_z.as_slice());
        push_u32(data_z.len() as u32, out);
        append_bytes(out, data_z.as_slice());
        assert(final(out)@ =~= old(out)@ + frame_bytes(m, f as nat, data_z@));
        Ok((fb, c2, Ghost(data_z@)))
    }

    /// Writes the schema, dictionary and frames of the engine's model after
    /// the header in `out`.
    fn write_structured(&self, out: &mut Vec<u8>, threads: u32) -> (r: Result<(), LumpiError>)
        requires
            self.wf(),
            old(out)@ == archive_header(),
        ensures
            r is Ok ==> is_structured_archive(final(out)@, self.model()),
            r matches Err(e) ==> (e is TooLarge <==> !model_fits(self.model())) && (e is Zstd || e is TooLarge
                || e is BlockTooLarge),
            !model_fits(self.model()) ==> r matches Err(LumpiError::TooLarge),
    {
        let ghost m = self.content@;
        let (schema, keys_fit) = self.schema_raw();
        let n = self.fields_per_row.len();
        let fc: usize = if n == 0 {
            0
        } else {
            (n - 1) / 65536 + 1
        };
        proof {
            if n > 0 {
                lemma_frame_count(n as nat, fc as nat);
            } else {
                lemma_frame_count(0, 0);
            }
        }
        if !keys_fit || self.dict_bytes.len() > 0xffff_ffff || fc > 0xffff_ffff || !self.frames_fit() {
            return Err(LumpiError::TooLarge);
        }
        assert(model_fits(m));
        let schema_z = match zstd_encode_all(schema.as_slice(), BLOCK_LEVEL) {
            Ok(z) => z,
            Err(e) => {
                return Err(LumpiError::Zstd(e));
            },
        };
        let dict = self.dict_raw();
        let dict_z = match zstd_encode_all(dict.as_slice(), BLOCK_LEVEL) {
            Ok(z) => z,
            Err(e) => {
                return Err(LumpiError::Zstd(e));
            },
        };
        if schema_z.len() >= 0xffff_ffff || dict_z.len() > 0xffff_ffff {
            return Err(LumpiError::BlockTooLarge);
        }
        push_u32(schema_z.len() as u32, out);
        append_bytes(out, schema_z.as_slice());
        push_u32(dict_z.len() as u32, out);
        append_bytes(out, dict_z.as_slice());
        push_u32(fc as u32, out);
        let ghost prefix = out@;
        let ghost mut zs: Seq<Seq<u8>> = Seq::empty();
        let mut row: usize = 0;
        let mut f: usize = 0;
        let mut fa: usize = 0;
        let mut c: (usize, usize, usize, usize) = (0, 0, 0, 0);
        proof {
            assert(m.rows.take(0) =~= Seq::<u16>::empty());
            assert(m.fields.take(0) =~= Seq::<Value>::empty());
            assert(lit_lens_of(m.fields.take(0)) =~= Seq::<u16>::empty());
        }
        while row < n
            invariant
                self.wf(),
                m == self.model(),
                n == m.rows.len(),
                fc == frame_count(n as nat),
                f == zs.len(),
                row <= n,
                row == (if 65536 * f <= n {
                    65536 * f
                } else {
                    n as int
                }),
                f > 0 ==> 65536 * (f - 1) < n,
                fa == row_fields(m, row as nat),
                fa <= m.fields.len(),
                c.0 == sids_of(m.fields.take(fa as int)).len(),
                c.1 == varints_of(m.fields.take(fa as int)).len(),
                c.2 == lit_lens_of(m.fields.take(fa as int)).len(),
                c.3 == lit_span(m, fa as nat),
                forall|g: int|
                    0 <= g < zs.len() ==> zstd_decoded(#[trigger] zs[g]) == Some(data_block(m, g as nat))
                        && zstd_decoded(zstd_frame(scan_block(m, g as nat), BLOCK_LEVEL)) == Some(
                        scan_block(m, g as nat),
                    ) && zs[g].len() <= u32::MAX && zstd_frame(scan_block(m, g as nat), BLOCK_LEVEL).len()
                        <= u32::MAX,
                model_fits(m),
                out@ == prefix + frames_concat(m, zs),
            decreases n - row,
        {
            let end = if n - row > 65536 {
                row + 65536
            } else {
                n
            };
            let ghost before = out@;
            proof {
                crate::archive::lemma_frame_below(n as nat, f as nat);
                assert(frame_fits(m, f as nat));
            }
            let (fb, c2, z) = match self.write_frame(out, f, row, end, fa, c, threads) {
                Ok(t) => t,
                Err(e) => {
                    return Err(e);
                },
            };
            proof {
                assert(zs.push(z@).drop_last() =~= zs);
                assert(frames_concat(m, zs.push(z@)) == frames_concat(m, zs) + frame_bytes(
                    m,
                    f as nat,
                    z@,
                ));
                zs = zs.push(z@);
            }
            row = end;
            f = f + 1;
            fa = fb;
            c = c2;
        }
        proof {
            lemma_frame_count(n as nat, f as nat);
            reveal(structured_layout);
            assert(out@ =~= structured_layout(m, zs));
        }
        Ok(())
    }

    /// Packs `raw_data` into an archive: columnar when the engine can parse
    /// it as flat JSON objects (lines or one array) or CSV, else one raw zstd
    /// frame after the text's SHA-256, which is returned too (empty for a
    /// columnar archive). `threads` is the number of zstd worker threads. The
    /// engine keeps what it parsed, and is emptied when it parsed nothing. The
    /// hash is empty exactly when the engine holds a key. A columnar archive
    /// with a part too large for the field that stores its length or count is
    /// refused with `TooLarge` (checked before any block is compressed, and
    /// exactly when [`model_fits`] fails), one with a compressed block too
    /// long for its 32-bit length with `BlockTooLarge`; for a data block,
    /// compressed by zstd's multithreaded encoder, that length is zstd's and
    /// is not stated here.
    pub fn compress_buffer(&mut self, raw_data: &[u8], threads: u32) -> (r: Result<
        (Vec<u8>, String),
        LumpiError,
    >)
        requires
            old(self).wf(),
        ensures
            final(self).wf(),
            model_wf(final(self).model()),
            final(self).model() == compressed_model(old(self).model(), raw_data@),
            model_complete(old(self).model()) ==> model_complete(final(self).model()),
            match r {
                Ok((out, hash)) => if parse_input(old(self).model(), raw_data@) is Some {
                    is_structured_archive(out@, final(self).model()) && hash@.len() == 0
                } else {
                    is_raw_archive(out@, raw_data@) && hash@ == raw_hash(raw_data@).map_values(
                        |b: u8| b as char,
                    )
                },
                Err(e) => if parse_input(old(self).model(), raw_data@) is Some {
                    &&& (e is TooLarge <==> !model_fits(final(self).model()))
                    &&& (e is Zstd || e is TooLarge || e is BlockTooLarge)
                } else {
                    e is Zstd
                },
            },
            parse_input(old(self).model(), raw_data@) is Some && !model_fits(final(self).model()) ==> r matches Err(
                LumpiError::TooLarge,
            ),
            r matches Ok((_, hash)) ==> (hash@.len() == 0 <==> final(self).model().kstream.len() > 0),
    {
        proof {
            if model_complete(self.model()) {
                crate::laws::lemma_parse_complete(self.model(), raw_data@);
            }
            crate::laws::lemma_parse_keyed(self.model(), raw_data@);
        }
        let format = Self::detect_format(raw_data);
        let parse_data = if format == InputFormat::JsonArray {
            Self::strip_json_array(raw_data)
        } else {
            raw_data
        };
        let parsed = if format == InputFormat::Csv {
            self.parse_csv(parse_data)
        } else {
            self.parse_json(parse_data)
        };
        if !parsed {
            self.clear();
        }
        let mut out: Vec<u8> = Vec::new();
        out.push(0x4c);
        out.push(0x55);
        out.push(0x4d);
        out.push(0x50);
        out.push(VERSION_MAJOR);
        out.push(VERSION_MINOR);
        assert(out@ =~= archive_header());
        if !parsed {
            let hash = sha256_hex(raw_data);
            let raw_z = match compress_block(raw_data, BLOCK_LEVEL, threads) {
                Ok(z) => z,
                Err(e) => {
                    return Err(LumpiError::Zstd(e));
                },
            };
            push_u32(RAW_MARK, &mut out);
            proof {
                lemma_hex_lower(crate::trusted::sha256_of(raw_data@));
            }
            let hb = crate::archive::ascii_bytes(&hash, Ghost(raw_hash(raw_data@)));
            append_bytes(&mut out, hb.as_slice());
            let ghost before_z = out@;
            append_bytes(&mut out, raw_z.as_slice());
            proof {
                assert(out@.subrange(0, 6) =~= archive_header());
                assert(out@.subrange(6, 10) =~= u32_le_bytes(RAW_MARK));
                assert(out@.subrange(10, 74) =~= raw_hash(raw_data@));
                assert(out@.subrange(74, out@.len() as int) =~= raw_z@);
            }
            return Ok((out, hash));
        }
        match self.write_structured(&mut out, threads) {
            Ok(()) => Ok((out, String::new())),
            Err(e) => Err(e),
        }
    }
}

} // verus!
