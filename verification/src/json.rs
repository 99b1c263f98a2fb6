//! What the engine makes of flat JSON objects, one after another (JSON lines,
//! or the elements of one top-level array): a state machine that jumps from
//! one structural byte to the next, and gives up on the text (which is then
//! stored raw) where it meets anything it would not keep.
use vstd::prelude::*;
use crate::model::{
    emit_number_step, emit_string_step, end_row_step, intern_key_step, lemma_emit_shapes, lemma_literals_fit_push,
    lemma_sum_u16_push, literals_fit, model_complete, push_key_step, sum_u16, Model,
};
use crate::text::{all_spaces, find2_from, find_from, is_space, lemma_find2_from, lemma_find_from, lemma_skip_spaces_bounds, skip_spaces, trim_end_from};

verus! {

/// Where the parser stands.
#[derive(PartialEq, Eq, Structural, Clone, Copy)]
pub enum FsmState {
    /// Between objects: only whitespace and commas may come before the next
    /// object or the end of the text.
    ObjectStart,
    /// Inside an object, before a key or the closing brace; only whitespace
    /// and commas may come first. A key whose first quote after it is escaped
    /// (a key holding `\"`) is refused.
    Key,
    /// After a key, before its colon (only whitespace may come first) and
    /// value.
    Colon,
    /// Inside a string value.
    ValueString,
    /// Inside a bare (number-like) value.
    ValueNumber,
}

/// The parser's whole state.
pub struct JsonState {
    pub cursor: int,
    pub state: FsmState,
    pub field_count: int,
    pub val_start: int,
    pub cur_key: u16,
    pub m: Model,
}

/// What one step of the parser leads to.
pub enum JsonStep {
    /// Go on from this state.
    Continue(JsonState),
    /// Stop scanning, with this state.
    Done(JsonState),
    /// The text is not flat JSON (or a table is full): give up.
    Fail,
}

/// Whether every byte of `s[a..b]` is whitespace or a comma.
pub open spec fn only_separators(s: Seq<u8>, a: int, b: int) -> bool {
    forall|i: int| a <= i < b ==> is_space(#[trigger] s[i]) || s[i] == 0x2c
}

/// Number of backslashes that stand right before `p`, not counting any before `lo`.
pub open spec fn backslashes_before(s: Seq<u8>, lo: int, p: int) -> nat
    decreases p - lo,
{
    if p > lo && p - 1 < s.len() && s[p - 1] == 0x5c {
        1 + backslashes_before(s, lo, p - 1)
    } else {
        0
    }
}

/// The quote that closes a string value begun at `lo`: the first quote at or
/// after `c` that an even number of backslashes stands before.
pub open spec fn closing_quote(s: Seq<u8>, lo: int, c: int) -> Option<int>
    decreases s.len() - c,
{
    if c < 0 || c >= s.len() {
        None
    } else {
        match find_from(s, 0x22, c) {
            None => None,
            Some(p) => {
                proof {
                    lemma_find_from(s, 0x22, c);
                }
                if backslashes_before(s, lo, p) % 2 == 1 {
                    closing_quote(s, lo, p + 1)
                } else {
                    Some(p)
                }
            },
        }
    }
}

/// After a value: past whitespace and one comma, in state `Key`.
pub open spec fn after_value(s: Seq<u8>, st: JsonState, c: int, m: Model) -> JsonStep {
    let c2 = skip_spaces(s, c);
    let c3 = if c2 < s.len() && s[c2] == 0x2c {
        c2 + 1
    } else {
        c2
    };
    if st.field_count + 1 > 0xffff {
        JsonStep::Fail
    } else {
        JsonStep::Continue(
            JsonState {
                cursor: c3,
                state: FsmState::Key,
                field_count: st.field_count + 1,
                m: m,
                ..st
            },
        )
    }
}

/// One step of the parser from `st` (where `st.cursor < s.len()`).
pub open spec fn json_step(s: Seq<u8>, st: JsonState) -> JsonStep {
    let c = st.cursor;
    match st.state {
        FsmState::ObjectStart => match find_from(s, 0x7b, c) {
            None => if only_separators(s, c, s.len() as int) {
                JsonStep::Done(st)
            } else {
                JsonStep::Fail
            },
            Some(p) => if !only_separators(s, c, p) {
                JsonStep::Fail
            } else {
                JsonStep::Continue(
                    JsonState { cursor: p + 1, field_count: 0, state: FsmState::Key, ..st },
                )
            },
        },
        FsmState::Key => match find2_from(s, 0x22, 0x7d, c) {
            None => JsonStep::Fail,
            Some(p) => if !only_separators(s, c, p) {
                JsonStep::Fail
            } else if s[p] == 0x7d {
                JsonStep::Continue(
                    JsonState {
                        cursor: p + 1,
                        field_count: 0,
                        state: FsmState::ObjectStart,
                        m: end_row_step(st.m, st.field_count as u16),
                        ..st
                    },
                )
            } else {
                match find_from(s, 0x22, p + 1) {
                    None => JsonStep::Fail,
                    Some(q) => if backslashes_before(s, p + 1, q) % 2 == 1 {
                        JsonStep::Fail
                    } else {
                        match intern_key_step(st.m, s.subrange(p + 1, q)) {
                            None => JsonStep::Fail,
                            Some((m1, id)) => JsonStep::Continue(
                                JsonState {
                                    cursor: q + 1,
                                    cur_key: id,
                                    m: push_key_step(m1, id),
                                    state: FsmState::Colon,
                                    ..st
                                },
                            ),
                        }
                    },
                }
            },
        },
        FsmState::Colon => match find_from(s, 0x3a, c) {
            None => JsonStep::Fail,
            Some(q) => {
                let c2 = skip_spaces(s, q + 1);
                if !all_spaces(s.subrange(c, q)) || c2 >= s.len() {
                    JsonStep::Fail
                } else if s[c2] == 0x22 {
                    JsonStep::Continue(
                        JsonState {
                            cursor: c2 + 1,
                            val_start: c2 + 1,
                            state: FsmState::ValueString,
                            ..st
                        },
                    )
                } else if s[c2] == 0x7b || s[c2] == 0x5b {
                    JsonStep::Fail
                } else {
                    JsonStep::Continue(
                        JsonState { cursor: c2, val_start: c2, state: FsmState::ValueNumber, ..st },
                    )
                }
            },
        },
        FsmState::ValueString => match closing_quote(s, st.val_start, c) {
            None => JsonStep::Fail,
            Some(p) => match emit_string_step(st.m, st.cur_key, s.subrange(st.val_start, p)) {
                None => JsonStep::Fail,
                Some(m) => after_value(s, st, p + 1, m),
            },
        },
        FsmState::ValueNumber => {
            let end = match find2_from(s, 0x2c, 0x7d, c) {
                Some(p) => p,
                None => s.len() as int,
            };
            let te = trim_end_from(s, end, st.val_start);
            let c3 = if end < s.len() && s[end] == 0x2c {
                end + 1
            } else {
                end
            };
            match emit_number_step(st.m, s.subrange(st.val_start, te)) {
                None => JsonStep::Fail,
                Some(m) => if st.field_count + 1 > 0xffff {
                    JsonStep::Fail
                } else {
                    JsonStep::Continue(
                        JsonState {
                            cursor: c3,
                            state: FsmState::Key,
                            field_count: st.field_count + 1,
                            m: m,
                            ..st
                        },
                    )
                },
            }
        },
    }
}

/// What the parser keeps once it stops scanning: the model, where the text
/// ended between objects and held at least one field.
pub open spec fn json_finish(st: JsonState) -> Option<Model> {
    if st.state == FsmState::ObjectStart && st.m.kstream.len() > 0 {
        Some(st.m)
    } else {
        None
    }
}

/// A measure that every step decreases.
pub open spec fn json_measure(s: Seq<u8>, st: JsonState) -> int {
    2 * (s.len() - st.cursor) + (if st.state == FsmState::ValueNumber {
        1int
    } else {
        0int
    })
}

/// The parser run from `st` to its end.
pub open spec fn json_run(s: Seq<u8>, st: JsonState) -> Option<Model>
    decreases json_measure(s, st),
    via json_run_decreases
{
    if st.cursor < 0 || st.cursor >= s.len() {
        json_finish(st)
    } else {
        match json_step(s, st) {
            JsonStep::Fail => None,
            JsonStep::Done(st2) => json_finish(st2),
            JsonStep::Continue(st2) => json_run(s, st2),
        }
    }
}

#[via_fn]
proof fn json_run_decreases(s: Seq<u8>, st: JsonState) {
    if 0 <= st.cursor < s.len() {
        lemma_json_step_decreases(s, st);
    }
}

/// Every step that goes on moves forward: the cursor stays within the text and
/// the measure decreases.
pub proof fn lemma_json_step_decreases(s: Seq<u8>, st: JsonState)
    requires
        0 <= st.cursor < s.len(),
    ensures
        json_step(s, st) matches JsonStep::Continue(st2) ==> 0 <= st2.cursor <= s.len()
            && json_measure(s, st2) < json_measure(s, st),
{
    let c = st.cursor;
    lemma_find_from(s, 0x7b, c);
    lemma_find2_from(s, 0x22, 0x7d, c);
    lemma_find_from(s, 0x3a, c);
    lemma_find2_from(s, 0x2c, 0x7d, c);
    match st.state {
        FsmState::Key => {
            match find2_from(s, 0x22, 0x7d, c) {
                Some(p) => {
                    lemma_find_from(s, 0x22, p + 1);
                },
                None => {},
            }
        },
        FsmState::Colon => {
            match find_from(s, 0x3a, c) {
                Some(q) => {
                    lemma_skip_spaces_bounds(s, q + 1);
                },
                None => {},
            }
        },
        FsmState::ValueString => {
            lemma_closing_quote(s, st.val_start, c);
            match closing_quote(s, st.val_start, c) {
                Some(p) => {
                    lemma_skip_spaces_bounds(s, p + 1);
                },
                None => {},
            }
        },
        _ => {},
    }
}

pub proof fn lemma_closing_quote(s: Seq<u8>, lo: int, c: int)
    ensures
        closing_quote(s, lo, c) matches Some(p) ==> 0 <= c <= p < s.len() && s[p] == 0x22,
    decreases s.len() - c,
{
    if 0 <= c < s.len() {
        lemma_find_from(s, 0x22, c);
        match find_from(s, 0x22, c) {
            Some(p) => {
                if backslashes_before(s, lo, p) % 2 == 1 {
                    lemma_closing_quote(s, lo, p + 1);
                }
            },
            None => {},
        }
    }
}

/// The parser's start.
pub open spec fn json_start(m: Model) -> JsonState {
    JsonState {
        cursor: 0,
        state: FsmState::ObjectStart,
        field_count: 0,
        val_start: 0,
        cur_key: 0,
        m: m,
    }
}

/// What the engine makes of JSON text that starts at its first object:
/// `None` where it gives up on it.
pub open spec fn json_parse(m: Model, s: Seq<u8>) -> Option<Model> {
    json_run(s, json_start(m))
}

/// What holds between steps of a parser that started from a complete model:
/// the fields before the open row lie in closed rows, and every field has its
/// key, with one key more while a value is awaited; and every literal fits
/// its 16-bit length.
pub open spec fn json_complete_inv(st: JsonState) -> bool {
    &&& literals_fit(st.m.fields)
    &&& 0 <= st.field_count <= 0xffff
    &&& sum_u16(st.m.rows) + st.field_count == st.m.fields.len()
    &&& st.state == FsmState::ObjectStart ==> st.field_count == 0
    &&& if st.state == FsmState::ObjectStart || st.state == FsmState::Key {
        st.m.kstream.len() == st.m.fields.len()
    } else {
        st.m.kstream.len() == st.m.fields.len() + 1
    }
}

/// Each step keeps [`json_complete_inv`].
proof fn lemma_json_step_complete(s: Seq<u8>, st: JsonState)
    requires
        0 <= st.cursor < s.len(),
        json_complete_inv(st),
    ensures
        json_step(s, st) matches JsonStep::Continue(st2) ==> json_complete_inv(st2),
        json_step(s, st) matches JsonStep::Done(st2) ==> json_complete_inv(st2),
{
    let c = st.cursor;
    match st.state {
        FsmState::Key => {
            match find2_from(s, 0x22, 0x7d, c) {
                Some(p) => {
                    lemma_sum_u16_push(st.m.rows, st.field_count as u16);
                },
                None => {},
            }
        },
        FsmState::ValueString => {
            match closing_quote(s, st.val_start, c) {
                Some(p) => {
                    lemma_emit_shapes(st.m, st.cur_key, s.subrange(st.val_start, p));
                    match emit_string_step(st.m, st.cur_key, s.subrange(st.val_start, p)) {
                        Some(m2) => {
                            lemma_literals_fit_push(st.m.fields, m2.fields);
                        },
                        None => {},
                    }
                },
                None => {},
            }
        },
        FsmState::ValueNumber => {
            let end = match find2_from(s, 0x2c, 0x7d, c) {
                Some(p) => p,
                None => s.len() as int,
            };
            let te = trim_end_from(s, end, st.val_start);
            lemma_emit_shapes(st.m, st.cur_key, s.subrange(st.val_start, te));
            match emit_number_step(st.m, s.subrange(st.val_start, te)) {
                Some(m2) => {
                    lemma_literals_fit_push(st.m.fields, m2.fields);
                },
                None => {},
            }
        },
        _ => {},
    }
}

/// Run from a state that keeps [`json_complete_inv`], the parser gives a
/// complete model whose literals fit.
pub proof fn lemma_json_run_complete(s: Seq<u8>, st: JsonState)
    requires
        json_complete_inv(st),
    ensures
        json_run(s, st) matches Some(m) ==> model_complete(m) && literals_fit(m.fields),
    decreases json_measure(s, st),
{
    if 0 <= st.cursor < s.len() {
        lemma_json_step_decreases(s, st);
        lemma_json_step_complete(s, st);
        match json_step(s, st) {
            JsonStep::Continue(st2) => {
                lemma_json_run_complete(s, st2);
            },
            _ => {},
        }
    }
}


/// What the parser gives holds a key.
pub proof fn lemma_json_run_keyed(s: Seq<u8>, st: JsonState)
    ensures
        json_run(s, st) matches Some(m) ==> m.kstream.len() > 0,
    decreases json_measure(s, st),
{
    if 0 <= st.cursor < s.len() {
        lemma_json_step_decreases(s, st);
        match json_step(s, st) {
            JsonStep::Continue(st2) => {
                lemma_json_run_keyed(s, st2);
            },
            _ => {},
        }
    }
}

} // verus!
