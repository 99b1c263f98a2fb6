//! Telling JSON lines, a JSON array and CSV apart.
use vstd::prelude::*;
use crate::engine::LumpiEngine;
use crate::text::{is_space, skip_spaces, skip_spaces_from, trim_end, trim_end_from};

verus! {

/// The kind of text that the engine is given.
#[derive(PartialEq, Eq, Structural, Clone, Copy, Debug)]
pub enum InputFormat {
    JsonLines,
    JsonArray,
    Csv,
}

impl InputFormat {
    /// The name under which the format is reported.
    pub fn label(&self) -> (r: &'static str)
        ensures
            r@ == (match *self {
                InputFormat::JsonLines => "JSONL"@,
                InputFormat::JsonArray => "JSON"@,
                InputFormat::Csv => "CSV"@,
            }),
    {
        match self {
            InputFormat::JsonLines => "JSONL",
            InputFormat::JsonArray => "JSON",
            InputFormat::Csv => "CSV",
        }
    }
}

/// The format of `data`, by its first non-whitespace byte: `[` is a JSON
/// array, `{` (or nothing at all) JSON lines, anything else CSV.
pub open spec fn detect_format_spec(data: Seq<u8>) -> InputFormat {
    let i = skip_spaces(data, 0);
    if i >= data.len() {
        InputFormat::JsonLines
    } else if data[i] == 0x5b {
        InputFormat::JsonArray
    } else if data[i] == 0x7b {
        InputFormat::JsonLines
    } else {
        InputFormat::Csv
    }
}

/// `data` without the whitespace around it, and without its opening `[` and
/// closing `]` where they stand at its ends.
pub open spec fn strip_json_array_spec(data: Seq<u8>) -> Seq<u8> {
    let s0 = skip_spaces(data, 0);
    let start = if s0 < data.len() && data[s0] == 0x5b {
        s0 + 1
    } else {
        s0
    };
    let e0 = trim_end_from(data, data.len() as int, start);
    let end = if e0 > start && data[e0 - 1] == 0x5d {
        e0 - 1
    } else {
        e0
    };
    data.subrange(start, end)
}

impl LumpiEngine {
    /// The format of `data` (see [`detect_format_spec`]).
    pub fn detect_format(data: &[u8]) -> (r: InputFormat)
        ensures
            r == detect_format_spec(data@),
    {
        let i = skip_spaces_from(data, 0);
        if i >= data.len() {
            return InputFormat::JsonLines;
        }
        if data[i] == 0x5b {
            return InputFormat::JsonArray;
        }
        if data[i] == 0x7b {
            return InputFormat::JsonLines;
        }
        InputFormat::Csv
    }

    /// The elements of a JSON array, without the brackets around them.
    pub fn strip_json_array(data: &[u8]) -> (r: &[u8])
        ensures
            r@ == strip_json_array_spec(data@),
    {
        let mut start = skip_spaces_from(data, 0);
        if start < data.len() && data[start] == 0x5b {
            start = start + 1;
        }
        let mut end = trim_end(data, data.len(), start);
        if end > start && data[end - 1] == 0x5d {
            end = end - 1;
        }
        &data[start..end]
    }
}

} // verus!
