# lumpi

A columnar archive format for flat JSON-lines and CSV logs, with its packer,
unpacker and search, verified with Verus.

Packing transposes the records into streams (key ids, type bytes, dictionary
ids, zigzag varints, literals), interns keys and repeated strings, and writes
them in frames of at most 65 536 rows, each with a small scan block and a data
block compressed with zstd. Text that is not flat JSON or CSV (text cut off
inside an object, other bytes between objects, a key holding an escaped
quote, a literal longer than 65 535 bytes) is stored as one raw zstd frame after its
SHA-256, so no record is lost; an empty object is kept as a row with no
fields, and a CSV string or column name is written as it stands in a JSON
string (quotes, backslashes and control bytes escaped). Searching reads the scan blocks and
skips the data blocks of frames that cannot hold a match.

## Layout

- `src/` — the library, every function verified:
  - `model` — the abstract content of an engine and how each parsed field
    changes it; `json` and `csv` — what the parsers make of their input;
    `engine` — the packer, proved to follow those specifications and to write
    the layout that `archive` describes;
  - `reader` — the unpacker and the search, each specified byte for byte over
    what it reads;
  - `jsonl` — a grammar of flat JSON lines as text (objects of strings and
    bare tokens, whitespace between objects), and the proof that such text
    packs as columns and unpacks to one line per object, member by member;
  - `laws` — what the two sides promise of each other, stated over what
    `compress_buffer` ensures of the archive it writes: unpacking a raw
    archive gives the original bytes; unpacking a columnar archive gives the
    engine's rows as JSON lines; searching gives exactly the matching rows,
    which are lines of the unpacked text in their order, and never reads the
    data block of a frame it skips; packing leaves every field keyed and in a
    closed row; `roundtrip` and `search` hold the lemmas behind them;
  - `varint`, `number`, `bytes`, `text`, `format` — encodings and byte-level
    helpers;
  - `trusted` — the calls into `memchr`, `sha2`, `hex`, `zstd` and
    `rustc-hash`, with the contracts Verus takes on trust.
- `app/` — the `lumpi` command (file I/O, timing, the benchmark against other
  compressors).
- `tests/` — tests of the library on concrete inputs.
