//! Every item in this module is believed by Verus without proof: each one
//! makes a call into an outside crate, and its contract states what that
//! crate's source and documentation say of the call.
use vstd::prelude::*;
use std::io::Write;
use rustc_hash::{FxHashMap, FxHashSet};

verus! {

/// `memchr::memchr`: the index of the first occurrence of `needle` in
/// `haystack`, or `None` when there is none (its documentation says so, and
/// that the index is below `haystack.len()`).
#[verifier::external_body]
pub(crate) fn memchr(needle: u8, haystack: &[u8]) -> (r: Option<usize>)
    ensures
        match r {
            Some(i) => i < haystack.len() && haystack@[i as int] == needle && forall|j: int|
                0 <= j < i ==> haystack@[j] != needle,
            None => forall|j: int| 0 <= j < haystack.len() ==> haystack@[j] != needle,
        },
{
    memchr::memchr(needle, haystack)
}

/// `memchr::memchr2`: the index of the first byte of `haystack` that equals
/// `needle1` or `needle2`, or `None` when there is none.
#[verifier::external_body]
pub(crate) fn memchr2(needle1: u8, needle2: u8, haystack: &[u8]) -> (r: Option<usize>)
    ensures
        match r {
            Some(i) => i < haystack.len() && (haystack@[i as int] == needle1 || haystack@[i as int]
                == needle2) && forall|j: int|
                0 <= j < i ==> haystack@[j] != needle1 && haystack@[j] != needle2,
            None => forall|j: int|
                0 <= j < haystack.len() ==> haystack@[j] != needle1 && haystack@[j] != needle2,
        },
{
    memchr::memchr2(needle1, needle2, haystack)
}

} // verus!

verus! {

/// What SHA-256 gives for these bytes.
pub uninterp spec fn sha256_of(data: Seq<u8>) -> Seq<u8>;

/// What `zstd` decompression gives for these bytes: the decompressed bytes, or
/// `None` where it reports an error.
pub uninterp spec fn zstd_decoded(frame: Seq<u8>) -> Option<Seq<u8>>;

/// The zstd frame that `zstd::encode_all` writes for these bytes at this level.
pub uninterp spec fn zstd_frame(data: Seq<u8>, level: i32) -> Seq<u8>;

/// `<sha2::Sha256 as Digest>::digest`: the SHA-256 digest of `data`, which is
/// 32 bytes long. Nothing more is said of its value than that it is a function
/// of `data`.
#[verifier::external_body]
pub(crate) fn sha256_digest(data: &[u8]) -> (r: Vec<u8>)
    ensures
        r@ == sha256_of(data@),
        r@.len() == 32,
{
    <sha2::Sha256 as sha2::Digest>::digest(data).to_vec()
}

/// Lowercase hexadecimal digit for a value below 16.
pub open spec fn hex_digit(d: u8) -> u8 {
    if d < 10 {
        (48 + d) as u8
    } else {
        (87 + d) as u8
    }
}

/// Lowercase hexadecimal text of `s`: two digits per byte, high half first.
pub open spec fn hex_lower(s: Seq<u8>) -> Seq<u8>
    decreases s.len(),
{
    if s.len() == 0 {
        Seq::empty()
    } else {
        hex_lower(s.drop_last()) + seq![hex_digit(s.last() / 16), hex_digit(s.last() % 16)]
    }
}

/// `hex::encode`: the lowercase hexadecimal text of `data`, two digits per
/// byte, as its documentation states.
#[verifier::external_body]
pub(crate) fn hex_encode(data: &[u8]) -> (r: String)
    ensures
        r@ == hex_lower(data@).map_values(|b: u8| b as char),
{
    hex::encode(data)
}

/// `std::str::from_utf8(..).is_ok()`: whether `bytes` are valid UTF-8, as
/// vstd's `valid_utf8` states it (each scalar in its shortest encoding, no
/// surrogates), which is what the documentation of `from_utf8` asks.
#[verifier::external_body]
pub(crate) fn utf8_check(bytes: &[u8]) -> (r: bool)
    ensures
        r == vstd::utf8::valid_utf8(bytes@),
{
    std::str::from_utf8(bytes).is_ok()
}

/// `zstd::encode_all` on a byte slice at `level`. On success the frame is a
/// function of the data and the level, and decompressing it gives the data back
/// (that a zstd frame decodes to what was encoded is the point of the format).
/// An error is reported as its text.
#[verifier::external_body]
pub(crate) fn zstd_encode_all(data: &[u8], level: i32) -> (r: Result<Vec<u8>, String>)
    ensures
        r matches Ok(z) ==> z@ == zstd_frame(data@, level) && zstd_decoded(z@) == Some(data@),
{
    match zstd::encode_all(data, level) {
        Ok(v) => Ok(v),
        Err(e) => Err(e.to_string()),
    }
}

/// `zstd::decode_all` on a byte slice: the decompressed bytes, or the error's
/// text. Which of the two comes, and the bytes, are a function of the input.
#[verifier::external_body]
pub(crate) fn zstd_decode_all(frame: &[u8]) -> (r: Result<Vec<u8>, String>)
    ensures
        match r {
            Ok(v) => zstd_decoded(frame@) == Some(v@),
            Err(_) => zstd_decoded(frame@) is None,
        },
{
    match zstd::decode_all(frame) {
        Ok(v) => Ok(v),
        Err(e) => Err(e.to_string()),
    }
}

/// Compresses `data` into one zstd frame at `level` with `threads` worker
/// threads, through `zstd::stream::Encoder` (`new`, `multithread`,
/// `write_all`, `finish`). The frame's bytes may depend on the thread count, so
/// nothing is said of them but that decompressing them gives `data` back. An
/// error is reported as its text.
#[verifier::external_body]
pub(crate) fn compress_block(data: &[u8], level: i32, threads: u32) -> (r: Result<Vec<u8>, String>)
    ensures
        r matches Ok(z) ==> zstd_decoded(z@) == Some(data@),
{
    let mut buf = Vec::new();
    let mut enc = zstd::stream::Encoder::new(&mut buf, level).map_err(|e| e.to_string())?;
    enc.multithread(threads).map_err(|e| e.to_string())?;
    enc.write_all(data).map_err(|e| e.to_string())?;
    enc.finish().map_err(|e| e.to_string())?;
    Ok(buf)
}

} // verus!

verus! {

/// A `rustc_hash::FxHashMap` from key bytes to key ids.
#[verifier::external_body]
pub struct KeyIds {
    map: FxHashMap<Vec<u8>, u16>,
}

/// What a [`KeyIds`] holds.
pub uninterp spec fn key_ids_contents(t: KeyIds) -> Map<Seq<u8>, u16>;

impl KeyIds {
    /// `FxHashMap::default`: an empty map.
    #[verifier::external_body]
    pub(crate) fn new() -> (r: KeyIds)
        ensures
            key_ids_contents(r) =~= Map::empty(),
    {
        KeyIds { map: FxHashMap::default() }
    }

    /// `HashMap::get`: the id stored for `key`, if any.
    #[verifier::external_body]
    pub(crate) fn get(&self, key: &[u8]) -> (r: Option<u16>)
        ensures
            r == (if key_ids_contents(*self).dom().contains(key@) {
                Some(key_ids_contents(*self)[key@])
            } else {
                None::<u16>
            }),
    {
        self.map.get(key).copied()
    }

    /// `HashMap::insert`: stores `id` for `key`, replacing what was there.
    #[verifier::external_body]
    pub(crate) fn insert(&mut self, key: Vec<u8>, id: u16)
        ensures
            key_ids_contents(*final(self)) == key_ids_contents(*old(self)).insert(key@, id),
    {
        self.map.insert(key, id);
    }

    /// `HashMap::clear`: removes every entry.
    #[verifier::external_body]
    pub(crate) fn clear(&mut self)
        ensures
            key_ids_contents(*final(self)) =~= Map::empty(),
    {
        self.map.clear();
    }

    /// `HashMap::len`: the number of entries.
    #[verifier::external_body]
    pub(crate) fn len(&self) -> (r: usize)
        ensures
            r == key_ids_contents(*self).dom().len(),
    {
        self.map.len()
    }

    /// `HashMap::iter`, each entry copied out: every entry exactly once, in an
    /// order that the map chooses.
    #[verifier::external_body]
    pub(crate) fn entries(&self) -> (r: Vec<(Vec<u8>, u16)>)
        ensures
            forall|i: int|
                0 <= i < r@.len() ==> key_ids_contents(*self).dom().contains(#[trigger] r@[i].0@)
                    && key_ids_contents(*self)[r@[i].0@] == r@[i].1,
            forall|i: int, j: int| 0 <= i < j < r@.len() ==> r@[i].0@ != r@[j].0@,
            forall|k: Seq<u8>|
                key_ids_contents(*self).dom().contains(k) ==> exists|i: int|
                    0 <= i < r@.len() && #[trigger] r@[i].0@ == k,
    {
        self.map.iter().map(|(k, v)| (k.clone(), *v)).collect()
    }
}

/// A `rustc_hash::FxHashMap` from string values to dictionary ids.
#[verifier::external_body]
pub struct ValueIds {
    map: FxHashMap<Vec<u8>, u32>,
}

/// What a [`ValueIds`] holds.
pub uninterp spec fn value_ids_contents(t: ValueIds) -> Map<Seq<u8>, u32>;

impl ValueIds {
    /// `FxHashMap::default`: an empty map.
    #[verifier::external_body]
    pub(crate) fn new() -> (r: ValueIds)
        ensures
            value_ids_contents(r) =~= Map::empty(),
    {
        ValueIds { map: FxHashMap::default() }
    }

    /// `HashMap::get`: the id stored for `value`, if any.
    #[verifier::external_body]
    pub(crate) fn get(&self, value: &[u8]) -> (r: Option<u32>)
        ensures
            r == (if value_ids_contents(*self).dom().contains(value@) {
                Some(value_ids_contents(*self)[value@])
            } else {
                None::<u32>
            }),
    {
        self.map.get(value).copied()
    }

    /// `HashMap::insert`: stores `id` for `value`, replacing what was there.
    #[verifier::external_body]
    pub(crate) fn insert(&mut self, value: Vec<u8>, id: u32)
        ensures
            value_ids_contents(*final(self)) == value_ids_contents(*old(self)).insert(value@, id),
    {
        self.map.insert(value, id);
    }

    /// `HashMap::clear`: removes every entry.
    #[verifier::external_body]
    pub(crate) fn clear(&mut self)
        ensures
            value_ids_contents(*final(self)) =~= Map::empty(),
    {
        self.map.clear();
    }
}

/// A `rustc_hash::FxHashMap` from key ids to two counters: string values seen,
/// and how many of them were new to the dictionary.
#[verifier::external_body]
pub struct SeenCounts {
    map: FxHashMap<u16, (u32, u32)>,
}

/// What a [`SeenCounts`] holds.
pub uninterp spec fn seen_counts_contents(t: SeenCounts) -> Map<u16, (u32, u32)>;

impl SeenCounts {
    /// `FxHashMap::default`: an empty map.
    #[verifier::external_body]
    pub(crate) fn new() -> (r: SeenCounts)
        ensures
            seen_counts_contents(r) =~= Map::empty(),
    {
        SeenCounts { map: FxHashMap::default() }
    }

    /// `HashMap::get`: the counters stored for `key`, if any.
    #[verifier::external_body]
    pub(crate) fn get(&self, key: u16) -> (r: Option<(u32, u32)>)
        ensures
            r == (if seen_counts_contents(*self).dom().contains(key) {
                Some(seen_counts_contents(*self)[key])
            } else {
                None::<(u32, u32)>
            }),
    {
        self.map.get(&key).copied()
    }

    /// `HashMap::insert`: stores the counters for `key`.
    #[verifier::external_body]
    pub(crate) fn insert(&mut self, key: u16, counts: (u32, u32))
        ensures
            seen_counts_contents(*final(self)) == seen_counts_contents(*old(self)).insert(key, counts),
    {
        self.map.insert(key, counts);
    }

    /// `HashMap::clear`: removes every entry.
    #[verifier::external_body]
    pub(crate) fn clear(&mut self)
        ensures
            seen_counts_contents(*final(self)) =~= Map::empty(),
    {
        self.map.clear();
    }
}

/// A `rustc_hash::FxHashSet` of key ids.
#[verifier::external_body]
pub struct KeySet {
    set: FxHashSet<u16>,
}

/// What a [`KeySet`] holds.
pub uninterp spec fn key_set_contents(t: KeySet) -> Set<u16>;

impl KeySet {
    /// `FxHashSet::default`: an empty set.
    #[verifier::external_body]
    pub(crate) fn new() -> (r: KeySet)
        ensures
            key_set_contents(r) =~= Set::empty(),
    {
        KeySet { set: FxHashSet::default() }
    }

    /// `HashSet::contains`.
    #[verifier::external_body]
    pub(crate) fn contains(&self, key: u16) -> (r: bool)
        ensures
            r == key_set_contents(*self).contains(key),
    {
        self.set.contains(&key)
    }

    /// `HashSet::insert`.
    #[verifier::external_body]
    pub(crate) fn insert(&mut self, key: u16)
        ensures
            key_set_contents(*final(self)) == key_set_contents(*old(self)).insert(key),
    {
        self.set.insert(key);
    }

    /// `HashSet::clear`.
    #[verifier::external_body]
    pub(crate) fn clear(&mut self)
        ensures
            key_set_contents(*final(self)) =~= Set::empty(),
    {
        self.set.clear();
    }
}

} // verus!
