//! Snappy blocks and the index document, behind the outside crates that make them.

use vstd::prelude::*;
use crate::store::keys_distinct;
use crate::table::{keyed, table_map};

verus! {

#[verifier::external_type_specification]
#[verifier::external_body]
pub struct ExSnapError(snap::Error);

#[verifier::external_type_specification]
#[verifier::external_body]
pub struct ExJsonError(serde_json::Error);

/// The raw Snappy block that the encoder makes of `data`.
pub uninterp spec fn snappy_block(data: Seq<u8>) -> Seq<u8>;

/// Whether the encoder takes an input of `n` bytes: its bound on the
/// compressed size must fit in 32 bits.
pub open spec fn compressible(n: nat) -> bool {
    32 + n + n / 6 <= 0xFFFF_FFFFnat
}

/// Relies on `snap::raw::Encoder::compress_vec`: it makes one raw Snappy block
/// of its input, and fails only where `max_compress_len` of the input's length
/// is 0, which is where the bound does not fit in 32 bits.
#[verifier::external_body]
pub(crate) fn compress_block(data: &[u8]) -> (r: Result<Vec<u8>, snap::Error>)
    ensures
        r is Ok <==> compressible(data@.len()),
        r is Ok ==> r->Ok_0@ == snappy_block(data@),
{
    snap::raw::Encoder::new().compress_vec(data)
}

/// What the raw decoder makes of a block: the bytes, or `None` where it
/// refuses the block.
pub uninterp spec fn snappy_decoded(block: Seq<u8>) -> Option<Seq<u8>>;

/// Relies on `snap::raw::Decoder::decompress_vec`: a decoder holds no state,
/// so its result depends on the block alone; and a block that the raw encoder
/// made decompresses to the bytes it was made from.
#[verifier::external_body]
pub(crate) fn decompress_block(block: &[u8]) -> (r: Result<Vec<u8>, snap::Error>)
    ensures
        r is Ok <==> snappy_decoded(block@) is Some,
        r is Ok ==> r->Ok_0@ == snappy_decoded(block@)->Some_0,
        forall|x: Seq<u8>|
            block@ == snappy_block(x) && compressible(x.len()) ==> r is Ok && r->Ok_0@ == x,
{
    snap::raw::Decoder::new().decompress_vec(block)
}

/// The JSON object that maps each act name to its `[start, end]` pair.
pub uninterp spec fn index_json(entries: Seq<(Seq<char>, (usize, usize))>) -> Seq<char>;

/// Relies on `serde_json::to_string` on a `BTreeMap` from act name to the pair
/// `(start, end)`: one JSON object, its keys in key order. Serialisation fails
/// only for a failing `Serialize` impl or a map key that is not a string, and
/// neither can happen here.
#[verifier::external_body]
pub(crate) fn write_index_document(entries: &Vec<(String, (usize, usize))>) -> (r: Result<
    String,
    serde_json::Error,
>)
    ensures
        r is Ok,
        r is Ok ==> r->Ok_0@ == index_json(
            entries@.map_values(|e: (String, (usize, usize))| (e.0@, e.1)),
        ),
{
    let map: std::collections::BTreeMap<&str, (usize, usize)> = entries.iter().map(
        |e| (e.0.as_str(), e.1),
    ).collect();
    serde_json::to_string(&map)
}

/// The mapping from act name to `(start, end)` that a JSON document holds, or
/// `None` where the text is no such document.
pub uninterp spec fn index_of_json(text: Seq<char>) -> Option<Map<Seq<char>, (usize, usize)>>;

/// Relies on `serde_json::from_str` into a `HashMap` from act name to the pair
/// `(start, end)`. Whether it succeeds, and the mapping, depend on the text
/// alone; a map holds each key once. The entries come out in the map's own
/// order, which nothing here relies on.
#[verifier::external_body]
pub(crate) fn read_index_document(text: &str) -> (r: Result<
    Vec<(String, (usize, usize))>,
    serde_json::Error,
>)
    ensures
        r is Ok <==> index_of_json(text@) is Some,
        r is Ok ==> keys_distinct(keyed(r->Ok_0@)),
        r is Ok ==> table_map(keyed(r->Ok_0@)) == index_of_json(text@)->Some_0,
{
    let map: std::collections::HashMap<String, (usize, usize)> = serde_json::from_str(text)?;
    Ok(map.into_iter().collect())
}

} // verus!
