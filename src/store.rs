//! The encoder of a story into a blob of compressed blocks with a byte-range
//! index, and the reads back from it.

use vstd::prelude::*;
use crate::codec::{
    compress_block, compressible, decompress_block, index_json, index_of_json, read_index_document,
    snappy_block, snappy_decoded, write_index_document,
};
use crate::error::{EncodeError, WalkerError};
use crate::keys::{compare_keys, key_lt, lemma_key_lt_irreflexive, lemma_key_lt_transitive, same_text};
use crate::table::{has_key, keyed, keys_sorted, table_map};

verus! {

/// The blocks laid end to end.
pub open spec fn concat_blocks(b: Seq<Seq<u8>>) -> Seq<u8>
    decreases b.len(),
{
    if b.len() == 0 {
        Seq::empty()
    } else {
        concat_blocks(b.drop_last()) + b.last()
    }
}

/// The compressed block of each record.
pub open spec fn record_blocks(records: Seq<(String, Vec<u8>)>) -> Seq<Seq<u8>> {
    records.map_values(|r: (String, Vec<u8>)| snappy_block(r.1@))
}

/// Where the block of record `i` starts in the blob; `block_start(records,
/// records.len())` is the blob's length.
pub open spec fn block_start(records: Seq<(String, Vec<u8>)>, i: int) -> int {
    concat_blocks(record_blocks(records).take(i)).len() as int
}

/// The records that the encoder takes: act names in strictly increasing key
/// order, each record small enough to compress, and a blob whose length fits
/// in `usize`.
pub open spec fn encodable(records: Seq<(String, Vec<u8>)>) -> bool {
    &&& keys_sorted(keyed(records))
    &&& forall|i: int| 0 <= i < records.len() ==> compressible((#[trigger] records[i]).1@.len())
    &&& concat_blocks(record_blocks(records)).len() <= usize::MAX
}

pub proof fn lemma_concat_prefix_len(b: Seq<Seq<u8>>, i: int)
    requires
        0 <= i <= b.len(),
    ensures
        concat_blocks(b.take(i)).len() <= concat_blocks(b).len(),
    decreases b.len() - i,
{
    if i < b.len() {
        lemma_concat_prefix_len(b, i + 1);
        assert(b.take(i + 1).drop_last() =~= b.take(i));
    } else {
        assert(b.take(i) =~= b);
    }
}

/// The byte range of each act in a stored blob.
#[derive(Debug)]
pub struct NarrativeIndex {
    entries: Vec<(String, (usize, usize))>,
}

pub open spec fn keys_distinct<V>(s: Seq<(Seq<char>, V)>) -> bool {
    forall|i: int, j: int| 0 <= i < j < s.len() ==> (#[trigger] s[i]).0 != (#[trigger] s[j]).0
}

/// In a table whose keys are distinct, the entry at a key is the one the mapping gives.
pub proof fn lemma_distinct_map_at<V>(s: Seq<(Seq<char>, V)>, i: int)
    requires
        keys_distinct(s),
        0 <= i < s.len(),
    ensures
        table_map(s).contains_key(s[i].0),
        table_map(s)[s[i].0] == s[i].1,
{
    let k = s[i].0;
    assert(has_key(s, k));
    let c = choose|c: int| 0 <= c < s.len() && #[trigger] s[c].0 == k;
    if c < i {
        assert(s[c].0 != s[i].0);
    } else if i < c {
        assert(s[i].0 != s[c].0);
    }
}

impl NarrativeIndex {
    /// The entries: act name and `(start, end)`, end exclusive.
    pub closed spec fn ranges(&self) -> Seq<(Seq<char>, (usize, usize))> {
        keyed(self.entries@)
    }

    pub open spec fn wf(&self) -> bool {
        keys_distinct(self.ranges())
    }

    /// The mapping from act name to byte range.
    pub open spec fn range_map(&self) -> Map<Seq<char>, (usize, usize)> {
        table_map(self.ranges())
    }

    /// The entries, in the order in which they are held.
    pub fn entries(&self) -> (r: &Vec<(String, (usize, usize))>)
        ensures
            keyed(r@) == self.ranges(),
    {
        &self.entries
    }

    /// An index of the given entries, if no act name occurs twice.
    pub fn from_entries(entries: Vec<(String, (usize, usize))>) -> (r: Option<NarrativeIndex>)
        ensures
            r is Some <==> keys_distinct(keyed(entries@)),
            r is Some ==> r->Some_0.wf() && r->Some_0.ranges() == keyed(entries@),
    {
        let ghost k = keyed(entries@);
        let mut i: usize = 0;
        while i < entries.len()
            invariant
                k == keyed(entries@),
                i <= entries@.len(),
                forall|a: int, b: int| 0 <= a < b < entries@.len() && a < i ==> (#[trigger] k[a]).0 != (#[trigger] k[b]).0,
            decreases entries@.len() - i,
        {
            let mut j: usize = i + 1;
            while j < entries.len()
                invariant
                    k == keyed(entries@),
                    i < entries@.len(),
                    i + 1 <= j <= entries@.len(),
                    forall|a: int, b: int| 0 <= a < b < entries@.len() && a < i ==> (#[trigger] k[a]).0 != (#[trigger] k[b]).0,
                    forall|b: int| i < b < j ==> k[i as int].0 != (#[trigger] k[b]).0,
                decreases entries@.len() - j,
            {
                if same_text(entries[i].0.as_str(), entries[j].0.as_str()) {
                    assert(!keys_distinct(k)) by {
                        assert(k[i as int].0 == k[j as int].0);
                    }
                    return None;
                }
                j = j + 1;
            }
            i = i + 1;
        }
        Some(NarrativeIndex { entries })
    }

    /// Reads an index document: a JSON object from act name to `[start, end]`.
    pub fn from_json(text: &str) -> (r: Result<NarrativeIndex, WalkerError>)
        ensures
            r is Ok <==> index_of_json(text@) is Some,
            r is Ok ==> r->Ok_0.wf() && r->Ok_0.range_map() == index_of_json(text@)->Some_0,
            r is Err ==> r->Err_0 is BadIndex,
    {
        match read_index_document(text) {
            Ok(entries) => match Self::from_entries(entries) {
                Some(index) => Ok(index),
                None => Err(WalkerError::BadIndex),
            },
            Err(_) => Err(WalkerError::BadIndex),
        }
    }

    /// The index as a document: a JSON object from act name to `[start, end]`.
    pub fn to_json(&self) -> (r: Result<String, EncodeError>)
        ensures
            r is Ok,
            r->Ok_0@ == index_json(self.ranges()),
    {
        match write_index_document(&self.entries) {
            Ok(s) => Ok(s),
            Err(_) => Err(EncodeError::IndexDocument),
        }
    }

    /// The byte range of an act.
    pub fn locate(&self, scene: &str) -> (r: Result<(usize, usize), WalkerError>)
        requires
            self.wf(),
        ensures
            self.range_map().contains_key(scene@) ==> r == Ok::<(usize, usize), WalkerError>(
                self.range_map()[scene@],
            ),
            !self.range_map().contains_key(scene@) ==> r is Err && r->Err_0 is UnknownScene
                && r->Err_0->UnknownScene_0@ == scene@,
    {
        let ghost k = self.ranges();
        let mut i: usize = 0;
        while i < self.entries.len()
            invariant
                self.wf(),
                k == self.ranges(),
                i <= k.len(),
                forall|j: int| 0 <= j < i ==> (#[trigger] k[j]).0 != scene@,
            decreases k.len() - i,
        {
            if same_text(self.entries[i].0.as_str(), scene) {
                proof {
                    lemma_distinct_map_at(k, i as int);
                }
                return Ok(self.entries[i].1);
            }
            i = i + 1;
        }
        assert(!has_key(k, scene@));
        Err(WalkerError::UnknownScene(scene.to_owned()))
    }

    /// The record stored for an act, read from the whole blob held in memory.
    pub fn read_act(&self, blob: &Vec<u8>, scene: &str) -> (r: Result<Vec<u8>, WalkerError>)
        requires
            self.wf(),
        ensures
            !self.range_map().contains_key(scene@) ==> r is Err && r->Err_0 is UnknownScene
                && r->Err_0->UnknownScene_0@ == scene@,
            self.range_map().contains_key(scene@) && !(self.range_map()[scene@].0
                <= self.range_map()[scene@].1 <= blob@.len()) ==> r is Err && r->Err_0 is BadRange,
            forall|x: Seq<u8>|
                #![trigger snappy_block(x)]
                self.range_map().contains_key(scene@) && self.range_map()[scene@].0
                    <= self.range_map()[scene@].1 <= blob@.len() && blob@.subrange(
                    self.range_map()[scene@].0 as int,
                    self.range_map()[scene@].1 as int,
                ) == snappy_block(x) && compressible(x.len()) ==> r is Ok && r->Ok_0@ == x,
            self.range_map().contains_key(scene@) && self.range_map()[scene@].0
                <= self.range_map()[scene@].1 <= blob@.len() ==> {
                let d = snappy_decoded(
                    blob@.subrange(
                        self.range_map()[scene@].0 as int,
                        self.range_map()[scene@].1 as int,
                    ),
                );
                &&& (r is Ok <==> d is Some)
                &&& r is Ok ==> r->Ok_0@ == d->Some_0
                &&& r is Err ==> r->Err_0 is BadBlock && r->Err_0->BadBlock_0@ == scene@
            },
    {
        let (start, end) = match self.locate(scene) {
            Ok(range) => range,
            Err(e) => {
                return Err(e);
            },
        };
        if !(start <= end && end <= blob.len()) {
            return Err(WalkerError::BadRange(scene.to_owned()));
        }
        let mut block: Vec<u8> = Vec::new();
        let mut i: usize = start;
        while i < end
            invariant
                start <= i <= end <= blob@.len(),
                block@ == blob@.subrange(start as int, i as int),
            decreases end - i,
        {
            block.push(blob[i]);
            proof {
                assert(block@ =~= blob@.subrange(start as int, i + 1));
            }
            i = i + 1;
        }
        decode_act(scene, &block)
    }
}

/// Decompresses the block read for an act.
pub fn decode_act(scene: &str, block: &Vec<u8>) -> (r: Result<Vec<u8>, WalkerError>)
    ensures
        forall|x: Seq<u8>|
            #![trigger snappy_block(x)]
            block@ == snappy_block(x) && compressible(x.len()) ==> r is Ok && r->Ok_0@ == x,
        r is Ok <==> snappy_decoded(block@) is Some,
        r is Ok ==> r->Ok_0@ == snappy_decoded(block@)->Some_0,
        r is Err ==> r->Err_0 is BadBlock && r->Err_0->BadBlock_0@ == scene@,
{
    match decompress_block(block.as_slice()) {
        Ok(data) => Ok(data),
        Err(_) => Err(WalkerError::BadBlock(scene.to_owned())),
    }
}

/// Compresses each act's record and lays the blocks end to end, in the order
/// given, which must be strictly increasing key order; the index gives each
/// act the byte range of its block.
pub fn encode_story(records: &Vec<(String, Vec<u8>)>) -> (r: Result<
    (Vec<u8>, NarrativeIndex),
    EncodeError,
>)
    ensures
        r is Ok <==> encodable(records@),
        r is Ok ==> {
            let (blob, index) = r->Ok_0;
            &&& blob@ == concat_blocks(record_blocks(records@))
            &&& index.wf()
            &&& index.ranges().len() == records@.len()
            &&& forall|i: int|
                0 <= i < records@.len() ==> #[trigger] index.ranges()[i] == (
                    records@[i].0@,
                    (block_start(records@, i) as usize, block_start(records@, i + 1) as usize),
                )
        },
        r matches Err(e) ==> (e is OutOfOrder ==> !keys_sorted(keyed(records@))) && (e is TooLarge
            ==> !encodable(records@)) && (e is OutOfOrder || e is TooLarge),
{
    let ghost rs = records@;
    let ghost blocks = record_blocks(rs);
    let mut blob: Vec<u8> = Vec::new();
    let mut entries: Vec<(String, (usize, usize))> = Vec::new();
    let mut i: usize = 0;
    proof {
        assert(blocks.take(0) =~= Seq::<Seq<u8>>::empty());
    }
    while i < records.len()
        invariant
            rs == records@,
            blocks == record_blocks(rs),
            i <= rs.len(),
            blob@ == concat_blocks(blocks.take(i as int)),
            keys_sorted(keyed(rs.take(i as int))),
            forall|j: int| 0 <= j < i ==> compressible((#[trigger] rs[j]).1@.len()),
            entries@.len() == i,
            forall|j: int|
                0 <= j < i ==> #[trigger] keyed(entries@)[j] == (
                    rs[j].0@,
                    (block_start(rs, j) as usize, block_start(rs, j + 1) as usize),
                ),
        decreases rs.len() - i,
    {
        let name = &records[i].0;
        if i > 0 && compare_keys(records[i - 1].0.as_str(), name.as_str()) >= 0 {
            proof {
                assert(!key_lt(keyed(rs)[i - 1].0, keyed(rs)[i as int].0));
            }
            return Err(EncodeError::OutOfOrder(name.clone()));
        }
        proof {
            let kt = keyed(rs.take(i + 1));
            assert forall|a: int, b: int| 0 <= a < b < kt.len() implies key_lt(#[trigger] kt[a].0, #[trigger] kt[b].0) by {
                assert(kt[a].0 == keyed(rs.take(i as int))[a].0);
                if b < i {
                    assert(kt[b].0 == keyed(rs.take(i as int))[b].0);
                } else if a < i - 1 {
                    assert(kt[(i - 1) as int].0 == keyed(rs.take(i as int))[i - 1].0);
                    lemma_key_lt_transitive(kt[a].0, kt[(i - 1) as int].0, kt[b].0);
                }
            }
        }
        let mut block = match compress_block(records[i].1.as_slice()) {
            Ok(b) => b,
            Err(_) => {
                return Err(EncodeError::TooLarge(name.clone()));
            },
        };
        let start = blob.len();
        let end = match start.checked_add(block.len()) {
            Some(e) => e,
            None => {
                proof {
                    assert(blocks.take(i + 1).drop_last() =~= blocks.take(i as int));
                    lemma_concat_prefix_len(blocks, i + 1);
                }
                return Err(EncodeError::TooLarge(name.clone()));
            },
        };
        let ghost before = entries@;
        blob.append(&mut block);
        entries.push((name.clone(), (start, end)));
        proof {
            assert(blocks.take(i + 1).drop_last() =~= blocks.take(i as int));
            assert(blocks.take(i + 1).last() == snappy_block(rs[i as int].1@));
            assert forall|j: int|
                0 <= j < i + 1 implies #[trigger] keyed(entries@)[j] == (
                    rs[j].0@,
                    (block_start(rs, j) as usize, block_start(rs, j + 1) as usize),
                ) by {
                if j < i {
                    assert(entries@[j] == before[j]);
                    assert(keyed(before)[j] == keyed(entries@)[j]);
                }
            }
        }
        i = i + 1;
    }
    let total = blob.len();
    proof {
        assert(rs.take(i as int) =~= rs);
        assert(blocks.take(i as int) =~= blocks);
        assert(total == concat_blocks(blocks).len());
        let k = keyed(entries@);
        assert forall|a: int, b: int| 0 <= a < b < k.len() implies (#[trigger] k[a]).0 != (#[trigger] k[b]).0 by {
            assert(k[a].0 == keyed(rs)[a].0);
            assert(k[b].0 == keyed(rs)[b].0);
            lemma_key_lt_irreflexive(k[a].0);
        }
    }
    Ok((blob, NarrativeIndex { entries }))
}

} // verus!
