//! Serving lookups from a snapshot: a record stream is loaded into a tree
//! once, and each request path is answered from it.
use vstd::prelude::*;
use vstd::slice::slice_subrange;
use crate::address::well_formed;
use crate::address::HexAddress;
use crate::combine::stream_failure;
use crate::error::GpwError;
use crate::number::hex_of;
use crate::number::parse_hex;
use crate::record::decode;
use crate::record::records_of;
use crate::record::Decoded;
use crate::record::Record;
use crate::tree::placed;
use crate::tree::reduced;
use crate::tree::AggregationTree;

verus! {

/// A floor above every resolution: a tree with this floor never compacts.
pub const NO_COMPACTION: u8 = 255;

/// The byte `/`.
pub const CH_SLASH: u8 = 47;

/// The map that placing the records one after another makes of the empty map.
pub open spec fn loaded(recs: Seq<Record>) -> Map<u64, u32>
    decreases recs.len(),
{
    if recs.len() == 0 {
        Map::empty()
    } else {
        placed(loaded(recs.drop_last()), recs.last().address, recs.last().value)
    }
}

/// The key that a request path asks for: the path without its leading slash,
/// read as a hexadecimal number that is the well-formed key of a cell.
pub open spec fn path_key(path: Seq<u8>) -> Option<u64> {
    if path.len() > 0 && path[0] == CH_SLASH {
        match hex_of(path.skip(1)) {
            Some(raw) => if well_formed(raw) {
                Some(raw)
            } else {
                None
            },
            None => None,
        }
    } else {
        None
    }
}

/// Loads a snapshot from its record stream. The records are placed one after
/// another, without compaction; a stream that ends inside a record or holds
/// a key that is no well-formed cell gives no snapshot.
pub fn deserialize_hexmap(src: &[u8]) -> (r: Result<AggregationTree, GpwError>)
    ensures
        match r {
            Ok(tree) => stream_failure(src@, 0) is None && tree@ == loaded(records_of(src@))
                && tree.wf() && tree.floor() == NO_COMPACTION,
            Err(e) => stream_failure(src@, 0) == Some(e),
        },
{
    let mut tree = AggregationTree::new(NO_COMPACTION);
    let n: usize = src.len();
    let mut at: usize = 0;
    let ghost all = records_of(src@);
    let ghost mut count: int = 0;
    assert(all.subrange(0, 0) =~= Seq::empty());
    loop
        invariant
            n == src@.len(),
            at <= n,
            at == 12 * count,
            0 <= count <= all.len(),
            all == records_of(src@),
            tree.wf(),
            tree.floor() == NO_COMPACTION,
            stream_failure(src@, 0) == stream_failure(src@, at as int),
            tree@ == loaded(all.subrange(0, count)),
        decreases n - at,
    {
        match decode(src, at) {
            Decoded::EndOfStream => {
                proof {
                    assert(all.subrange(0, count) =~= all);
                }
                return Ok(tree);
            },
            Decoded::CorruptStream => {
                return Err(GpwError::MalformedRecordStream);
            },
            Decoded::Record(rec) => {
                let cell = match HexAddress::from_raw(rec.address) {
                    Ok(cell) => cell,
                    Err(e) => {
                        return Err(e);
                    },
                };
                tree.place(cell, rec.value);
                proof {
                    let next = all.subrange(0, count + 1);
                    assert(next.drop_last() =~= all.subrange(0, count));
                    assert(next.last() == rec);
                    count = count + 1;
                }
                at += 12;
            },
        }
    }
}

/// The cell that a request path asks for, if it asks for one.
pub fn parse_path(path: &[u8]) -> (r: Option<HexAddress>)
    ensures
        match r {
            Some(cell) => path_key(path@) == Some(cell@),
            None => path_key(path@) is None,
        },
{
    if path.len() == 0 || path[0] != CH_SLASH {
        return None;
    }
    let rest = slice_subrange(path, 1, path.len());
    assert(rest@ =~= path@.skip(1));
    match parse_hex(rest) {
        None => None,
        Some(raw) => match HexAddress::from_raw(raw) {
            Ok(cell) => Some(cell),
            Err(_) => None,
        },
    }
}

/// Answers a request: the population for the cell that `path` asks for, at
/// whatever granularity the snapshot holds it, or `None` where the path asks
/// for no cell or the snapshot holds nothing for it.
pub fn population<F: Fn(Vec<u32>) -> u32>(tree: &AggregationTree, path: &[u8], sum: &F) -> (r:
    Option<u32>)
    requires
        tree.wf(),
        forall|vals: Vec<u32>| vals@.len() > 0 ==> call_requires(sum, (vals,)),
    ensures
        match path_key(path@) {
            Some(key) => reduced(tree@, key, r, *sum),
            None => r is None,
        },
{
    match parse_path(path) {
        Some(cell) => tree.reduce(cell, sum),
        None => None,
    }
}

} // verus!
