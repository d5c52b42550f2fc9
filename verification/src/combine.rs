//! Building one aggregation tree from record streams and writing out its
//! frontier.
use vstd::prelude::*;
use crate::address::resolution;
use crate::address::well_formed;
use crate::address::HexAddress;
use crate::error::GpwError;
use crate::record::decode;
use crate::record::decoding;
use crate::record::encode_stream;
use crate::record::records_of;
use crate::record::stream_of;
use crate::record::Decoded;
use crate::record::Record;
use crate::tree::inserted;
use crate::tree::is_frontier;
use crate::tree::lemma_floor_respected;
use crate::tree::lemma_frontier_kept;
use crate::tree::lists;
use crate::tree::AggregationTree;

verus! {

/// The first thing wrong with the stream `s` from `at` on, if anything is:
/// a record whose key is no well-formed cell, or an end inside a record.
pub open spec fn stream_failure(s: Seq<u8>, at: int) -> Option<GpwError>
    decreases s.len() - at,
{
    if at >= s.len() {
        None
    } else if s.len() - at < 12 {
        Some(GpwError::MalformedRecordStream)
    } else {
        let rec = decoding(s.subrange(at, at + 12));
        if !well_formed(rec.address) {
            Some(GpwError::InvalidAddress(rec.address))
        } else {
            stream_failure(s, at + 12)
        }
    }
}

/// The first thing wrong with the streams, taken in their order.
pub open spec fn first_failure(sources: Seq<Vec<u8>>) -> Option<GpwError>
    decreases sources.len(),
{
    if sources.len() == 0 {
        None
    } else {
        match first_failure(sources.drop_last()) {
            Some(e) => Some(e),
            None => stream_failure(sources.last()@, 0),
        }
    }
}

/// The records of the streams, stream after stream.
pub open spec fn source_records(sources: Seq<Vec<u8>>) -> Seq<Record>
    decreases sources.len(),
{
    if sources.len() == 0 {
        seq![]
    } else {
        source_records(sources.drop_last()) + records_of(sources.last()@)
    }
}

/// Whether inserting the records one after another, with the floor `floor`,
/// leads from `pre` to `post`.
pub open spec fn grown<F: Fn(Vec<u32>) -> u32>(
    pre: Map<u64, u32>,
    recs: Seq<Record>,
    floor: u8,
    post: Map<u64, u32>,
    sum: F,
) -> bool
    decreases recs.len(),
{
    if recs.len() == 0 {
        post == pre
    } else {
        exists|mid: Map<u64, u32>|
            grown(pre, recs.drop_last(), floor, mid, sum) && #[trigger] inserted(
                mid,
                recs.last().address,
                recs.last().value,
                floor,
                post,
                sum,
            )
    }
}

/// Whether `out` is the record stream of the frontier of a tree grown from
/// the empty tree by the records, with the floor `floor`. The order of the
/// records in `out` is left open.
pub open spec fn combined<F: Fn(Vec<u32>) -> u32>(
    recs: Seq<Record>,
    floor: u8,
    out: Seq<u8>,
    sum: F,
) -> bool {
    exists|m: Map<u64, u32>, frontier: Seq<Record>| #[trigger]
        lists(frontier, m) && is_frontier(m) && grown(Map::empty(), recs, floor, m, sum) && out
            == stream_of(frontier)
}

/// Growing by one run of records and then by another is growing by the two
/// runs joined.
pub proof fn lemma_grown_concat<F: Fn(Vec<u32>) -> u32>(
    pre: Map<u64, u32>,
    a: Seq<Record>,
    mid: Map<u64, u32>,
    b: Seq<Record>,
    floor: u8,
    post: Map<u64, u32>,
    sum: F,
)
    requires
        grown(pre, a, floor, mid, sum),
        grown(mid, b, floor, post, sum),
    ensures
        grown(pre, a + b, floor, post, sum),
    decreases b.len(),
{
    if b.len() == 0 {
        assert(a + b =~= a);
    } else {
        let last = choose|last: Map<u64, u32>|
            grown(mid, b.drop_last(), floor, last, sum) && #[trigger] inserted(
                last,
                b.last().address,
                b.last().value,
                floor,
                post,
                sum,
            );
        lemma_grown_concat(pre, a, mid, b.drop_last(), floor, last, sum);
        assert((a + b).drop_last() =~= a + b.drop_last());
        assert((a + b).last() == b.last());
    }
}

/// Growing a frontier by records with well-formed keys gives a frontier.
pub proof fn lemma_grown_frontier<F: Fn(Vec<u32>) -> u32>(
    pre: Map<u64, u32>,
    recs: Seq<Record>,
    floor: u8,
    post: Map<u64, u32>,
    sum: F,
)
    requires
        is_frontier(pre),
        forall|i: int| 0 <= i < recs.len() ==> well_formed((#[trigger] recs[i]).address),
        grown(pre, recs, floor, post, sum),
    ensures
        is_frontier(post),
    decreases recs.len(),
{
    if recs.len() > 0 {
        let mid = choose|mid: Map<u64, u32>|
            grown(pre, recs.drop_last(), floor, mid, sum) && #[trigger] inserted(
                mid,
                recs.last().address,
                recs.last().value,
                floor,
                post,
                sum,
            );
        assert forall|i: int| 0 <= i < recs.drop_last().len() implies well_formed(
            (#[trigger] recs.drop_last()[i]).address,
        ) by {
            assert(recs.drop_last()[i] == recs[i]);
        }
        lemma_grown_frontier(pre, recs.drop_last(), floor, mid, sum);
        lemma_frontier_kept(
            mid,
            recs.last().address,
            recs.last().value,
            floor,
            post,
            sum,
        );
    }
}

/// A tree grown from records that are all at the floor or finer holds
/// nothing coarser than the floor, whichever sibling sets were completed on
/// the way.
pub proof fn lemma_grown_floor<F: Fn(Vec<u32>) -> u32>(
    pre: Map<u64, u32>,
    recs: Seq<Record>,
    floor: u8,
    post: Map<u64, u32>,
    sum: F,
)
    requires
        is_frontier(pre),
        forall|k: u64| #[trigger] pre.dom().contains(k) ==> resolution(k) >= floor,
        forall|i: int|
            0 <= i < recs.len() ==> well_formed((#[trigger] recs[i]).address) && resolution(
                recs[i].address,
            ) >= floor,
        grown(pre, recs, floor, post, sum),
    ensures
        forall|k: u64| #[trigger] post.dom().contains(k) ==> resolution(k) >= floor,
    decreases recs.len(),
{
    if recs.len() > 0 {
        let mid = choose|mid: Map<u64, u32>|
            grown(pre, recs.drop_last(), floor, mid, sum) && #[trigger] inserted(
                mid,
                recs.last().address,
                recs.last().value,
                floor,
                post,
                sum,
            );
        assert forall|i: int| 0 <= i < recs.drop_last().len() implies well_formed(
            (#[trigger] recs.drop_last()[i]).address,
        ) && resolution(recs.drop_last()[i].address) >= floor by {
            assert(recs.drop_last()[i] == recs[i]);
        }
        lemma_grown_frontier(pre, recs.drop_last(), floor, mid, sum);
        lemma_grown_floor(pre, recs.drop_last(), floor, mid, sum);
        lemma_floor_respected(
            mid,
            recs.last().address,
            recs.last().value,
            floor,
            post,
            sum,
        );
    }
}

/// Inserts the records of `stream` into `tree`, one after another, and stops
/// at the first thing wrong with the stream.
pub fn ingest<F: Fn(Vec<u32>) -> u32>(tree: &mut AggregationTree, stream: &[u8], sum: &F) -> (r:
    Result<(), GpwError>)
    requires
        old(tree).wf(),
        forall|vals: Vec<u32>| vals@.len() == 7 ==> call_requires(sum, (vals,)),
    ensures
        final(tree).wf(),
        final(tree).floor() == old(tree).floor(),
        match r {
            Ok(_) => stream_failure(stream@, 0) is None && grown(
                old(tree)@,
                records_of(stream@),
                old(tree).floor(),
                final(tree)@,
                *sum,
            ),
            Err(e) => stream_failure(stream@, 0) == Some(e),
        },
{
    let n: usize = stream.len();
    let mut at: usize = 0;
    let ghost all = records_of(stream@);
    let ghost mut count: int = 0;
    assert(all.subrange(0, 0) =~= Seq::empty());
    loop
        invariant
            n == stream@.len(),
            at <= n,
            at == 12 * count,
            0 <= count <= all.len(),
            all == records_of(stream@),
            tree.wf(),
            tree.floor() == old(tree).floor(),
            forall|vals: Vec<u32>| vals@.len() == 7 ==> call_requires(sum, (vals,)),
            stream_failure(stream@, 0) == stream_failure(stream@, at as int),
            grown(old(tree)@, all.subrange(0, count), tree.floor(), tree@, *sum),
        decreases n - at,
    {
        match decode(stream, at) {
            Decoded::EndOfStream => {
                proof {
                    assert(all.subrange(0, count) =~= all);
                }
                return Ok(());
            },
            Decoded::CorruptStream => {
                return Err(GpwError::MalformedRecordStream);
            },
            Decoded::Record(rec) => {
                let cell = match HexAddress::from_raw(rec.address) {
                    Ok(cell) => cell,
                    Err(e) => {
                        return Err(e);
                    },
                };
                let ghost before = tree@;
                tree.insert(cell, rec.value, sum);
                proof {
                    let next = all.subrange(0, count + 1);
                    assert(next.drop_last() =~= all.subrange(0, count));
                    assert(next.last() == rec);
                    assert(grown(old(tree)@, next.drop_last(), tree.floor(), before, *sum));
                    count = count + 1;
                }
                at += 12;
            },
        }
    }
}

/// Builds one tree with the floor `resolution` from the records of all
/// `sources`, in their order, and gives the record stream of its frontier.
/// Nothing is given where a source is malformed or holds a key that is no
/// well-formed cell.
pub fn combine<F: Fn(Vec<u32>) -> u32>(resolution: u8, sources: &Vec<Vec<u8>>, sum: &F) -> (r:
    Result<Vec<u8>, GpwError>)
    requires
        forall|vals: Vec<u32>| vals@.len() == 7 ==> call_requires(sum, (vals,)),
    ensures
        match r {
            Ok(out) => first_failure(sources@) is None && combined(
                source_records(sources@),
                resolution,
                out@,
                *sum,
            ),
            Err(e) => first_failure(sources@) == Some(e),
        },
{
    let mut tree = AggregationTree::new(resolution);
    let mut i: usize = 0;
    assert(sources@.subrange(0, 0) =~= Seq::empty());
    while i < sources.len()
        invariant
            0 <= i <= sources@.len(),
            tree.wf(),
            tree.floor() == resolution,
            forall|vals: Vec<u32>| vals@.len() == 7 ==> call_requires(sum, (vals,)),
            first_failure(sources@.subrange(0, i as int)) is None,
            grown(
                Map::empty(),
                source_records(sources@.subrange(0, i as int)),
                resolution,
                tree@,
                *sum,
            ),
        decreases sources@.len() - i,
    {
        let ghost before = tree@;
        let ghost done = sources@.subrange(0, i as int);
        let ghost next = sources@.subrange(0, i + 1);
        proof {
            assert(next.drop_last() =~= done);
            assert(next.last() == sources@[i as int]);
        }
        match ingest(&mut tree, sources[i].as_slice(), sum) {
            Ok(_) => {
                proof {
                    lemma_grown_concat(
                        Map::empty(),
                        source_records(done),
                        before,
                        records_of(sources@[i as int]@),
                        resolution,
                        tree@,
                        *sum,
                    );
                }
            },
            Err(e) => {
                proof {
                    lemma_failure_stays(sources@, i + 1);
                }
                return Err(e);
            },
        }
        i += 1;
    }
    assert(sources@.subrange(0, i as int) =~= sources@);
    let recs = tree.entries();
    Ok(encode_stream(&recs))
}

/// A failure among the first `k` streams is the failure of them all.
pub proof fn lemma_failure_stays(sources: Seq<Vec<u8>>, k: int)
    requires
        0 <= k <= sources.len(),
        first_failure(sources.subrange(0, k)) is Some,
    ensures
        first_failure(sources) == first_failure(sources.subrange(0, k)),
    decreases sources.len() - k,
{
    if k < sources.len() {
        assert(sources.subrange(0, k + 1).drop_last() =~= sources.subrange(0, k));
        lemma_failure_stays(sources, k + 1);
    } else {
        assert(sources.subrange(0, k) =~= sources);
    }
}

} // verus!
