//! The aggregation tree: a map from cells of mixed resolutions to values in
//! which no cell is another's ancestor. Seven sibling cells that are all
//! present are replaced by their parent, whose value is their sum, as long as
//! the parent is not coarser than the floor resolution.
//!
//! A value is carried as the bit pattern of a single-precision number. The
//! tree never adds two values itself: whoever fills it hands it the function
//! that sums a list of values.
use vstd::prelude::*;
use hextree::compaction::NullCompactor;
use hextree::Cell;
use hextree::HexTreeMap;
use crate::address::child;
use crate::address::covers;
use crate::address::lemma_child;
use crate::address::lemma_covered_by_child;
use crate::address::lemma_covers_order;
use crate::address::lemma_parent;
use crate::address::lemma_parent_resolution;
use crate::address::lemma_resolution_bound;
use crate::address::parent;
use crate::address::related;
use crate::address::resolution;
use crate::address::well_formed;
use crate::address::HexAddress;
use crate::record::Record;

verus! {

/// `hextree::HexTreeMap`, the store behind the aggregation tree. Nothing is
/// seen of its inside; what it holds goes by the name `tree_entries`.
#[verifier::external_type_specification]
#[verifier::external_body]
#[verifier::reject_recursive_types(V)]
#[verifier::reject_recursive_types(C)]
pub struct ExHexTreeMap<V, C>(HexTreeMap<V, C>);

/// `hextree::compaction::NullCompactor`, with which a `HexTreeMap` leaves
/// its leaves as they are.
#[verifier::external_type_specification]
#[verifier::external_body]
pub struct ExNullCompactor(NullCompactor);

/// What a `hextree::HexTreeMap` holds: the key of each of its leaf cells,
/// as `iter` gives it, with the value stored there.
pub uninterp spec fn tree_entries(m: HexTreeMap<u32, NullCompactor>) -> Map<u64, u32>;

/// Whether every key is well formed and none covers another.
pub open spec fn is_frontier(m: Map<u64, u32>) -> bool {
    &&& forall|k: u64| m.dom().contains(k) ==> well_formed(k)
    &&& forall|a: u64, b: u64|
        m.dom().contains(a) && m.dom().contains(b) && covers(a, b) ==> a == b
}

/// Whether `m` holds `c` or an ancestor of `c`.
pub open spec fn has_cover(m: Map<u64, u32>, c: u64) -> bool {
    exists|k: u64| m.dom().contains(k) && covers(k, c)
}

/// Whether `m` holds an ancestor of `c`.
pub open spec fn has_ancestor(m: Map<u64, u32>, c: u64) -> bool {
    exists|k: u64| m.dom().contains(k) && covers(k, c) && k != c
}

/// `m` with `c` in the place of whatever `c` covers.
pub open spec fn overlaid(m: Map<u64, u32>, c: u64, v: u32) -> Map<u64, u32> {
    Map::new(
        |k: u64| k == c || (m.dom().contains(k) && !covers(c, k)),
        |k: u64|
            if k == c {
                v
            } else {
                m[k]
            },
    )
}

/// What placing `v` at `c` makes of `m`: nothing new under an ancestor of
/// `c`; otherwise `c` takes the place of whatever it covers.
pub open spec fn placed(m: Map<u64, u32>, c: u64, v: u32) -> Map<u64, u32> {
    if has_ancestor(m, c) {
        m
    } else {
        overlaid(m, c, v)
    }
}

/// Whether all seven children of `p` are keys of `m`.
pub open spec fn siblings_complete(m: Map<u64, u32>, p: u64) -> bool {
    forall|d: u64| 0 <= d < 7 ==> m.dom().contains(#[trigger] child(p, d))
}

/// The values of the seven children of `p`, in the order of their digits.
pub open spec fn child_values(m: Map<u64, u32>, p: u64) -> Seq<u32> {
    Seq::new(7, |d: int| m[child(p, d as u64)])
}

/// Whether the siblings of `c`, a key of `m`, can be replaced by their
/// parent: the parent is not coarser than the floor, and all seven are there.
pub open spec fn can_merge(m: Map<u64, u32>, c: u64, floor: u8) -> bool {
    &&& resolution(c) > 0
    &&& resolution(c) - 1 >= floor
    &&& siblings_complete(m, parent(c, (resolution(c) - 1) as u64))
}

/// Whether `v` is what `sum` may give for the values `vals`.
pub open spec fn sums_to<F: Fn(Vec<u32>) -> u32>(sum: F, vals: Seq<u32>, v: u32) -> bool {
    exists|args: Vec<u32>| args@ == vals && call_ensures(sum, (args,), v)
}

/// Whether merging upwards from `c`, a key of `m`, for as long as siblings
/// can be replaced by their parent, leads from `m` to `post`.
pub open spec fn settles<F: Fn(Vec<u32>) -> u32>(
    m: Map<u64, u32>,
    c: u64,
    floor: u8,
    post: Map<u64, u32>,
    sum: F,
) -> bool
    decreases resolution(c),
{
    if can_merge(m, c, floor) {
        let p = parent(c, (resolution(c) - 1) as u64);
        proof {
            lemma_parent_resolution(c, (resolution(c) - 1) as u64);
        }
        exists|v: u32| #[trigger]
            sums_to(sum, child_values(m, p), v) && settles(overlaid(m, p, v), p, floor, post, sum)
    } else {
        post == m
    }
}

/// Whether inserting `v` at `c` with the floor `floor` leads from `pre` to
/// `post`.
pub open spec fn inserted<F: Fn(Vec<u32>) -> u32>(
    pre: Map<u64, u32>,
    c: u64,
    v: u32,
    floor: u8,
    post: Map<u64, u32>,
    sum: F,
) -> bool {
    if has_ancestor(pre, c) {
        post == pre
    } else {
        settles(overlaid(pre, c, v), c, floor, post, sum)
    }
}

/// `HexTreeMap::new`: a map without entries.
#[verifier::external_body]
fn tree_new() -> (m: HexTreeMap<u32, NullCompactor>)
    ensures
        tree_entries(m) =~= map![],
{
    HexTreeMap::new()
}

/// `HexTreeMap::insert` on a map that does not compact. Under a leaf that is
/// an ancestor of `cell` nothing changes; otherwise `cell` becomes a leaf
/// with `value`, in the place of every leaf that it covers. Only well-formed
/// keys are handed to it: the map finds its way by the base cell and the
/// digits, and has no place for a base cell from 122 on or for a digit of 7.
#[verifier::external_body]
fn tree_insert(m: &mut HexTreeMap<u32, NullCompactor>, cell: u64, value: u32)
    requires
        well_formed(cell),
    ensures
        tree_entries(*final(m)) == placed(tree_entries(*old(m)), cell, value),
{
    m.insert(Cell::from_raw(cell).unwrap(), value)
}

/// `HexTreeMap::get`: the leaf that is `cell` or an ancestor of it, with its
/// value; `None` where there is no such leaf. Only well-formed keys are
/// handed to it, as to `insert`.
#[verifier::external_body]
fn tree_get(m: &HexTreeMap<u32, NullCompactor>, cell: u64) -> (r: Option<(u64, u32)>)
    requires
        well_formed(cell),
    ensures
        match r {
            Some((k, v)) => tree_entries(*m).contains_pair(k, v) && covers(k, cell),
            None => !has_cover(tree_entries(*m), cell),
        },
{
    m.get(Cell::from_raw(cell).unwrap()).map(|(k, v)| (k.into_raw(), *v))
}

/// In a frontier without an ancestor of `c`, `c` can take the place of what
/// it covers.
pub proof fn lemma_overlaid_frontier(m: Map<u64, u32>, c: u64, v: u32)
    requires
        is_frontier(m),
        well_formed(c),
        !has_ancestor(m, c),
    ensures
        is_frontier(overlaid(m, c, v)),
        overlaid(m, c, v).dom().contains(c),
{
    let n = overlaid(m, c, v);
    assert forall|a: u64, b: u64|
        n.dom().contains(a) && n.dom().contains(b) && covers(a, b) implies a == b by {
        if a != c && b == c {
            assert(m.dom().contains(a) && covers(a, c) && a != c);
        }
    }
}

/// The seven children of `p`.
pub open spec fn children_of(p: u64) -> Set<u64> {
    Set::new(|k: u64| exists|d: u64| 0 <= d < 7 && k == child(p, d))
}

/// In a frontier that holds all seven children of `p`, nothing else is
/// covered by `p` and `p` has no ancestor: placing a value at `p` replaces
/// the seven by the one.
pub proof fn lemma_merge_replaces_children(m: Map<u64, u32>, p: u64, v: u32)
    requires
        is_frontier(m),
        well_formed(p),
        resolution(p) < 15,
        siblings_complete(m, p),
    ensures
        !has_ancestor(m, p),
        !m.dom().contains(p),
        placed(m, p, v) == overlaid(m, p, v),
        overlaid(m, p, v) == m.remove_keys(children_of(p)).insert(p, v),
        is_frontier(overlaid(m, p, v)),
{
    let first = child(p, 0);
    lemma_child(p, 0);
    assert(m.dom().contains(first));
    assert forall|k: u64| m.dom().contains(k) && covers(k, p) implies false by {
        lemma_covers_order(k, p, first);
        assert(covers(k, first));
    }
    assert forall|k: u64| m.dom().contains(k) implies (covers(p, k) <==> children_of(p).contains(
        k,
    )) by {
        if covers(p, k) {
            lemma_covered_by_child(p, k);
            let d = crate::address::digit(k, (resolution(p) + 1) as u64);
            assert(m.dom().contains(child(p, d)));
        }
        if children_of(p).contains(k) {
            let d = choose|d: u64| 0 <= d < 7 && k == child(p, d);
            lemma_child(p, d);
        }
    }
    assert(overlaid(m, p, v) =~= m.remove_keys(children_of(p)).insert(p, v));
    lemma_overlaid_frontier(m, p, v);
}

/// The rule of compaction: a parent at a resolution not coarser than
/// `resolution` whose seven children are all present takes their sum.
#[derive(Clone, Copy, Debug, PartialEq, Eq, Structural)]
pub struct SummationCompactor {
    pub resolution: u8,
}

/// Whether all seven children are present.
pub open spec fn all_present(children: Seq<Option<u32>>) -> bool {
    children.len() == 7 && forall|i: int| 0 <= i < 7 ==> (#[trigger] children[i]) is Some
}

/// The values of the children that are present, a zero standing for each
/// that is missing.
pub open spec fn present_values(children: Seq<Option<u32>>) -> Seq<u32> {
    Seq::new(
        children.len(),
        |i: int|
            match children[i] {
                Some(v) => v,
                None => 0,
            },
    )
}

impl SummationCompactor {
    /// The value of a parent at resolution `res` with the given children, in
    /// the order of their digits, or `None` where the parent is not to be
    /// made: it is coarser than the floor, or a child is missing.
    pub fn compact<F: Fn(Vec<u32>) -> u32>(
        &self,
        res: u8,
        children: &[Option<u32>; 7],
        sum: &F,
    ) -> (r: Option<u32>)
        requires
            forall|vals: Vec<u32>| vals@.len() == 7 ==> call_requires(sum, (vals,)),
        ensures
            match r {
                Some(v) => res >= self.resolution && all_present(children@) && sums_to(
                    *sum,
                    present_values(children@),
                    v,
                ),
                None => res < self.resolution || !all_present(children@),
            },
    {
        if res < self.resolution {
            return None;
        }
        let mut vals: Vec<u32> = Vec::new();
        let mut i: usize = 0;
        while i < 7
            invariant
                0 <= i <= 7,
                vals@.len() == i,
                forall|j: int| 0 <= j < i ==> (#[trigger] children@[j]) == Some(vals@[j]),
            decreases 7 - i,
        {
            match children[i] {
                Some(v) => {
                    vals.push(v);
                },
                None => {
                    return None;
                },
            }
            i += 1;
        }
        assert(vals@ =~= present_values(children@));
        let ghost args = vals;
        let v = sum(vals);
        assert(call_ensures(*sum, (args,), v));
        Some(v)
    }
}

/// A frontier of cells with their values, and the rule by which it compacts.
pub struct AggregationTree {
    map: HexTreeMap<u32, NullCompactor>,
    compactor: SummationCompactor,
}

impl View for AggregationTree {
    type V = Map<u64, u32>;

    closed spec fn view(&self) -> Map<u64, u32> {
        tree_entries(self.map)
    }
}

impl AggregationTree {
    /// The floor: no parent coarser than this is made by compaction.
    pub closed spec fn floor(&self) -> u8 {
        self.compactor.resolution
    }

    /// The stored cells are well formed and none is another's ancestor.
    pub open spec fn wf(&self) -> bool {
        is_frontier(self@)
    }

    /// An empty tree with the given floor.
    pub fn new(floor: u8) -> (t: Self)
        ensures
            t@ =~= map![],
            t.floor() == floor,
            t.wf(),
    {
        AggregationTree { map: tree_new(), compactor: SummationCompactor { resolution: floor } }
    }

    /// The stored cell that is `cell` or an ancestor of it, with its value.
    pub fn get(&self, cell: HexAddress) -> (r: Option<(HexAddress, u32)>)
        requires
            self.wf(),
        ensures
            match r {
                Some((k, v)) => self@.contains_pair(k@, v) && covers(k@, cell@),
                None => !has_cover(self@, cell@),
            },
    {
        match tree_get(&self.map, cell.raw()) {
            Some((k, v)) => Some((HexAddress::from_key(k), v)),
            None => None,
        }
    }

    /// The value stored at `cell` itself.
    pub fn lookup(&self, cell: HexAddress) -> (r: Option<u32>)
        requires
            self.wf(),
        ensures
            r == (if self@.dom().contains(cell@) {
                Some(self@[cell@])
            } else {
                None
            }),
    {
        proof {
            lemma_covers_order(cell@, cell@, cell@);
        }
        match tree_get(&self.map, cell.raw()) {
            Some((k, v)) => {
                if k == cell.raw() {
                    Some(v)
                } else {
                    None
                }
            },
            None => None,
        }
    }

    /// Places `value` at `cell` without compacting: under a stored ancestor
    /// nothing changes; otherwise `cell` replaces whatever it covers.
    pub fn place(&mut self, cell: HexAddress, value: u32)
        requires
            old(self).wf(),
        ensures
            final(self).wf(),
            final(self).floor() == old(self).floor(),
            final(self)@ == placed(old(self)@, cell@, value),
    {
        let key = cell.raw();
        proof {
            if !has_ancestor(self@, cell@) {
                lemma_overlaid_frontier(self@, cell@, value);
            }
        }
        tree_insert(&mut self.map, key, value);
    }
}

impl AggregationTree {
    /// The values stored at the seven children of `p`, in the order of their
    /// digits, with `None` for each child that is not stored.
    fn children(&self, p: HexAddress) -> (r: [Option<u32>; 7])
        requires
            self.wf(),
            resolution(p@) < 15,
        ensures
            all_present(r@) <==> siblings_complete(self@, p@),
            all_present(r@) ==> present_values(r@) == child_values(self@, p@),
    {
        let mut out: [Option<u32>; 7] = [None, None, None, None, None, None, None];
        let mut d: u8 = 0;
        proof {
            use_type_invariant(&p);
        }
        while d < 7
            invariant
                0 <= d <= 7,
                self.wf(),
                p.wf(),
                resolution(p@) < 15,
                forall|i: int|
                    0 <= i < d ==> (#[trigger] out@[i]) == (if self@.dom().contains(
                        child(p@, i as u64),
                    ) {
                        Some(self@[child(p@, i as u64)])
                    } else {
                        None
                    }),
            decreases 7 - d,
        {
            let c = match p.child(d) {
                Some(c) => c,
                None => {
                    return out;
                },
            };
            let found: Option<u32> = match tree_get(&self.map, c.raw()) {
                Some((k, v)) => {
                    if k == c.raw() {
                        Some(v)
                    } else {
                        None
                    }
                },
                None => {
                    proof {
                        lemma_covers_order(c@, c@, c@);
                    }
                    None
                },
            };
            out[d as usize] = found;
            d += 1;
        }
        proof {
            if all_present(out@) {
                assert forall|e: u64| 0 <= e < 7 implies self@.dom().contains(
                    #[trigger] child(p@, e),
                ) by {
                    assert(out@[e as int] is Some);
                }
                assert(present_values(out@) =~= child_values(self@, p@));
            }
            if siblings_complete(self@, p@) {
                assert forall|i: int| 0 <= i < 7 implies (#[trigger] out@[i]) is Some by {
                    assert(self@.dom().contains(child(p@, i as u64)));
                }
            }
        }
        out
    }

    /// Inserts `value` at `cell` and compacts upwards. Under a stored
    /// ancestor nothing changes. Otherwise `cell` replaces whatever it
    /// covers; then, for as long as the cell just stored has all its six
    /// siblings beside it and their parent is not coarser than the floor,
    /// the seven are replaced by the parent with `sum` of their values.
    pub fn insert<F: Fn(Vec<u32>) -> u32>(&mut self, cell: HexAddress, value: u32, sum: &F)
        requires
            old(self).wf(),
            forall|vals: Vec<u32>| vals@.len() == 7 ==> call_requires(sum, (vals,)),
        ensures
            final(self).wf(),
            final(self).floor() == old(self).floor(),
            inserted(old(self)@, cell@, value, old(self).floor(), final(self)@, *sum),
            forall|k: u64| #[trigger]
                final(self)@.dom().contains(k) ==> old(self)@.dom().contains(k) || k == cell@
                    || resolution(k) >= old(self).floor(),
    {
        let key = cell.raw();
        match tree_get(&self.map, key) {
            Some((k, _)) => {
                if k != key {
                    return;
                }
            },
            None => {},
        }
        proof {
            lemma_overlaid_frontier(self@, cell@, value);
        }
        tree_insert(&mut self.map, key, value);
        let ghost start = self@;
        let mut cur = cell;
        loop
            invariant
                self.wf(),
                self@.dom().contains(cur@),
                self.floor() == old(self).floor(),
                !has_ancestor(old(self)@, cell@),
                start == overlaid(old(self)@, cell@, value),
                forall|vals: Vec<u32>| vals@.len() == 7 ==> call_requires(sum, (vals,)),
                forall|post: Map<u64, u32>| #[trigger]
                    settles(self@, cur@, self.floor(), post, *sum) ==> settles(
                        start,
                        cell@,
                        self.floor(),
                        post,
                        *sum,
                    ),
                forall|k: u64| #[trigger]
                    self@.dom().contains(k) ==> old(self)@.dom().contains(k) || k == cell@
                        || resolution(k) >= self.floor(),
            decreases resolution(cur@),
        {
            let r = cur.resolution();
            if r == 0 {
                proof {
                    assert(!can_merge(self@, cur@, self.floor()));
                    assert(settles(self@, cur@, self.floor(), self@, *sum));
                }
                return;
            }
            let p = match cur.parent(r - 1) {
                Some(p) => p,
                None => {
                    return;
                },
            };
            proof {
                lemma_parent(cur@, (r - 1) as u64);
            }
            let kids = self.children(p);
            match self.compactor.compact(r - 1, &kids, sum) {
                None => {
                    proof {
                        assert(!can_merge(self@, cur@, self.floor()));
                        assert(settles(self@, cur@, self.floor(), self@, *sum));
                    }
                    return;
                },
                Some(v) => {
                    let ghost before = self@;
                    proof {
                        lemma_merge_replaces_children(before, p@, v);
                        assert forall|post: Map<u64, u32>| #[trigger]
                            settles(overlaid(before, p@, v), p@, self.floor(), post, *sum)
                            implies settles(before, cur@, self.floor(), post, *sum) by {
                            assert(sums_to(*sum, child_values(before, p@), v));
                        }
                    }
                    tree_insert(&mut self.map, p.raw(), v);
                    cur = p;
                },
            }
        }
    }
}

/// Whether `recs` lists the entries of `m`: each record is an entry, no cell
/// comes twice, and no entry is left out. The order is left open.
pub open spec fn lists(recs: Seq<Record>, m: Map<u64, u32>) -> bool {
    &&& forall|i: int|
        0 <= i < recs.len() ==> m.contains_pair((#[trigger] recs[i]).address, recs[i].value)
    &&& forall|i: int, j: int|
        0 <= i < j < recs.len() ==> (#[trigger] recs[i]).address != (#[trigger] recs[j]).address
    &&& forall|k: u64|
        m.dom().contains(k) ==> exists|i: int|
            0 <= i < recs.len() && (#[trigger] recs[i]).address == k
}

/// The values of the records, in their order.
pub open spec fn values_of(recs: Seq<Record>) -> Seq<u32> {
    Seq::new(recs.len(), |i: int| recs[i].value)
}

/// The entries of `m` at `c` and below.
pub open spec fn under(m: Map<u64, u32>, c: u64) -> Map<u64, u32> {
    m.restrict(Set::new(|k: u64| covers(c, k)))
}

/// The entries of `m` at `c`, above and below.
pub open spec fn around(m: Map<u64, u32>, c: u64) -> Map<u64, u32> {
    m.restrict(Set::new(|k: u64| related(k, c)))
}

/// Whether `r` answers the query for `c`: the value of the stored cell that
/// is `c` or an ancestor of `c`, as it stands; without such a cell, what
/// `sum` gives for the values stored below `c`, taken in some order; and
/// nothing where nothing is stored below `c` either.
pub open spec fn reduced<F: Fn(Vec<u32>) -> u32>(
    m: Map<u64, u32>,
    c: u64,
    r: Option<u32>,
    sum: F,
) -> bool {
    if has_cover(m, c) {
        exists|k: u64| m.dom().contains(k) && covers(k, c) && r == Some(m[k])
    } else if under(m, c).dom() =~= Set::empty() {
        r is None
    } else {
        r matches Some(v) && exists|recs: Seq<Record>| #[trigger]
            lists(recs, under(m, c)) && sums_to(sum, values_of(recs), v)
    }
}

/// `HexTreeMap::iter`, collected: every leaf once, with its value, in the
/// order in which the map walks them.
#[verifier::external_body]
fn tree_records(m: &HexTreeMap<u32, NullCompactor>) -> (recs: Vec<Record>)
    ensures
        lists(recs@, tree_entries(*m)),
{
    m.iter().map(|(k, v)| Record { address: k.into_raw(), value: *v }).collect()
}

/// `HexTreeMap::subtree_iter`, collected: the leaf that is `cell` or an
/// ancestor of it, or else every leaf below `cell`, each once with its value.
/// Only well-formed keys are handed to it, as to `insert`.
#[verifier::external_body]
fn tree_subtree(m: &HexTreeMap<u32, NullCompactor>, cell: u64) -> (recs: Vec<Record>)
    requires
        well_formed(cell),
    ensures
        lists(recs@, around(tree_entries(*m), cell)),
{
    m.subtree_iter(Cell::from_raw(cell).unwrap()).map(
        |(k, v)| Record { address: k.into_raw(), value: *v },
    ).collect()
}

/// What `sum` gives for the values of the records, or `None` where there
/// are no records.
pub fn sum_records<F: Fn(Vec<u32>) -> u32>(recs: &Vec<Record>, sum: &F) -> (r: Option<u32>)
    requires
        forall|vals: Vec<u32>| vals@.len() > 0 ==> call_requires(sum, (vals,)),
    ensures
        match r {
            Some(v) => recs@.len() > 0 && sums_to(*sum, values_of(recs@), v),
            None => recs@.len() == 0,
        },
{
    if recs.len() == 0 {
        return None;
    }
    let mut vals: Vec<u32> = Vec::new();
    let mut i: usize = 0;
    while i < recs.len()
        invariant
            0 <= i <= recs@.len(),
            vals@.len() == i,
            forall|j: int| 0 <= j < i ==> vals@[j] == recs@[j].value,
        decreases recs@.len() - i,
    {
        vals.push(recs[i].value);
        i += 1;
    }
    assert(vals@ =~= values_of(recs@));
    let ghost args = vals;
    let v = sum(vals);
    assert(call_ensures(*sum, (args,), v));
    Some(v)
}

impl AggregationTree {
    /// The stored cells with their values, each once, in no promised order.
    pub fn entries(&self) -> (recs: Vec<Record>)
        ensures
            lists(recs@, self@),
    {
        tree_records(&self.map)
    }

    /// The value for `cell` at whatever granularity is stored: that of the
    /// stored cell that is `cell` or an ancestor of it, unchanged; or the sum
    /// of what is stored below `cell`; or `None` where neither exists.
    pub fn reduce<F: Fn(Vec<u32>) -> u32>(&self, cell: HexAddress, sum: &F) -> (r: Option<u32>)
        requires
            self.wf(),
            forall|vals: Vec<u32>| vals@.len() > 0 ==> call_requires(sum, (vals,)),
        ensures
            reduced(self@, cell@, r, *sum),
    {
        match tree_get(&self.map, cell.raw()) {
            Some((_, v)) => Some(v),
            None => {
                let recs = tree_subtree(&self.map, cell.raw());
                proof {
                    assert(around(self@, cell@) =~= under(self@, cell@)) by {
                        assert forall|k: u64| self@.dom().contains(k) implies (related(k, cell@)
                            <==> covers(cell@, k)) by {}
                    }
                    if recs@.len() == 0 {
                        assert forall|k: u64| !under(self@, cell@).dom().contains(k) by {}
                    } else {
                        assert(under(self@, cell@).dom().contains(recs@[0].address));
                    }
                }
                sum_records(&recs, sum)
            },
        }
    }
}

/// A compaction replaces seven siblings by their parent, whose value is the
/// sum of theirs: where the siblings of `c` can be merged in the frontier
/// `m`, whatever merging from `c` leads to is reached from `m` with the seven
/// children removed and the parent stored with their sum; and that is where
/// it ends unless the parent can be merged in turn.
pub proof fn lemma_conservation<F: Fn(Vec<u32>) -> u32>(
    m: Map<u64, u32>,
    c: u64,
    floor: u8,
    post: Map<u64, u32>,
    sum: F,
)
    requires
        is_frontier(m),
        m.dom().contains(c),
        can_merge(m, c, floor),
        settles(m, c, floor, post, sum),
    ensures
        ({
            let p = parent(c, (resolution(c) - 1) as u64);
            exists|s: u32| #[trigger]
                sums_to(sum, child_values(m, p), s) && {
                    let n = m.remove_keys(children_of(p)).insert(p, s);
                    &&& settles(n, p, floor, post, sum)
                    &&& !can_merge(n, p, floor) ==> post == n
                }
        }),
{
    let p = parent(c, (resolution(c) - 1) as u64);
    lemma_resolution_bound(c);
    lemma_parent(c, (resolution(c) - 1) as u64);
    let s = choose|s: u32| #[trigger]
        sums_to(sum, child_values(m, p), s) && settles(overlaid(m, p, s), p, floor, post, sum);
    lemma_merge_replaces_children(m, p, s);
}

/// Whether `sum` gives one value for each list of values.
pub open spec fn single_valued<F: Fn(Vec<u32>) -> u32>(sum: F) -> bool {
    forall|a: Vec<u32>, b: Vec<u32>, v: u32, w: u32|
        a@ == b@ && #[trigger] call_ensures(sum, (a,), v) && #[trigger] call_ensures(sum, (b,), w)
            ==> v == w
}

/// With a sum that gives one value for each list, merging upwards leads to
/// one tree.
pub proof fn lemma_settles_once<F: Fn(Vec<u32>) -> u32>(
    m: Map<u64, u32>,
    c: u64,
    floor: u8,
    one: Map<u64, u32>,
    other: Map<u64, u32>,
    sum: F,
)
    requires
        single_valued(sum),
        settles(m, c, floor, one, sum),
        settles(m, c, floor, other, sum),
    ensures
        one == other,
    decreases resolution(c),
{
    if can_merge(m, c, floor) {
        let p = parent(c, (resolution(c) - 1) as u64);
        lemma_parent_resolution(c, (resolution(c) - 1) as u64);
        let s = choose|s: u32| #[trigger]
            sums_to(sum, child_values(m, p), s) && settles(overlaid(m, p, s), p, floor, one, sum);
        let t = choose|t: u32| #[trigger]
            sums_to(sum, child_values(m, p), t) && settles(
                overlaid(m, p, t),
                p,
                floor,
                other,
                sum,
            );
        let a = choose|a: Vec<u32>| a@ == child_values(m, p) && call_ensures(sum, (a,), s);
        let b = choose|b: Vec<u32>| b@ == child_values(m, p) && call_ensures(sum, (b,), t);
        assert(s == t);
        lemma_settles_once(overlaid(m, p, s), p, floor, one, other, sum);
    }
}

/// With a sum that gives one value for each list, an insert leads to one
/// tree: what `insert` leaves is fixed by what it found and what it was given.
pub proof fn lemma_inserted_once<F: Fn(Vec<u32>) -> u32>(
    pre: Map<u64, u32>,
    c: u64,
    v: u32,
    floor: u8,
    one: Map<u64, u32>,
    other: Map<u64, u32>,
    sum: F,
)
    requires
        single_valued(sum),
        inserted(pre, c, v, floor, one, sum),
        inserted(pre, c, v, floor, other, sum),
    ensures
        one == other,
{
    if !has_ancestor(pre, c) {
        lemma_settles_once(overlaid(pre, c, v), c, floor, one, other, sum);
    }
}

/// Inserting into a frontier gives a frontier.
pub proof fn lemma_frontier_kept<F: Fn(Vec<u32>) -> u32>(
    pre: Map<u64, u32>,
    c: u64,
    v: u32,
    floor: u8,
    post: Map<u64, u32>,
    sum: F,
)
    requires
        is_frontier(pre),
        well_formed(c),
        inserted(pre, c, v, floor, post, sum),
    ensures
        is_frontier(post),
{
    if !has_ancestor(pre, c) {
        lemma_overlaid_frontier(pre, c, v);
        lemma_settles_frontier(overlaid(pre, c, v), c, floor, post, sum);
    }
}

/// Merging upwards keeps a frontier a frontier and stores nothing coarser
/// than the floor.
pub proof fn lemma_settles_frontier<F: Fn(Vec<u32>) -> u32>(
    m: Map<u64, u32>,
    c: u64,
    floor: u8,
    post: Map<u64, u32>,
    sum: F,
)
    requires
        is_frontier(m),
        m.dom().contains(c),
        settles(m, c, floor, post, sum),
    ensures
        is_frontier(post),
        forall|k: u64| #[trigger]
            post.dom().contains(k) ==> m.dom().contains(k) || (resolution(k) >= floor && covers(
                k,
                c,
            )),
    decreases resolution(c),
{
    if can_merge(m, c, floor) {
        let p = parent(c, (resolution(c) - 1) as u64);
        lemma_resolution_bound(c);
        lemma_parent(c, (resolution(c) - 1) as u64);
        let s = choose|s: u32| #[trigger]
            sums_to(sum, child_values(m, p), s) && settles(
                overlaid(m, p, s),
                p,
                floor,
                post,
                sum,
            );
        let n = overlaid(m, p, s);
        lemma_merge_replaces_children(m, p, s);
        lemma_settles_frontier(n, p, floor, post, sum);
        assert forall|k: u64| post.dom().contains(k) implies m.dom().contains(k) || (resolution(k)
            >= floor && covers(k, c)) by {
            if !m.dom().contains(k) {
                if n.dom().contains(k) {
                    assert(k == p);
                } else {
                    lemma_covers_order(k, p, c);
                }
            }
        }
    }
}

/// Compaction never stores a cell coarser than the floor: after an insert,
/// every stored cell was stored before, or is the inserted cell, or is one of
/// its ancestors at a resolution not coarser than the floor.
pub proof fn lemma_floor_respected<F: Fn(Vec<u32>) -> u32>(
    pre: Map<u64, u32>,
    c: u64,
    v: u32,
    floor: u8,
    post: Map<u64, u32>,
    sum: F,
)
    requires
        is_frontier(pre),
        well_formed(c),
        inserted(pre, c, v, floor, post, sum),
    ensures
        forall|k: u64| #[trigger]
            post.dom().contains(k) ==> pre.dom().contains(k) || k == c || (resolution(k) >= floor
                && covers(k, c)),
{
    if !has_ancestor(pre, c) {
        let m = overlaid(pre, c, v);
        lemma_overlaid_frontier(pre, c, v);
        lemma_settles_frontier(m, c, floor, post, sum);
        assert forall|k: u64| post.dom().contains(k) implies pre.dom().contains(k) || k == c || (
        resolution(k) >= floor && covers(k, c)) by {
            if m.dom().contains(k) {
                assert(k == c || pre.dom().contains(k));
            }
        }
    }
}

/// Nothing is lost by an insert: afterwards the inserted cell, and every
/// cell that was stored before, is stored or has a stored ancestor.
pub proof fn lemma_nothing_lost<F: Fn(Vec<u32>) -> u32>(
    pre: Map<u64, u32>,
    c: u64,
    v: u32,
    floor: u8,
    post: Map<u64, u32>,
    sum: F,
)
    requires
        is_frontier(pre),
        well_formed(c),
        inserted(pre, c, v, floor, post, sum),
    ensures
        has_cover(post, c),
        forall|k: u64| #[trigger] pre.dom().contains(k) ==> has_cover(post, k),
{
    lemma_covers_order(c, c, c);
    if has_ancestor(pre, c) {
        assert forall|k: u64| #[trigger] pre.dom().contains(k) implies has_cover(post, k) by {
            lemma_covers_order(k, k, k);
        }
    } else {
        let m = overlaid(pre, c, v);
        lemma_overlaid_frontier(pre, c, v);
        lemma_settles_covers(m, c, floor, post, sum);
        assert(has_cover(post, c));
        assert forall|k: u64| #[trigger] pre.dom().contains(k) implies has_cover(post, k) by {
            if m.dom().contains(k) {
                assert(has_cover(post, k));
            } else {
                let top = choose|top: u64| post.dom().contains(top) && covers(top, c);
                lemma_covers_order(top, c, k);
            }
        }
    }
}

/// Merging upwards loses nothing: every cell stored before is stored
/// afterwards or has a stored ancestor.
pub proof fn lemma_settles_covers<F: Fn(Vec<u32>) -> u32>(
    m: Map<u64, u32>,
    c: u64,
    floor: u8,
    post: Map<u64, u32>,
    sum: F,
)
    requires
        is_frontier(m),
        m.dom().contains(c),
        settles(m, c, floor, post, sum),
    ensures
        forall|k: u64| #[trigger] m.dom().contains(k) ==> has_cover(post, k),
    decreases resolution(c),
{
    if can_merge(m, c, floor) {
        let p = parent(c, (resolution(c) - 1) as u64);
        lemma_resolution_bound(c);
        lemma_parent(c, (resolution(c) - 1) as u64);
        let s = choose|s: u32| #[trigger]
            sums_to(sum, child_values(m, p), s) && settles(
                overlaid(m, p, s),
                p,
                floor,
                post,
                sum,
            );
        let n = overlaid(m, p, s);
        lemma_merge_replaces_children(m, p, s);
        lemma_settles_covers(n, p, floor, post, sum);
        assert forall|k: u64| #[trigger] m.dom().contains(k) implies has_cover(post, k) by {
            if n.dom().contains(k) {
                assert(has_cover(post, k));
            } else {
                assert(has_cover(post, p));
                let top = choose|top: u64| post.dom().contains(top) && covers(top, p);
                lemma_covers_order(top, p, k);
            }
        }
    } else {
        assert forall|k: u64| #[trigger] m.dom().contains(k) implies has_cover(post, k) by {
            lemma_covers_order(k, k, k);
        }
    }
}

/// What a query answers in each of its four cases.
pub proof fn lemma_query<F: Fn(Vec<u32>) -> u32>(
    m: Map<u64, u32>,
    c: u64,
    r: Option<u32>,
    sum: F,
)
    requires
        is_frontier(m),
        reduced(m, c, r, sum),
    ensures
        m.dom().contains(c) ==> r == Some(m[c]),
        forall|k: u64| m.dom().contains(k) && covers(k, c) ==> r == Some(m[k]),
        !has_cover(m, c) && (exists|k: u64| m.dom().contains(k) && covers(c, k)) ==> (r matches Some(
            v,
        ) && exists|recs: Seq<Record>| #[trigger]
            lists(recs, under(m, c)) && sums_to(sum, values_of(recs), v)),
        (forall|k: u64| #[trigger] m.dom().contains(k) ==> !related(k, c)) ==> r is None,
{
    lemma_covers_order(c, c, c);
    if has_cover(m, c) {
        let hit = choose|k: u64| m.dom().contains(k) && covers(k, c) && r == Some(m[k]);
        assert forall|k: u64| m.dom().contains(k) && covers(k, c) implies r == Some(m[k]) by {
            crate::address::lemma_ancestors_related(k, hit, c);
        }
        assert(related(hit, c));
    } else {
        if exists|k: u64| m.dom().contains(k) && covers(c, k) {
            let k = choose|k: u64| m.dom().contains(k) && covers(c, k);
            assert(under(m, c).dom().contains(k));
        }
        if forall|k: u64| #[trigger] m.dom().contains(k) ==> !related(k, c) {
            assert forall|k: u64| !under(m, c).dom().contains(k) by {
                if m.dom().contains(k) {
                    assert(!related(k, c));
                }
            }
            assert(under(m, c).dom() =~= Set::empty());
        }
    }
}

} // verus!
