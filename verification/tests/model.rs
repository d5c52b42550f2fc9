use gpwgen::address::HexAddress;
use gpwgen::tree::AggregationTree;
use std::collections::BTreeMap;

fn sum(vals: Vec<u32>) -> u32 {
    vals.iter().fold(0u32, |total, v| total.wrapping_add(*v))
}

fn covers(a: HexAddress, c: HexAddress) -> bool {
    c.parent(a.resolution()) == Some(a)
}

fn at(raw: u64) -> HexAddress {
    HexAddress::from_raw(raw).unwrap()
}

/// A frontier kept in the plainest way, to hold the tree against.
struct Model {
    floor: u8,
    entries: BTreeMap<u64, u32>,
}

impl Model {
    fn place(&mut self, c: HexAddress, v: u32) -> bool {
        if self.entries.keys().any(|k| *k != c.raw() && covers(at(*k), c)) {
            return false;
        }
        self.entries.retain(|k, _| !covers(c, at(*k)));
        self.entries.insert(c.raw(), v);
        true
    }

    fn insert(&mut self, c: HexAddress, v: u32) {
        if !self.place(c, v) {
            return;
        }
        let mut cur = c;
        loop {
            let r = cur.resolution();
            if r == 0 || r - 1 < self.floor {
                return;
            }
            let p = cur.parent(r - 1).unwrap();
            let kids: Vec<u64> = (0..7u8).map(|d| p.child(d).unwrap().raw()).collect();
            if !kids.iter().all(|k| self.entries.contains_key(k)) {
                return;
            }
            let total = sum(kids.iter().map(|k| self.entries[k]).collect());
            for k in &kids {
                self.entries.remove(k);
            }
            self.entries.insert(p.raw(), total);
            cur = p;
        }
    }

    fn reduce(&self, c: HexAddress) -> Option<u32> {
        if let Some((_, v)) = self.entries.iter().find(|(k, _)| covers(at(**k), c)) {
            return Some(*v);
        }
        let below: Vec<u32> =
            self.entries.iter().filter(|(k, _)| covers(c, at(**k))).map(|(_, v)| *v).collect();
        if below.is_empty() {
            None
        } else {
            Some(sum(below))
        }
    }

    fn get(&self, c: HexAddress) -> Option<(HexAddress, u32)> {
        self.entries.iter().find(|(k, _)| covers(at(**k), c)).map(|(k, v)| (at(*k), *v))
    }
}

struct Dice(u64);

impl Dice {
    fn roll(&mut self, sides: u64) -> u64 {
        self.0 = self.0.wrapping_mul(6364136223846793005).wrapping_add(1442695040888963407);
        (self.0 >> 33) % sides
    }

    fn cell(&mut self, top: HexAddress, depth: u64) -> HexAddress {
        let mut c = top;
        for _ in 0..self.roll(depth + 1) {
            // few digits, so that sibling sets fill up
            c = c.child(self.roll(7) as u8).unwrap();
        }
        c
    }
}

fn same(tree: &AggregationTree, model: &Model) {
    let mut all: Vec<(u64, u32)> = tree.entries().iter().map(|r| (r.address, r.value)).collect();
    all.sort();
    let want: Vec<(u64, u32)> = model.entries.iter().map(|(k, v)| (*k, *v)).collect();
    assert_eq!(all, want);
}

fn run(floor: u8, seed: u64, steps: usize, compacting: bool) {
    let top = at(0x85283473fffffff).parent(3).unwrap();
    let mut dice = Dice(seed);
    let mut tree = AggregationTree::new(floor);
    let mut model = Model { floor, entries: BTreeMap::new() };
    for step in 0..steps {
        let c = dice.cell(top, 3);
        let v = dice.roll(1000) as u32;
        if compacting {
            tree.insert(c, v, &sum);
            model.insert(c, v);
        } else {
            tree.place(c, v);
            model.place(c, v);
        }
        if step % 16 == 0 || step + 1 == steps {
            same(&tree, &model);
        }
        let q = dice.cell(top, 3);
        assert_eq!(tree.reduce(q, &sum), model.reduce(q), "step {}", step);
        assert_eq!(tree.get(q), model.get(q), "step {}", step);
        assert_eq!(tree.lookup(q), model.entries.get(&q.raw()).copied(), "step {}", step);
    }
    same(&tree, &model);
}

#[test]
fn tree_agrees_with_a_plain_frontier_when_it_compacts_freely() {
    run(0, 1, 1500, true);
}

#[test]
fn tree_agrees_with_a_plain_frontier_at_a_middle_floor() {
    run(4, 2, 1500, true);
    run(5, 3, 1500, true);
}

#[test]
fn tree_agrees_with_a_plain_frontier_when_the_floor_is_out_of_reach() {
    run(6, 4, 1500, true);
    run(200, 5, 1500, true);
}

#[test]
fn tree_agrees_with_a_plain_frontier_when_it_only_places() {
    run(0, 6, 1500, false);
}
