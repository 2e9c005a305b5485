//! A map from boards to costs: what a worker knows of the boards it has
//! opened or closed.
//!
//! The boards are kept in buckets by a fingerprint of their cells, so that a
//! board is looked for only among the few boards that share its fingerprint.

use crate::grid::{Grid, GridView};
use std::collections::HashMap;
use vstd::prelude::*;

verus! {

broadcast use vstd::std_specs::hash::group_hash_axioms;

/// The number a cell counts as in a fingerprint.
pub open spec fn cell_code(cell: Option<i32>) -> u64 {
    match cell {
        Some(v) => (v + 0x8000_0001) as u64,
        None => 0,
    }
}

/// One step of a fingerprint: the fingerprint so far, times 31, plus the code
/// of the next cell, in 64 bits.
pub open spec fn mixed(so_far: u64, code: u64) -> u64 {
    ((so_far * 31 + code) % 0x1_0000_0000_0000_0000) as u64
}

/// The fingerprint of the first `k` cells.
pub open spec fn fingerprint_upto(cells: Seq<Option<i32>>, k: int) -> u64
    decreases k,
{
    if k <= 0 {
        0
    } else {
        mixed(fingerprint_upto(cells, k - 1), cell_code(cells[k - 1]))
    }
}

/// The fingerprint of a board's cells.
pub open spec fn fingerprint(cells: Seq<Option<i32>>) -> u64 {
    fingerprint_upto(cells, cells.len() as int)
}

/// The fingerprint of a board's cells.
pub fn fingerprint_of(board: &Grid) -> (f: u64)
    ensures
        f == fingerprint(board@.data),
{
    let mut f: u64 = 0;
    let mut i: usize = 0;
    while i < board.data.len()
        invariant
            i <= board.data.len(),
            f == fingerprint_upto(board@.data, i as int),
        decreases board.data.len() - i,
    {
        let code: u64 = match board.data[i] {
            Some(v) => (v as i64 + 0x8000_0001) as u64,
            None => 0,
        };
        let wide: u128 = f as u128 * 31 + code as u128;
        f = (wide % 0x1_0000_0000_0000_0000u128) as u64;
        i = i + 1;
    }
    f
}

/// The boards of one fingerprint, each with its cost. No board occurs twice.
struct Bucket {
    entries: Vec<(Grid, i32)>,
}

impl View for Bucket {
    type V = Map<GridView, int>;

    closed spec fn view(&self) -> Map<GridView, int> {
        Map::new(
            |k: GridView| self.holds(k),
            |k: GridView| self.entries@[self.place(k)].1 as int,
        )
    }
}

impl Bucket {
    /// No board has two entries.
    pub closed spec fn wf(self) -> bool {
        forall|i: int, j: int|
            0 <= i < j < self.entries@.len() ==> (#[trigger] self.entries@[i]).0@
                != (#[trigger] self.entries@[j]).0@
    }

    /// Whether some entry is for board `k`.
    spec fn holds(self, k: GridView) -> bool {
        exists|i: int| 0 <= i < self.entries@.len() && (#[trigger] self.entries@[i]).0@ == k
    }

    /// The entry for board `k`.
    spec fn place(self, k: GridView) -> int {
        choose|i: int| 0 <= i < self.entries@.len() && (#[trigger] self.entries@[i]).0@ == k
    }

    /// Whether every board of the bucket has fingerprint `f`.
    closed spec fn stamped(self, f: u64) -> bool {
        forall|i: int|
            0 <= i < self.entries@.len() ==> fingerprint((#[trigger] self.entries@[i]).0@.data) == f
    }

    /// Every board of a bucket has the bucket's fingerprint.
    proof fn lemma_stamped(self, f: u64, k: GridView)
        requires
            self.stamped(f),
            self@.contains_key(k),
        ensures
            fingerprint(k.data) == f,
    {
        assert(self.holds(k));
        assert(self.entries@[self.place(k)].0@ == k);
    }

    /// The empty bucket.
    fn new() -> (map: Bucket)
        ensures
            map.wf(),
            map@ == Map::<GridView, int>::empty(),
            forall|f: u64| map.stamped(f),
    {
        let map = Bucket { entries: Vec::new() };
        assert(map@ =~= Map::<GridView, int>::empty());
        map
    }

    /// Whether the bucket holds no board.
    fn is_empty(&self) -> (empty: bool)
        ensures
            empty <==> self@ == Map::<GridView, int>::empty(),
    {
        let empty = self.entries.len() == 0;
        proof {
            if empty {
                assert(self@ =~= Map::<GridView, int>::empty());
            } else {
                assert(self.holds(self.entries@[0].0@));
                assert(self@.contains_key(self.entries@[0].0@));
            }
        }
        empty
    }

    /// Where the entry for `key` stands, if there is one.
    fn find(&self, key: &Grid) -> (at: Option<usize>)
        ensures
            match at {
                Some(i) => i < self.entries@.len() && self.entries@[i as int].0@ == key@,
                None => !self.holds(key@),
            },
    {
        let mut i: usize = 0;
        while i < self.entries.len()
            invariant
                i <= self.entries.len(),
                forall|j: int| 0 <= j < i ==> (#[trigger] self.entries@[j]).0@ != key@,
            decreases self.entries.len() - i,
        {
            if self.entries[i].0.same_as(key) {
                return Some(i);
            }
            i = i + 1;
        }
        None
    }

    /// The cost recorded for `key`, if any.
    fn get(&self, key: &Grid) -> (cost: Option<i32>)
        requires
            self.wf(),
        ensures
            cost is Some <==> self@.contains_key(key@),
            cost matches Some(c) ==> self@[key@] == c,
    {
        match self.find(key) {
            Some(i) => {
                assert(self.holds(key@));
                Some(self.entries[i].1)
            },
            None => None,
        }
    }

    /// Records `cost` for `key`, in place of what was recorded before.
    fn insert(&mut self, key: Grid, cost: i32)
        requires
            old(self).wf(),
        ensures
            final(self).wf(),
            forall|f: u64| old(self).stamped(f) && fingerprint(key@.data) == f ==> final(self).stamped(f),
            final(self)@ == old(self)@.insert(key@, cost as int),
    {
        let ghost before = *self;
        match self.find(&key) {
            Some(i) => {
                self.entries.set(i, (key, cost));
                proof {
                    assert forall|k: GridView| self.holds(k) == (before.holds(k) || k == key@) by {
                        if before.holds(k) {
                            assert(self.entries@[before.place(k)].0@ == k);
                        }
                        if self.holds(k) {
                            assert(before.entries@[self.place(k)].0@ == k);
                        }
                        assert(self.entries@[i as int].0@ == key@);
                    }
                    assert(self.entries@[i as int].0@ == key@);
                    assert(self.holds(key@));
                    assert(self.place(key@) == i);
                    assert forall|k: GridView| self.holds(k) && k != key@ implies self.entries@[self.place(
                        k,
                    )].1 == before.entries@[before.place(k)].1 by {
                        assert(before.entries@[self.place(k)].0@ == k);
                    }
                    assert(self@ =~= before@.insert(key@, cost as int));
                }
            },
            None => {
                self.entries.push((key, cost));
                proof {
                    let last = self.entries@.len() - 1;
                    assert(self.entries@[last].0@ == key@);
                    assert forall|k: GridView| self.holds(k) == (before.holds(k) || k == key@) by {
                        if before.holds(k) {
                            assert(self.entries@[before.place(k)].0@ == k);
                        }
                        if self.holds(k) && k != key@ {
                            assert(before.entries@[self.place(k)].0@ == k);
                        }
                    }
                    assert forall|k: GridView| self.holds(k) && k != key@ implies self.entries@[self.place(
                        k,
                    )].1 == before.entries@[before.place(k)].1 by {
                        assert(before.entries@[self.place(k)].0@ == k);
                    }
                    assert(self@ =~= before@.insert(key@, cost as int));
                }
            },
        }
    }

    /// Forgets what is recorded for `key`.
    fn remove(&mut self, key: &Grid)
        requires
            old(self).wf(),
        ensures
            final(self).wf(),
            forall|f: u64| old(self).stamped(f) ==> final(self).stamped(f),
            final(self)@ == old(self)@.remove(key@),
    {
        let ghost before = *self;
        match self.find(key) {
            Some(i) => {
                self.entries.remove(i);
                proof {
                    assert forall|k: GridView| self.holds(k) == (before.holds(k) && k != key@) by {
                        if before.holds(k) && k != key@ {
                            let p = before.place(k);
                            if p < i {
                                assert(self.entries@[p].0@ == k);
                            } else {
                                assert(self.entries@[p - 1].0@ == k);
                            }
                        }
                        if self.holds(k) {
                            let p = self.place(k);
                            if p < i {
                                assert(before.entries@[p].0@ == k);
                            } else {
                                assert(before.entries@[p + 1].0@ == k);
                            }
                        }
                    }
                    assert forall|k: GridView| self.holds(k) implies self.entries@[self.place(k)].1
                        == before.entries@[before.place(k)].1 by {
                        let p = self.place(k);
                        if p < i {
                            assert(before.entries@[p].0@ == k);
                        } else {
                            assert(before.entries@[p + 1].0@ == k);
                        }
                    }
                    assert(self@ =~= before@.remove(key@));
                }
            },
            None => {
                assert(self@ =~= before@.remove(key@));
            },
        }
    }
}

/// A finite map from boards to costs.
pub struct StateMap {
    buckets: HashMap<u64, Bucket>,
}

impl View for StateMap {
    type V = Map<GridView, int>;

    closed spec fn view(&self) -> Map<GridView, int> {
        Map::new(
            |k: GridView|
                self.buckets@.contains_key(fingerprint(k.data)) && self.buckets@[fingerprint(
                    k.data,
                )]@.contains_key(k),
            |k: GridView| self.buckets@[fingerprint(k.data)]@[k],
        )
    }
}

impl StateMap {
    /// Every bucket holds boards, each once, and those of its fingerprint.
    pub closed spec fn wf(self) -> bool {
        forall|f: u64| #[trigger]
            self.buckets@.contains_key(f) ==> {
                &&& self.buckets@[f].wf()
                &&& self.buckets@[f].stamped(f)
                &&& self.buckets@[f]@ != Map::<GridView, int>::empty()
            }
    }

    /// The empty map.
    pub fn new() -> (map: StateMap)
        ensures
            map.wf(),
            map@ == Map::<GridView, int>::empty(),
    {
        let map = StateMap { buckets: HashMap::new() };
        assert(map@ =~= Map::<GridView, int>::empty());
        map
    }

    /// Whether the map holds no board.
    pub fn is_empty(&self) -> (empty: bool)
        requires
            self.wf(),
        ensures
            empty <==> self@ == Map::<GridView, int>::empty(),
    {
        let empty = self.buckets.is_empty();
        proof {
            if empty {
                assert(self@ =~= Map::<GridView, int>::empty());
            } else {
                if forall|f: u64| !self.buckets@.contains_key(f) {
                    assert(self.buckets@.dom() =~= Set::<u64>::empty());
                }
                let f = choose|f: u64| self.buckets@.contains_key(f);
                let bucket = self.buckets@[f];
                if forall|k: GridView| !bucket@.contains_key(k) {
                    assert(bucket@ =~= Map::<GridView, int>::empty());
                }
                let k = choose|k: GridView| bucket@.contains_key(k);
                bucket.lemma_stamped(f, k);
                assert(self@.contains_key(k));
            }
        }
        empty
    }

    /// The cost recorded for `key`, if any.
    pub fn get(&self, key: &Grid) -> (cost: Option<i32>)
        requires
            self.wf(),
        ensures
            cost is Some <==> self@.contains_key(key@),
            cost matches Some(c) ==> self@[key@] == c,
    {
        let f = fingerprint_of(key);
        match self.buckets.get(&f) {
            Some(bucket) => bucket.get(key),
            None => None,
        }
    }

    /// Whether a cost is recorded for `key`.
    pub fn contains_key(&self, key: &Grid) -> (found: bool)
        requires
            self.wf(),
        ensures
            found == self@.contains_key(key@),
    {
        self.get(key).is_some()
    }

    /// Records `cost` for `key`, in place of what was recorded before.
    pub fn insert(&mut self, key: Grid, cost: i32)
        requires
            old(self).wf(),
        ensures
            final(self).wf(),
            final(self)@ == old(self)@.insert(key@, cost as int),
    {
        let f = fingerprint_of(&key);
        let ghost k0 = key@;
        let mut bucket = match self.buckets.remove(&f) {
            Some(bucket) => bucket,
            None => Bucket::new(),
        };
        let ghost before = bucket;
        bucket.insert(key, cost);
        let ghost after = bucket;
        self.buckets.insert(f, bucket);
        proof {
            assert(after@.contains_key(k0));
            assert(after@ != Map::<GridView, int>::empty());
            assert forall|k: GridView| #[trigger]
                self@.contains_key(k) <==> old(self)@.insert(k0, cost as int).contains_key(k) by {
                if fingerprint(k.data) == f {
                    if old(self).buckets@.contains_key(f) {
                        assert(before@ == old(self).buckets@[f]@);
                    }
                }
            }
            assert(self@ =~= old(self)@.insert(k0, cost as int));
        }
    }

    /// Forgets what is recorded for `key`.
    pub fn remove(&mut self, key: &Grid)
        requires
            old(self).wf(),
        ensures
            final(self).wf(),
            final(self)@ == old(self)@.remove(key@),
    {
        let f = fingerprint_of(key);
        match self.buckets.remove(&f) {
            Some(bucket) => {
                let mut bucket = bucket;
                let ghost before = bucket;
                bucket.remove(key);
                let ghost after = bucket;
                let hollow = bucket.is_empty();
                if !hollow {
                    self.buckets.insert(f, bucket);
                }
                proof {
                    assert(before == old(self).buckets@[f]);
                    assert(after@ == before@.remove(key@));
                    assert forall|k: GridView| #[trigger]
                        self@.contains_key(k) <==> old(self)@.remove(key@).contains_key(k) by {
                        if fingerprint(k.data) == f {
                            if hollow {
                                assert(!self.buckets@.contains_key(f));
                                assert(!after@.contains_key(k));
                            } else {
                                assert(self.buckets@[f] == after);
                            }
                        } else {
                            assert(self.buckets@.contains_key(fingerprint(k.data))
                                == old(self).buckets@.contains_key(fingerprint(k.data)));
                        }
                    }
                    assert(self@ =~= old(self)@.remove(key@));
                }
            },
            None => {
                assert(self@ =~= old(self)@.remove(key@));
            },
        }
    }
}

} // verus!
