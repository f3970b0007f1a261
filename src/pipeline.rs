//! Bookkeeping of the rendering pipeline: the regions still pending, the
//! memoised chunk handles, and the rule by which handles are evicted once
//! nothing pending can need them.
use vstd::prelude::*;
use crate::coords::{SIDE, CLoc, RLoc};
use crate::dimension::south_of;
use crate::workmap::WorkMap;

verus! {

/// The region north of `r` (one step back along `z`), where it is
/// representable.
pub open spec fn north_of(r: RLoc) -> Option<RLoc> {
    if r.1 > i32::MIN {
        Some(RLoc(r.0, (r.1 - 1) as i32))
    } else {
        None
    }
}

/// The regions that have not finished rendering.
pub struct RemainingSet {
    regions: Vec<RLoc>,
}

impl View for RemainingSet {
    type V = Set<RLoc>;

    closed spec fn view(&self) -> Set<RLoc> {
        self.regions@.to_set()
    }
}

impl RemainingSet {
    /// The internal invariant: each region is listed once.
    pub closed spec fn wf(&self) -> bool {
        self.regions@.no_duplicates()
    }

    /// Every region of the work map, pending.
    pub fn from_work(work: &WorkMap) -> (r: RemainingSet)
        requires
            work.wf(),
        ensures
            r.wf(),
            r@ == work@.dom(),
    {
        let n = work.len();
        let mut regions: Vec<RLoc> = Vec::new();
        let mut i: usize = 0;
        while i < n
            invariant
                work.wf(),
                n == work.keys().len(),
                i <= n,
                regions@ == work.keys().subrange(0, i as int),
            decreases n - i,
        {
            regions.push(work.region(i));
            assert(work.keys().subrange(0, i + 1) =~= work.keys().subrange(0, i as int).push(
                work.keys()[i as int],
            ));
            i += 1;
        }
        proof {
            assert(regions@ =~= work.keys());
            work.lemma_keys_dom();
        }
        RemainingSet { regions }
    }

    /// Region `r` is pending.
    pub fn contains(&self, r: &RLoc) -> (res: bool)
        ensures
            res == self@.contains(*r),
    {
        let mut i: usize = 0;
        while i < self.regions.len()
            invariant
                i <= self.regions@.len(),
                forall|j: int| 0 <= j < i ==> self.regions@[j] != *r,
            decreases self.regions@.len() - i,
        {
            if self.regions[i] == *r {
                assert(self.regions@.contains(*r));
                return true;
            }
            i += 1;
        }
        assert(!self.regions@.contains(*r));
        false
    }

    /// No region is pending.
    pub fn is_empty(&self) -> (res: bool)
        ensures
            res == (self@ == Set::<RLoc>::empty()),
    {
        if self.regions.len() == 0 {
            assert(self@ =~= Set::<RLoc>::empty());
            true
        } else {
            assert(self@.contains(self.regions@[0]));
            false
        }
    }

    /// Region `r` is done: it leaves the set, and the result tells whether
    /// the regions north and south of it are still pending.
    pub fn finish(&mut self, r: &RLoc) -> (res: (bool, bool))
        requires
            old(self).wf(),
        ensures
            final(self).wf(),
            final(self)@ == old(self)@.remove(*r),
            res.0 == (north_of(*r) matches Some(n) && final(self)@.contains(n)),
            res.1 == (south_of(*r) matches Some(s) && final(self)@.contains(s)),
    {
        let ghost before = self.regions@;
        let mut i: usize = 0;
        while i < self.regions.len() && self.regions[i] != *r
            invariant
                self.regions@ == before,
                i <= before.len(),
                forall|j: int| 0 <= j < i ==> before[j] != *r,
            decreases before.len() - i,
        {
            i += 1;
        }
        if i < self.regions.len() {
            self.regions.remove(i);
            proof {
                let after = self.regions@;
                assert(after =~= before.subrange(0, i as int) + before.subrange(i + 1, before.len() as int));
                assert forall|j: int| 0 <= j < after.len() implies #[trigger] after[j] == (if j < i {
                    before[j]
                } else {
                    before[j + 1]
                }) by {}
                assert forall|q: RLoc| after.contains(q) <==> before.to_set().remove(*r).contains(q) by {
                    if after.contains(q) {
                        let j = choose|j: int| 0 <= j < after.len() && after[j] == q;
                        if j < i {
                            assert(before[j] == q);
                            assert(before.contains(q));
                        } else {
                            assert(before[j + 1] == q);
                            assert(before.contains(q));
                        }
                    }
                    if before.contains(q) && q != *r {
                        let j = choose|j: int| 0 <= j < before.len() && before[j] == q;
                        if j < i {
                            assert(after[j] == q);
                        } else {
                            assert(j != i);
                            assert(after[j - 1] == q);
                        }
                    }
                }
                assert(self@ =~= before.to_set().remove(*r));
                assert forall|a: int, b: int| 0 <= a < b < after.len() implies after[a] != after[b] by {
                    let a0 = if a < i { a } else { a + 1 };
                    let b0 = if b < i { b } else { b + 1 };
                    assert(before[a0] != before[b0]);
                }
            }
        } else {
            proof {
                assert(!before.contains(*r));
                assert(self@ =~= before.to_set().remove(*r));
            }
        }
        let exist_north = if r.1 > i32::MIN {
            self.contains(&RLoc(r.0, r.1 - 1))
        } else {
            false
        };
        let exist_south = if r.1 < i32::MAX {
            self.contains(&RLoc(r.0, r.1 + 1))
        } else {
            false
        };
        (exist_north, exist_south)
    }
}

/// Memoised region handles, keyed by region; opened once, kept for the run.
pub struct RegionCache<V> {
    entries: Vec<(RLoc, V)>,
    model: Ghost<Map<RLoc, V>>,
}

impl<V> View for RegionCache<V> {
    type V = Map<RLoc, V>;

    closed spec fn view(&self) -> Map<RLoc, V> {
        self.model@
    }
}

impl<V> RegionCache<V> {
    /// The internal invariant.
    pub closed spec fn wf(&self) -> bool {
        &&& forall|i: int, j: int|
            0 <= i < j < self.entries@.len() ==> self.entries@[i].0 != self.entries@[j].0
        &&& forall|k: RLoc|
            #[trigger] self.model@.dom().contains(k) <==> exists|i: int|
                0 <= i < self.entries@.len() && (#[trigger] self.entries@[i]).0 == k
        &&& forall|i: int|
            0 <= i < self.entries@.len() ==> self.model@[(#[trigger] self.entries@[i]).0]
                == self.entries@[i].1
    }

    /// An empty cache.
    pub fn new() -> (r: RegionCache<V>)
        ensures
            r.wf(),
            r@ == Map::<RLoc, V>::empty(),
    {
        RegionCache { entries: Vec::new(), model: Ghost(Map::empty()) }
    }

    /// The handle of region `r`, where it is cached.
    pub fn get(&self, r: &RLoc) -> (res: Option<&V>)
        requires
            self.wf(),
        ensures
            res is None <==> !self@.dom().contains(*r),
            res matches Some(v) ==> *v == self@[*r],
    {
        let mut i: usize = 0;
        while i < self.entries.len()
            invariant
                self.wf(),
                i <= self.entries@.len(),
                forall|j: int| 0 <= j < i ==> (#[trigger] self.entries@[j]).0 != *r,
            decreases self.entries@.len() - i,
        {
            if self.entries[i].0 == *r {
                return Some(&self.entries[i].1);
            }
            i += 1;
        }
        None
    }

    /// Caches `v` as the handle of region `r`, unless one is cached there
    /// already, which then stays.
    pub fn insert(&mut self, r: &RLoc, v: V)
        requires
            old(self).wf(),
        ensures
            final(self).wf(),
            old(self)@.dom().contains(*r) ==> final(self)@ == old(self)@,
            !old(self)@.dom().contains(*r) ==> final(self)@ == old(self)@.insert(*r, v),
    {
        match self.get(r) {
            Some(_) => {},
            None => {
                let ghost before = self.entries@;
                self.entries.push((*r, v));
                self.model = Ghost(self.model@.insert(*r, v));
                proof {
                    let n = before.len() as int;
                    assert forall|i: int| 0 <= i < n implies #[trigger] self.entries@[i] == before[i] by {}
                    assert forall|q: RLoc|
                        #[trigger] self.model@.dom().contains(q) <==> exists|i: int|
                            0 <= i < self.entries@.len() && (#[trigger] self.entries@[i]).0 == q by {
                        if q != *r && self.model@.dom().contains(q) {
                            let i = choose|i: int| 0 <= i < before.len() && (#[trigger] before[i]).0 == q;
                            assert(self.entries@[i].0 == q);
                        }
                        if q == *r {
                            assert(self.entries@[n].0 == q);
                        }
                        if exists|i: int| 0 <= i < self.entries@.len() && (#[trigger] self.entries@[i]).0 == q {
                            let i = choose|i: int| 0 <= i < self.entries@.len() && (#[trigger] self.entries@[i]).0 == q;
                            if i < n {
                                assert(before[i].0 == q);
                            }
                        }
                    }
                    assert forall|i: int, j: int|
                        0 <= i < j < self.entries@.len() implies self.entries@[i].0 != self.entries@[j].0 by {
                        if j == n {
                            assert(before[i].0 != *r);
                        }
                    }
                }
            },
        }
    }
}

/// The key under which a cache entry is held.
pub open spec fn key_of<V>(e: (RLoc, CLoc, V)) -> (RLoc, CLoc) {
    (e.0, e.1)
}

/// The handles of region `r`'s chunks that the eviction after `r` finishes
/// drops: all but the last row; the last row too unless the region to the
/// south is pending; and every handle of the region to the north unless
/// that region is pending.
pub open spec fn evicted_by(k: (RLoc, CLoc), r: RLoc, exist_north: bool, exist_south: bool) -> bool {
    ||| k.0 == r && k.1.1 < SIDE - 1
    ||| k.0 == r && k.1.1 == SIDE - 1 && !exist_south
    ||| north_of(r) == Some(k.0) && !exist_north
}

/// Memoised chunk handles, keyed by region and chunk.
pub struct ChunkCache<V> {
    entries: Vec<(RLoc, CLoc, V)>,
    model: Ghost<Map<(RLoc, CLoc), V>>,
}

impl<V> View for ChunkCache<V> {
    type V = Map<(RLoc, CLoc), V>;

    closed spec fn view(&self) -> Map<(RLoc, CLoc), V> {
        self.model@
    }
}

impl<V> ChunkCache<V> {
    /// The internal invariant.
    pub closed spec fn wf(&self) -> bool {
        &&& forall|i: int, j: int|
            0 <= i < j < self.entries@.len() ==> key_of(self.entries@[i]) != key_of(
                self.entries@[j],
            )
        &&& forall|k: (RLoc, CLoc)|
            #[trigger] self.model@.dom().contains(k) <==> exists|i: int|
                0 <= i < self.entries@.len() && key_of(#[trigger] self.entries@[i]) == k
        &&& forall|i: int|
            0 <= i < self.entries@.len() ==> self.model@[key_of(#[trigger] self.entries@[i])]
                == self.entries@[i].2
    }

    /// An empty cache.
    pub fn new() -> (r: ChunkCache<V>)
        ensures
            r.wf(),
            r@ == Map::<(RLoc, CLoc), V>::empty(),
    {
        ChunkCache { entries: Vec::new(), model: Ghost(Map::empty()) }
    }

    /// The cache holds nothing.
    pub fn is_empty(&self) -> (res: bool)
        requires
            self.wf(),
        ensures
            res == (self@ == Map::<(RLoc, CLoc), V>::empty()),
    {
        if self.entries.len() == 0 {
            assert(self@ =~= Map::<(RLoc, CLoc), V>::empty());
            true
        } else {
            assert(self@.dom().contains(key_of(self.entries@[0])));
            false
        }
    }

    fn find(&self, r: &RLoc, c: &CLoc) -> (res: Option<usize>)
        requires
            self.wf(),
        ensures
            res is None <==> !self@.dom().contains((*r, *c)),
            res matches Some(i) ==> i < self.entries@.len() && key_of(self.entries@[i as int]) == (
            *r,
            *c,
            ),
    {
        let mut i: usize = 0;
        while i < self.entries.len()
            invariant
                self.wf(),
                i <= self.entries@.len(),
                forall|j: int| 0 <= j < i ==> key_of(#[trigger] self.entries@[j]) != (*r, *c),
            decreases self.entries@.len() - i,
        {
            if self.entries[i].0 == *r && self.entries[i].1 == *c {
                return Some(i);
            }
            i += 1;
        }
        None
    }

    /// The handle of chunk `c` of region `r`, where it is cached.
    pub fn get(&self, r: &RLoc, c: &CLoc) -> (res: Option<&V>)
        requires
            self.wf(),
        ensures
            res is None <==> !self@.dom().contains((*r, *c)),
            res matches Some(v) ==> *v == self@[(*r, *c)],
    {
        match self.find(r, c) {
            Some(i) => Some(&self.entries[i].2),
            None => None,
        }
    }

    /// Caches `v` as the handle of chunk `c` of region `r`, unless a handle
    /// is cached there already, which then stays.
    pub fn insert(&mut self, r: &RLoc, c: &CLoc, v: V)
        requires
            old(self).wf(),
        ensures
            final(self).wf(),
            old(self)@.dom().contains((*r, *c)) ==> final(self)@ == old(self)@,
            !old(self)@.dom().contains((*r, *c)) ==> final(self)@ == old(self)@.insert((*r, *c), v),
    {
        match self.find(r, c) {
            Some(_) => {},
            None => {
                let ghost before = self.entries@;
                let ghost k = (*r, *c);
                self.entries.push((*r, *c, v));
                self.model = Ghost(self.model@.insert(k, v));
                proof {
                    let n = before.len() as int;
                    assert(key_of(self.entries@[n]) == k);
                    assert forall|i: int| 0 <= i < n implies #[trigger] self.entries@[i] == before[i] by {}
                    assert forall|q: (RLoc, CLoc)|
                        #[trigger] self.model@.dom().contains(q) <==> exists|i: int|
                            0 <= i < self.entries@.len() && key_of(#[trigger] self.entries@[i]) == q by {
                        if q != k && self.model@.dom().contains(q) {
                            let i = choose|i: int| 0 <= i < before.len() && key_of(#[trigger] before[i]) == q;
                            assert(key_of(self.entries@[i]) == q);
                        }
                        if exists|i: int| 0 <= i < self.entries@.len() && key_of(#[trigger] self.entries@[i]) == q {
                            let i = choose|i: int| 0 <= i < self.entries@.len() && key_of(#[trigger] self.entries@[i]) == q;
                            if i < n {
                                assert(key_of(before[i]) == q);
                            }
                        }
                    }
                    assert forall|i: int, j: int|
                        0 <= i < j < self.entries@.len() implies key_of(self.entries@[i]) != key_of(
                            self.entries@[j],
                        ) by {
                        if j == n {
                            assert(key_of(before[i]) != k);
                        }
                    }
                }
            },
        }
    }

    /// Drops the handles that `evicted_by` names for region `r`, given
    /// whether the regions north and south of it are pending.
    #[verifier::rlimit(40)]
    pub fn evict(&mut self, r: &RLoc, exist_north: bool, exist_south: bool)
        requires
            old(self).wf(),
        ensures
            final(self).wf(),
            final(self)@ == old(self)@.restrict(
                old(self)@.dom().filter(|k: (RLoc, CLoc)| !evicted_by(k, *r, exist_north, exist_south)),
            ),
    {
        let ghost before = self.entries@;
        let ghost m = self.model@;
        proof {
            assert forall|i: int|
                0 <= i < before.len() implies m.dom().contains(key_of(#[trigger] before[i])) by {}
        }
        let ghost target = m.restrict(m.dom().filter(|k: (RLoc, CLoc)| !evicted_by(k, *r, exist_north, exist_south)));
        let north: Option<RLoc> = if r.1 > i32::MIN {
            Some(RLoc(r.0, r.1 - 1))
        } else {
            None
        };
        let mut kept: Vec<(RLoc, CLoc, V)> = Vec::new();
        while self.entries.len() > 0
            invariant
                self.entries@.len() <= before.len(),
                self.entries@ == before.subrange(0, self.entries@.len() as int),
                north == north_of(*r),
                forall|i: int, j: int|
                    0 <= i < j < before.len() ==> key_of(before[i]) != key_of(before[j]),
                forall|i: int|
                    0 <= i < before.len() ==> m[key_of(#[trigger] before[i])] == before[i].2,
                forall|i: int|
                    0 <= i < before.len() ==> m.dom().contains(key_of(#[trigger] before[i])),
                forall|q: (RLoc, CLoc)|
                    #[trigger] m.dom().contains(q) ==> exists|i: int|
                        0 <= i < before.len() && key_of(#[trigger] before[i]) == q,
                target == m.restrict(m.dom().filter(|k: (RLoc, CLoc)| !evicted_by(k, *r, exist_north, exist_south))),
                forall|i: int|
                    0 <= i < kept@.len() ==> target.dom().contains(key_of(#[trigger] kept@[i]))
                        && target[key_of(kept@[i])] == kept@[i].2,
                forall|q: (RLoc, CLoc)|
                    #[trigger] target.dom().contains(q) ==> (exists|i: int|
                        0 <= i < self.entries@.len() && key_of(#[trigger] before[i]) == q) || (exists|i: int|
                        0 <= i < kept@.len() && key_of(#[trigger] kept@[i]) == q),
                forall|i: int, j: int|
                    0 <= i < j < kept@.len() ==> key_of(kept@[i]) != key_of(kept@[j]),
                forall|i: int, j: int|
                    0 <= i < kept@.len() && 0 <= j < self.entries@.len() ==> key_of(kept@[i])
                        != key_of(before[j]),
            decreases self.entries@.len(),
        {
            let ghost n = self.entries@.len() - 1;
            let ghost kb = kept@;
            let e = self.entries.pop().unwrap();
            let drop = (e.0 == *r && e.1.1 < SIDE - 1) || (e.0 == *r && e.1.1 == SIDE - 1
                && !exist_south) || (match north {
                Some(nr) => e.0 == nr && !exist_north,
                None => false,
            });
            proof {
                assert(e == before[n]);
                assert(drop == evicted_by(key_of(e), *r, exist_north, exist_south));
            }
            if !drop {
                kept.push(e);
                proof {
                    assert(target.dom().contains(key_of(e)));
                    assert forall|i: int|
                        0 <= i < kept@.len() implies target.dom().contains(key_of(#[trigger] kept@[i]))
                        && target[key_of(kept@[i])] == kept@[i].2 by {
                        if i < kb.len() {
                            assert(kept@[i] == kb[i]);
                        }
                    }
                    assert forall|q: (RLoc, CLoc)|
                        #[trigger] target.dom().contains(q) implies (exists|i: int|
                            0 <= i < n && key_of(#[trigger] before[i]) == q) || (exists|i: int|
                            0 <= i < kept@.len() && key_of(#[trigger] kept@[i]) == q) by {
                        if exists|i: int| 0 <= i < n + 1 && key_of(#[trigger] before[i]) == q {
                            let i = choose|i: int| 0 <= i < n + 1 && key_of(#[trigger] before[i]) == q;
                            if i == n {
                                assert(key_of(kept@[kb.len() as int]) == q);
                            }
                        } else {
                            let i = choose|i: int| 0 <= i < kb.len() && key_of(#[trigger] kb[i]) == q;
                            assert(key_of(kept@[i]) == q);
                        }
                    }
                    assert forall|i: int, j: int|
                        0 <= i < j < kept@.len() implies key_of(kept@[i]) != key_of(kept@[j]) by {
                        if j == kb.len() {
                            assert(key_of(kb[i]) != key_of(before[n]));
                        } else {
                            assert(kept@[i] == kb[i] && kept@[j] == kb[j]);
                        }
                    }
                    assert forall|i: int, j: int|
                        0 <= i < kept@.len() && 0 <= j < n implies key_of(kept@[i]) != key_of(before[j]) by {
                        if i < kb.len() {
                            assert(kept@[i] == kb[i]);
                        }
                    }
                }
            } else {
                proof {
                    assert forall|q: (RLoc, CLoc)|
                        #[trigger] target.dom().contains(q) implies (exists|i: int|
                            0 <= i < n && key_of(#[trigger] before[i]) == q) || (exists|i: int|
                            0 <= i < kept@.len() && key_of(#[trigger] kept@[i]) == q) by {
                        if exists|i: int| 0 <= i < n + 1 && key_of(#[trigger] before[i]) == q {
                            let i = choose|i: int| 0 <= i < n + 1 && key_of(#[trigger] before[i]) == q;
                            if i == n {
                                assert(!target.dom().contains(key_of(e)));
                            }
                        }
                    }
                }
            }
        }
        let ghost kept_seq = kept@;
        proof {
            assert forall|q: (RLoc, CLoc)| #[trigger] target.dom().contains(q) implies exists|i: int|
                0 <= i < kept_seq.len() && key_of(#[trigger] kept_seq[i]) == q by {
                assert(!(exists|i: int| 0 <= i < self.entries@.len() && key_of(#[trigger] before[i]) == q));
            }
        }
        self.entries = kept;
        self.model = Ghost(target);
        proof {
            assert(self.entries@ == kept_seq);
            assert forall|q: (RLoc, CLoc)|
                #[trigger] self.model@.dom().contains(q) <==> exists|i: int|
                    0 <= i < self.entries@.len() && key_of(#[trigger] self.entries@[i]) == q by {
                if exists|i: int| 0 <= i < kept_seq.len() && key_of(#[trigger] kept_seq[i]) == q {
                    let i = choose|i: int| 0 <= i < kept_seq.len() && key_of(#[trigger] kept_seq[i]) == q;
                    assert(target.dom().contains(key_of(kept_seq[i])));
                }
            }
        }
    }
}

/// A handle keyed `k` may still be needed by pending work: its region is
/// pending, or it is on the last row and the region south of it, which reads
/// that row as north context, is pending.
pub open spec fn retainable(k: (RLoc, CLoc), pending: Set<RLoc>) -> bool {
    &&& k.1.valid()
    &&& {
        ||| pending.contains(k.0)
        ||| k.1.1 == SIDE - 1 && (south_of(k.0) matches Some(s) && pending.contains(s))
    }
}

/// The shared state of one rendering run: the pending regions and the
/// chunk handle cache, which holds only handles that pending work may need.
pub struct RenderState<V> {
    remaining: RemainingSet,
    chunks: ChunkCache<V>,
}

impl<V> RenderState<V> {
    /// The regions not yet finished.
    pub closed spec fn pending(&self) -> Set<RLoc> {
        self.remaining@
    }

    /// The cached chunk handles.
    pub closed spec fn cached(&self) -> Map<(RLoc, CLoc), V> {
        self.chunks@
    }

    /// The internal invariant: every cached handle is retainable.
    pub closed spec fn wf(&self) -> bool {
        &&& self.remaining.wf()
        &&& self.chunks.wf()
        &&& forall|k: (RLoc, CLoc)|
            #[trigger] self.chunks@.dom().contains(k) ==> retainable(k, self.remaining@)
    }

    /// A run over the regions of `work`, all pending, with nothing cached.
    pub fn new(work: &WorkMap) -> (r: RenderState<V>)
        requires
            work.wf(),
        ensures
            r.wf(),
            r.pending() == work@.dom(),
            r.cached() == Map::<(RLoc, CLoc), V>::empty(),
    {
        RenderState { remaining: RemainingSet::from_work(work), chunks: ChunkCache::new() }
    }

    /// The cached handle of chunk `c` of region `r`, if any.
    pub fn chunk(&self, r: &RLoc, c: &CLoc) -> (res: Option<&V>)
        requires
            self.wf(),
        ensures
            res is None <==> !self.cached().dom().contains((*r, *c)),
            res matches Some(v) ==> *v == self.cached()[(*r, *c)],
    {
        self.chunks.get(r, c)
    }

    /// Region `r` is pending.
    pub fn is_pending(&self, r: &RLoc) -> (res: bool)
        ensures
            res == self.pending().contains(*r),
    {
        self.remaining.contains(r)
    }

    /// No region is pending.
    pub fn is_done(&self) -> (res: bool)
        ensures
            res == (self.pending() == Set::<RLoc>::empty()),
    {
        self.remaining.is_empty()
    }

    /// Caches `v` as the handle of chunk `c` of region `r` where pending work
    /// may need it and none is cached there yet; tells whether it did.
    pub fn store(&mut self, r: &RLoc, c: &CLoc, v: V) -> (stored: bool)
        requires
            old(self).wf(),
        ensures
            final(self).wf(),
            final(self).pending() == old(self).pending(),
            stored == (retainable((*r, *c), old(self).pending()) && !old(self).cached().dom().contains(
                (*r, *c),
            )),
            stored ==> final(self).cached() == old(self).cached().insert((*r, *c), v),
            !stored ==> final(self).cached() == old(self).cached(),
    {
        if c.0 >= SIDE || c.1 >= SIDE {
            return false;
        }
        let keep = if self.remaining.contains(r) {
            true
        } else if c.1 == SIDE - 1 && r.1 < i32::MAX {
            self.remaining.contains(&RLoc(r.0, r.1 + 1))
        } else {
            false
        };
        if !keep {
            return false;
        }
        match self.chunks.get(r, c) {
            Some(_) => false,
            None => {
                self.chunks.insert(r, c, v);
                true
            },
        }
    }

    /// Region `r` is done: it leaves the pending set, and the handles that
    /// no pending work can need any more are evicted. The result tells
    /// whether the regions north and south of `r` are still pending.
    pub fn finish(&mut self, r: &RLoc) -> (res: (bool, bool))
        requires
            old(self).wf(),
        ensures
            final(self).wf(),
            final(self).pending() == old(self).pending().remove(*r),
            res.0 == (north_of(*r) matches Some(n) && final(self).pending().contains(n)),
            res.1 == (south_of(*r) matches Some(s) && final(self).pending().contains(s)),
            final(self).cached() == old(self).cached().restrict(
                old(self).cached().dom().filter(|k: (RLoc, CLoc)| !evicted_by(k, *r, res.0, res.1)),
            ),
            final(self).cached() == old(self).cached().restrict(
                old(self).cached().dom().filter(|k: (RLoc, CLoc)| retainable(k, final(self).pending())),
            ),
    {
        let ghost pending0 = self.remaining@;
        let ghost cached0 = self.chunks@;
        let (exist_north, exist_south) = self.remaining.finish(r);
        self.chunks.evict(r, exist_north, exist_south);
        proof {
            let pending1 = self.remaining@;
            assert forall|k: (RLoc, CLoc)| #[trigger] cached0.dom().contains(k) implies (!evicted_by(
                k,
                *r,
                exist_north,
                exist_south,
            ) <==> retainable(k, pending1)) by {
                assert(retainable(k, pending0));
                if k.0 != *r && north_of(*r) != Some(k.0) {
                    if south_of(k.0) == Some(*r) {
                        assert(north_of(*r) == Some(k.0));
                    }
                }
            }
            assert(cached0.dom().filter(|k: (RLoc, CLoc)| !evicted_by(k, *r, exist_north, exist_south))
                =~= cached0.dom().filter(|k: (RLoc, CLoc)| retainable(k, pending1)));
        }
        (exist_north, exist_south)
    }
}

/// Once every region has finished, the chunk handle cache is empty.
pub proof fn law_drained_when_done<V>(s: RenderState<V>)
    requires
        s.wf(),
        s.pending() == Set::<RLoc>::empty(),
    ensures
        s.cached() == Map::<(RLoc, CLoc), V>::empty(),
{
    assert(s.cached() =~= Map::<(RLoc, CLoc), V>::empty()) by {
        assert forall|k: (RLoc, CLoc)| !s.cached().dom().contains(k) by {
            if s.cached().dom().contains(k) {
                assert(retainable(k, s.pending()));
            }
        }
    }
}

/// Right after region `r` finishes, the cache holds no handle of `r` but
/// last-row ones, and those only while the region south of `r` is pending;
/// it holds a handle of the region north of `r` only while that region is
/// pending; and it keeps those that the pending regions still need.
pub proof fn law_eviction_after_finish<V>(
    before: RenderState<V>,
    after: RenderState<V>,
    r: RLoc,
    exist_north: bool,
    exist_south: bool,
)
    requires
        before.wf(),
        after.pending() == before.pending().remove(r),
        exist_north == (north_of(r) matches Some(n) && after.pending().contains(n)),
        exist_south == (south_of(r) matches Some(s) && after.pending().contains(s)),
        after.cached() == before.cached().restrict(
            before.cached().dom().filter(|k: (RLoc, CLoc)| !evicted_by(k, r, exist_north, exist_south)),
        ),
    ensures
        forall|k: (RLoc, CLoc)|
            #[trigger] after.cached().dom().contains(k) && k.0 == r ==> k.1.1 == SIDE - 1
                && exist_south,
        forall|k: (RLoc, CLoc)|
            #[trigger] after.cached().dom().contains(k) && north_of(r) == Some(k.0) ==> exist_north,
        forall|k: (RLoc, CLoc)|
            #[trigger] before.cached().dom().contains(k) && k.0 == r && k.1.1 == SIDE - 1 && exist_south
                ==> after.cached().dom().contains(k),
        forall|k: (RLoc, CLoc)|
            #[trigger] before.cached().dom().contains(k) && north_of(r) == Some(k.0) && exist_north
                ==> after.cached().dom().contains(k),
{
    assert forall|k: (RLoc, CLoc)| #[trigger] after.cached().dom().contains(k) && k.0 == r implies k.1.1
        == SIDE - 1 && exist_south by {
        assert(before.cached().dom().contains(k));
        assert(retainable(k, before.pending()));
    }
}

} // verus!
