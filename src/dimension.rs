//! Scanning the regions of a dimension: which regions are in scope, which of
//! their chunks changed, and which chunks must therefore be rendered.
use vstd::prelude::*;
use crate::coords::{SIDE, CLoc, RLoc, RegionBounds};
use crate::timestamps::{RegionTimestamps, diff_of, changed, chunk_at, TABLE_LEN, lemma_diff_prefix_members};
use crate::workmap::WorkMap;

verus! {

/// Region `r` lies inside the inclusive bounds, or there are none.
pub open spec fn in_bounds(r: RLoc, bounds: Option<RegionBounds>) -> bool {
    match bounds {
        None => true,
        Some((lo, hi)) => lo.0 <= r.0 <= hi.0 && lo.1 <= r.1 <= hi.1,
    }
}

/// What was read for one region: its location, its current timestamp table,
/// and the snapshot stored by an earlier run, if one was found.
pub struct RegionSource {
    pub rloc: RLoc,
    pub timestamps: RegionTimestamps,
    pub cache: Option<RegionTimestamps>,
}

/// The snapshot table a region is diffed against.
pub open spec fn baseline(s: RegionSource, nocache: bool) -> Option<Seq<u32>> {
    if nocache {
        None
    } else {
        match s.cache {
            Some(t) => Some(t.table()),
            None => None,
        }
    }
}

/// The changed chunks of a region.
pub open spec fn source_diff(s: RegionSource, nocache: bool) -> Seq<(usize, usize)> {
    diff_of(s.timestamps.table(), baseline(s, nocache))
}

/// The region south of `r` (one step along `z`), where it is representable.
pub open spec fn south_of(r: RLoc) -> Option<RLoc> {
    if r.1 < i32::MAX {
        Some(RLoc(r.0, (r.1 + 1) as i32))
    } else {
        None
    }
}

/// A change listed in `d` for region `home` requires chunk `c` of region `r`:
/// `c` itself changed, or the chunk north of `c` in the same region changed,
/// or `c` is on the first row of the region south of `home` (inside the
/// bounds) and the chunk above it, on `home`'s last row, changed.
pub open spec fn contributes(
    d: Seq<(usize, usize)>,
    home: RLoc,
    bounds: Option<RegionBounds>,
    r: RLoc,
    c: CLoc,
) -> bool {
    ||| r == home && d.contains((c.0, c.1))
    ||| r == home && 1 <= c.1 < SIDE && d.contains((c.0, (c.1 - 1) as usize))
    ||| south_of(home) == Some(r) && in_bounds(r, bounds) && c.1 == 0 && d.contains(
        (c.0, (SIDE - 1) as usize),
    )
}

/// Source `s` requires chunk `c` of region `r`.
pub open spec fn source_requires(
    s: RegionSource,
    nocache: bool,
    bounds: Option<RegionBounds>,
    r: RLoc,
    c: CLoc,
) -> bool {
    in_bounds(s.rloc, bounds) && contributes(source_diff(s, nocache), s.rloc, bounds, r, c)
}

/// Some source among the first `n` requires chunk `c` of region `r`.
pub open spec fn scan_requires(
    srcs: Seq<RegionSource>,
    nocache: bool,
    bounds: Option<RegionBounds>,
    n: int,
    r: RLoc,
    c: CLoc,
) -> bool {
    exists|k: int| 0 <= k < n && #[trigger] source_requires(srcs[k], nocache, bounds, r, c)
}

/// The snapshots to store after rendering, for the first `n` sources: the
/// table of each source inside the bounds with a nonempty diff.
pub open spec fn snapshots_prefix(
    srcs: Seq<RegionSource>,
    nocache: bool,
    bounds: Option<RegionBounds>,
    n: int,
) -> Seq<(RLoc, Seq<u8>)>
    decreases n,
{
    if n <= 0 {
        Seq::empty()
    } else if in_bounds(srcs[n - 1].rloc, bounds) && source_diff(srcs[n - 1], nocache).len() > 0 {
        snapshots_prefix(srcs, nocache, bounds, n - 1).push(
            (srcs[n - 1].rloc, srcs[n - 1].timestamps.rawdata@),
        )
    } else {
        snapshots_prefix(srcs, nocache, bounds, n - 1)
    }
}

/// The snapshot that the last of the first `n` entries for region `r` holds.
pub open spec fn snapshot_in(snaps: Seq<(RLoc, Seq<u8>)>, n: int, r: RLoc) -> Option<Seq<u8>>
    decreases n,
{
    if n <= 0 {
        None
    } else if snaps[n - 1].0 == r {
        Some(snaps[n - 1].1)
    } else {
        snapshot_in(snaps, n - 1, r)
    }
}

/// Region `r` lies inside the inclusive bounds, or there are none.
pub fn region_in_bounds(r: &RLoc, bounds: &Option<RegionBounds>) -> (res: bool)
    ensures
        res == in_bounds(*r, *bounds),
{
    match bounds {
        None => true,
        Some((lo, hi)) => lo.0 <= r.0 && r.0 <= hi.0 && lo.1 <= r.1 && r.1 <= hi.1,
    }
}

/// The bounds that one or two region locations given as options span: the
/// location itself for one, the smallest rectangle holding both for two,
/// and no bounds otherwise.
pub fn bounds_from_ranges(ranges: &Vec<(i32, i32)>) -> (r: Option<RegionBounds>)
    ensures
        ranges@.len() == 1 ==> r == Some(
            (RLoc(ranges@[0].0, ranges@[0].1), RLoc(ranges@[0].0, ranges@[0].1)),
        ),
        ranges@.len() == 2 ==> r == Some(
            (
                RLoc(
                    if ranges@[0].0 <= ranges@[1].0 { ranges@[0].0 } else { ranges@[1].0 },
                    if ranges@[0].1 <= ranges@[1].1 { ranges@[0].1 } else { ranges@[1].1 },
                ),
                RLoc(
                    if ranges@[0].0 >= ranges@[1].0 { ranges@[0].0 } else { ranges@[1].0 },
                    if ranges@[0].1 >= ranges@[1].1 { ranges@[0].1 } else { ranges@[1].1 },
                ),
            ),
        ),
        ranges@.len() != 1 && ranges@.len() != 2 ==> r is None,
{
    if ranges.len() == 1 {
        let p = ranges[0];
        Some((RLoc(p.0, p.1), RLoc(p.0, p.1)))
    } else if ranges.len() == 2 {
        let a = ranges[0];
        let b = ranges[1];
        let lo = RLoc(if a.0 <= b.0 { a.0 } else { b.0 }, if a.1 <= b.1 { a.1 } else { b.1 });
        let hi = RLoc(if a.0 >= b.0 { a.0 } else { b.0 }, if a.1 >= b.1 { a.1 } else { b.1 });
        Some((lo, hi))
    } else {
        None
    }
}

/// Every entry of a diff is a chunk inside the region.
proof fn lemma_diff_valid(me: Seq<u32>, snapshot: Option<Seq<u32>>, n: int)
    requires
        0 <= n <= TABLE_LEN,
    ensures
        forall|j: int|
            0 <= j < crate::timestamps::diff_prefix(me, snapshot, n).len() ==> {
                let p = #[trigger] crate::timestamps::diff_prefix(me, snapshot, n)[j];
                p.0 < SIDE && p.1 < SIDE
            },
    decreases n,
{
    if n > 0 {
        lemma_diff_valid(me, snapshot, n - 1);
        assert(chunk_at(n - 1).0 < SIDE && chunk_at(n - 1).1 < SIDE);
        let p = crate::timestamps::diff_prefix(me, snapshot, n - 1);
        if changed(me, snapshot, n - 1) {
            assert forall|j: int| 0 <= j < p.len() + 1 implies {
                let q = #[trigger] p.push(chunk_at(n - 1))[j];
                q.0 < SIDE && q.1 < SIDE
            } by {
                if j < p.len() {
                    assert(p.push(chunk_at(n - 1))[j] == p[j]);
                }
            }
        }
    }
}

/// Chunk `c` of region `r` is in the map.
pub open spec fn map_requires(m: Map<RLoc, Set<CLoc>>, r: RLoc, c: CLoc) -> bool {
    m.dom().contains(r) && m[r].contains(c)
}

/// What one changed chunk `p` of region `home` requires.
pub open spec fn step_requires(
    p: (usize, usize),
    home: RLoc,
    bounds: Option<RegionBounds>,
    r: RLoc,
    c: CLoc,
) -> bool {
    ||| r == home && c == CLoc(p.0, p.1)
    ||| r == home && p.1 + 1 < SIDE && c == CLoc(p.0, (p.1 + 1) as usize)
    ||| p.1 == SIDE - 1 && south_of(home) == Some(r) && in_bounds(r, bounds) && c == CLoc(p.0, 0)
}

proof fn lemma_prefix_contains<T>(d: Seq<T>, j: int, q: T)
    requires
        0 <= j < d.len(),
    ensures
        d.subrange(0, j + 1).contains(q) <==> (d.subrange(0, j).contains(q) || d[j] == q),
{
    let a = d.subrange(0, j);
    let b = d.subrange(0, j + 1);
    assert(b =~= a.push(d[j]));
    if b.contains(q) {
        let i = choose|i: int| 0 <= i < b.len() && b[i] == q;
        if i < j {
            assert(a[i] == q);
        }
    }
    if a.contains(q) {
        let i = choose|i: int| 0 <= i < a.len() && a[i] == q;
        assert(b[i] == q);
    }
    if d[j] == q {
        assert(b[j] == q);
    }
}

proof fn lemma_contributes_step(
    d: Seq<(usize, usize)>,
    j: int,
    home: RLoc,
    bounds: Option<RegionBounds>,
    r: RLoc,
    c: CLoc,
)
    requires
        0 <= j < d.len(),
        d[j].0 < SIDE,
        d[j].1 < SIDE,
    ensures
        contributes(d.subrange(0, j + 1), home, bounds, r, c) <==> (contributes(
            d.subrange(0, j),
            home,
            bounds,
            r,
            c,
        ) || step_requires(d[j], home, bounds, r, c)),
{
    lemma_prefix_contains(d, j, (c.0, c.1));
    if 1 <= c.1 {
        lemma_prefix_contains(d, j, (c.0, (c.1 - 1) as usize));
    }
    lemma_prefix_contains(d, j, (c.0, (SIDE - 1) as usize));
}

/// The scanned state of a dimension: the snapshots to store once rendering
/// is done, and the work map.
pub struct Dimension {
    timestamps: Vec<(RLoc, RegionTimestamps)>,
    render_regions: WorkMap,
    cache_ro: bool,
}

impl Dimension {
    /// The snapshots to store, with the region each belongs to.
    pub closed spec fn snapshots(&self) -> Seq<(RLoc, Seq<u8>)> {
        self.timestamps@.map_values(|p: (RLoc, RegionTimestamps)| (p.0, p.1.rawdata@))
    }

    /// The work map.
    pub closed spec fn work(&self) -> WorkMap {
        self.render_regions
    }

    /// Snapshots are read but never stored.
    pub closed spec fn read_only(&self) -> bool {
        self.cache_ro
    }

    /// The internal invariant.
    pub closed spec fn wf(&self) -> bool {
        self.render_regions.wf()
    }

    /// The work map.
    pub fn render_regions(&self) -> (r: &WorkMap)
        requires
            self.wf(),
        ensures
            *r == self.work(),
            r.wf(),
    {
        &self.render_regions
    }

    /// The bytes to store as the snapshot of region `rloc` once it is
    /// rendered: none where snapshots are read-only or the region has none to
    /// store, else the table of its last entry.
    pub fn save_cache(&self, rloc: &RLoc) -> (r: Option<Vec<u8>>)
        ensures
            self.read_only() ==> r is None,
            !self.read_only() ==> match r {
                None => snapshot_in(self.snapshots(), self.snapshots().len() as int, *rloc) is None,
                Some(b) => snapshot_in(self.snapshots(), self.snapshots().len() as int, *rloc)
                    == Some(b@),
            },
    {
        if self.cache_ro {
            return None;
        }
        let mut i: usize = self.timestamps.len();
        while i > 0
            invariant
                !self.cache_ro,
                i <= self.timestamps@.len(),
                snapshot_in(self.snapshots(), self.snapshots().len() as int, *rloc)
                    == snapshot_in(self.snapshots(), i as int, *rloc),
            decreases i,
        {
            assert(self.snapshots()[i - 1] == (self.timestamps@[i - 1].0, self.timestamps@[i - 1].1.rawdata@));
            if self.timestamps[i - 1].0 == *rloc {
                let mut out: Vec<u8> = Vec::new();
                self.timestamps[i - 1].1.save_cache(&mut out);
                return Some(out);
            }
            i -= 1;
        }
        None
    }

    /// Every snapshot to store, with its region, in scan order; none where
    /// snapshots are read-only.
    pub fn save_cache_all(&self) -> (r: Vec<(RLoc, Vec<u8>)>)
        ensures
            self.read_only() ==> r@.len() == 0,
            !self.read_only() ==> r@.len() == self.snapshots().len(),
            !self.read_only() ==> forall|i: int|
                0 <= i < r@.len() ==> (#[trigger] r@[i]).0 == self.snapshots()[i].0 && r@[i].1@
                    == self.snapshots()[i].1,
    {
        let mut all: Vec<(RLoc, Vec<u8>)> = Vec::new();
        if self.cache_ro {
            return all;
        }
        let mut i: usize = 0;
        while i < self.timestamps.len()
            invariant
                !self.cache_ro,
                i <= self.timestamps@.len(),
                all@.len() == i,
                forall|j: int|
                    0 <= j < i ==> (#[trigger] all@[j]).0 == self.snapshots()[j].0 && all@[j].1@
                        == self.snapshots()[j].1,
            decreases self.timestamps@.len() - i,
        {
            assert(self.snapshots()[i as int] == (self.timestamps@[i as int].0, self.timestamps@[i as int].1.rawdata@));
            let mut out: Vec<u8> = Vec::new();
            self.timestamps[i].1.save_cache(&mut out);
            all.push((self.timestamps[i].0, out));
            i += 1;
        }
        all
    }

    /// Scans the regions read from a dimension's directory.
    ///
    /// Regions outside `bounds` are left out altogether. Each other region is
    /// diffed against its snapshot, or against none where `nocache` is set.
    /// A region with an empty diff adds nothing. Otherwise its table is kept
    /// as the snapshot to store, and each changed chunk requires itself and
    /// the chunk south of it, which for the last row is the first row of the
    /// region to the south, where that region is inside the bounds.
    pub fn from_dimdir(
        sources: &Vec<RegionSource>,
        bounds: Option<RegionBounds>,
        nocache: bool,
        cache_ro: bool,
    ) -> (r: Dimension)
        ensures
            r.wf(),
            r.read_only() == cache_ro,
            r.snapshots() == snapshots_prefix(sources@, nocache, bounds, sources@.len() as int),
            forall|rr: RLoc, c: CLoc|
                #![trigger r.work().requires_chunk(rr, c)]
                r.work().requires_chunk(rr, c) <==> scan_requires(
                    sources@,
                    nocache,
                    bounds,
                    sources@.len() as int,
                    rr,
                    c,
                ),
            forall|rr: RLoc|
                #[trigger] r.work()@.dom().contains(rr) ==> r.work()@[rr] != Set::<CLoc>::empty(),
    {
        let mut timestamps: Vec<(RLoc, RegionTimestamps)> = Vec::new();
        let mut work = WorkMap::new();
        let mut k: usize = 0;
        while k < sources.len()
            invariant
                k <= sources@.len(),
                work.wf(),
                timestamps@.map_values(|p: (RLoc, RegionTimestamps)| (p.0, p.1.rawdata@))
                    == snapshots_prefix(sources@, nocache, bounds, k as int),
                forall|rr: RLoc, c: CLoc|
                    #![trigger map_requires(work@, rr, c)]
                    map_requires(work@, rr, c) <==> scan_requires(
                        sources@,
                        nocache,
                        bounds,
                        k as int,
                        rr,
                        c,
                    ),
                forall|rr: RLoc|
                    #[trigger] work@.dom().contains(rr) ==> work@[rr] != Set::<CLoc>::empty(),
            decreases sources@.len() - k,
        {
            let src = &sources[k];
            let ghost ts_before = timestamps@;
            proof {
                assert forall|rr: RLoc, c: CLoc|
                    scan_requires(sources@, nocache, bounds, k + 1, rr, c) <==> (scan_requires(
                        sources@,
                        nocache,
                        bounds,
                        k as int,
                        rr,
                        c,
                    ) || source_requires(sources@[k as int], nocache, bounds, rr, c)) by {
                    if scan_requires(sources@, nocache, bounds, k + 1, rr, c) {
                        let w = choose|w: int|
                            0 <= w < k + 1 && #[trigger] source_requires(
                                sources@[w],
                                nocache,
                                bounds,
                                rr,
                                c,
                            );
                        if w < k {
                            assert(scan_requires(sources@, nocache, bounds, k as int, rr, c));
                        }
                    }
                    if scan_requires(sources@, nocache, bounds, k as int, rr, c) {
                        let w = choose|w: int|
                            0 <= w < k && #[trigger] source_requires(
                                sources@[w],
                                nocache,
                                bounds,
                                rr,
                                c,
                            );
                        assert(source_requires(sources@[w], nocache, bounds, rr, c));
                    }
                    if source_requires(sources@[k as int], nocache, bounds, rr, c) {
                        assert(source_requires(sources@[k as int], nocache, bounds, rr, c));
                    }
                }
            }
            if !region_in_bounds(&src.rloc, &bounds) {
                proof {
                    assert(snapshots_prefix(sources@, nocache, bounds, k + 1) == snapshots_prefix(sources@, nocache, bounds, k as int));
                }
                k += 1;
                continue;
            }
            let snapshot: Option<&RegionTimestamps> = if nocache {
                None
            } else {
                match &src.cache {
                    Some(c) => Some(c),
                    None => None,
                }
            };
            let diff = src.timestamps.diffs(snapshot);
            assert(diff@ == source_diff(*src, nocache));
            if diff.len() == 0 {
                proof {
                    assert forall|q: (usize, usize)| !diff@.contains(q) by {}
                    assert(snapshots_prefix(sources@, nocache, bounds, k + 1) == snapshots_prefix(sources@, nocache, bounds, k as int));
                }
                k += 1;
                continue;
            }
            timestamps.push((src.rloc, RegionTimestamps { rawdata: src.timestamps.rawdata }));
            assert(timestamps@.map_values(|p: (RLoc, RegionTimestamps)| (p.0, p.1.rawdata@))
                =~= ts_before.map_values(|p: (RLoc, RegionTimestamps)| (p.0, p.1.rawdata@)).push(
                (src.rloc, src.timestamps.rawdata@),
            ));
            let ghost w_before = work@;
            let home = work.entry(&src.rloc);
            proof {
                assert forall|rr: RLoc, c: CLoc| #![trigger map_requires(work@, rr, c)]
                    map_requires(work@, rr, c) <==> map_requires(w_before, rr, c) by {}
            }
            let south: Option<RLoc> = if src.rloc.1 < i32::MAX {
                let s = RLoc(src.rloc.0, src.rloc.1 + 1);
                if region_in_bounds(&s, &bounds) {
                    Some(s)
                } else {
                    None
                }
            } else {
                None
            };
            proof {
                lemma_diff_valid(src.timestamps.table(), baseline(*src, nocache), TABLE_LEN as int);
                assert(diff@.subrange(0, 0) =~= Seq::<(usize, usize)>::empty());
            }
            let mut j: usize = 0;
            while j < diff.len()
                invariant
                    k < sources@.len(),
                    *src == sources@[k as int],
                    in_bounds(src.rloc, bounds),
                    j <= diff@.len(),
                    diff@ == source_diff(*src, nocache),
                    forall|i: int|
                        0 <= i < diff@.len() ==> (#[trigger] diff@[i]).0 < SIDE && diff@[i].1 < SIDE,
                    south matches Some(s) ==> south_of(src.rloc) == Some(s) && in_bounds(s, bounds),
                    south is None ==> south_of(src.rloc) is None || !in_bounds(
                        south_of(src.rloc)->Some_0,
                        bounds,
                    ),
                    work.wf(),
                    home < work.keys().len(),
                    work.keys()[home as int] == src.rloc,
                    forall|rr: RLoc, c: CLoc|
                        #![trigger map_requires(work@, rr, c)]
                        map_requires(work@, rr, c) <==> (scan_requires(
                            sources@,
                            nocache,
                            bounds,
                            k as int,
                            rr,
                            c,
                        ) || contributes(diff@.subrange(0, j as int), src.rloc, bounds, rr, c)),
                    forall|rr: RLoc|
                        #[trigger] work@.dom().contains(rr) ==> work@[rr] != Set::<CLoc>::empty() || (
                        j == 0 && rr == src.rloc),
                decreases diff@.len() - j,
            {
                let (x, z) = diff[j];
                let ghost w0 = work@;
                work.mark(home, CLoc(x, z));
                if z < SIDE - 1 {
                    work.mark(home, CLoc(x, z + 1));
                    proof {
                        assert forall|rr: RLoc, c: CLoc|
                            map_requires(work@, rr, c) <==> (map_requires(w0, rr, c) || step_requires(
                                (x, z),
                                src.rloc,
                                bounds,
                                rr,
                                c,
                            )) by {}
                    }
                } else {
                    match south {
                        Some(s) => {
                            let ghost w1 = work@;
                            let si = work.entry(&s);
                            work.mark(si, CLoc(x, 0));
                            proof {
                                assert forall|rr: RLoc, c: CLoc|
                                    map_requires(work@, rr, c) <==> (map_requires(w0, rr, c)
                                        || step_requires((x, z), src.rloc, bounds, rr, c)) by {
                                    if rr == s {
                                        assert(s != src.rloc);
                                    }
                                }
                            }
                        },
                        None => {
                            proof {
                                assert forall|rr: RLoc, c: CLoc|
                                    map_requires(work@, rr, c) <==> (map_requires(w0, rr, c)
                                        || step_requires((x, z), src.rloc, bounds, rr, c)) by {}
                            }
                        },
                    }
                }
                proof {
                    assert forall|rr: RLoc, c: CLoc|
                        #![trigger map_requires(work@, rr, c)]
                        map_requires(work@, rr, c) <==> (scan_requires(
                            sources@,
                            nocache,
                            bounds,
                            k as int,
                            rr,
                            c,
                        ) || contributes(diff@.subrange(0, j + 1), src.rloc, bounds, rr, c)) by {
                        lemma_contributes_step(diff@, j as int, src.rloc, bounds, rr, c);
                        assert(map_requires(w0, rr, c) == (scan_requires(
                            sources@,
                            nocache,
                            bounds,
                            k as int,
                            rr,
                            c,
                        ) || contributes(diff@.subrange(0, j as int), src.rloc, bounds, rr, c)));
                    }
                    assert forall|rr: RLoc|
                        #[trigger] work@.dom().contains(rr) implies work@[rr] != Set::<CLoc>::empty() by {
                        if rr == src.rloc {
                            assert(work@[rr].contains(CLoc(x, z)));
                        } else if w0.dom().contains(rr) {
                            assert(w0[rr] != Set::<CLoc>::empty());
                            let c0 = w0[rr].choose();
                            assert(w0[rr].contains(c0)) by {
                                if !w0[rr].contains(c0) {
                                    assert(w0[rr] =~= Set::<CLoc>::empty());
                                }
                            }
                            assert(work@[rr].contains(c0));
                        } else {
                            assert(work@[rr].contains(CLoc(x, 0)));
                        }
                    }
                }
                j += 1;
            }
            proof {
                assert(diff@.subrange(0, diff@.len() as int) =~= diff@);
                assert forall|rr: RLoc, c: CLoc|
                    #![trigger map_requires(work@, rr, c)]
                    map_requires(work@, rr, c) <==> scan_requires(
                        sources@,
                        nocache,
                        bounds,
                        k + 1,
                        rr,
                        c,
                    ) by {
                    assert(source_requires(sources@[k as int], nocache, bounds, rr, c) == contributes(
                        diff@,
                        src.rloc,
                        bounds,
                        rr,
                        c,
                    ));
                }
            }
            k += 1;
        }
        let r = Dimension { timestamps, render_regions: work, cache_ro };
        proof {
            assert forall|rr: RLoc, c: CLoc|
                #![trigger r.work().requires_chunk(rr, c)]
                r.work().requires_chunk(rr, c) <==> scan_requires(
                    sources@,
                    nocache,
                    bounds,
                    sources@.len() as int,
                    rr,
                    c,
                ) by {
                assert(r.work().requires_chunk(rr, c) == map_requires(r.work()@, rr, c));
            }
        }
        r
    }
}

/// The sources as the next run reads them, where nothing changed on disk but
/// the snapshots this run stored: each region that got a snapshot now has its
/// own table as its cache.
pub open spec fn after_store(
    srcs: Seq<RegionSource>,
    nocache: bool,
    bounds: Option<RegionBounds>,
) -> Seq<RegionSource> {
    srcs.map_values(
        |s: RegionSource|
            if in_bounds(s.rloc, bounds) && source_diff(s, nocache).len() > 0 {
                RegionSource { rloc: s.rloc, timestamps: s.timestamps, cache: Some(s.timestamps) }
            } else {
                s
            },
    )
}

/// A diff with no member is empty.
proof fn lemma_no_member_empty(d: Seq<(usize, usize)>)
    requires
        forall|q: (usize, usize)| !d.contains(q),
    ensures
        d.len() == 0,
{
    if d.len() > 0 {
        assert(d.contains(d[0]));
    }
}

/// Where a table has no change against no snapshot, it has none against any.
proof fn lemma_cold_diff_empty(me: Seq<u32>, snapshot: Option<Seq<u32>>)
    requires
        diff_of(me, None).len() == 0,
    ensures
        diff_of(me, snapshot).len() == 0,
{
    assert forall|q: (usize, usize)| !diff_of(me, snapshot).contains(q) by {
        lemma_diff_prefix_members(me, None, TABLE_LEN as int, q);
        lemma_diff_prefix_members(me, snapshot, TABLE_LEN as int, q);
        if diff_of(me, snapshot).contains(q) {
            assert(diff_of(me, None).contains(q));
        }
    }
    lemma_no_member_empty(diff_of(me, snapshot));
}

/// Every snapshot to store belongs to a region inside the bounds.
proof fn lemma_snapshots_in_bounds(
    srcs: Seq<RegionSource>,
    nocache: bool,
    bounds: Option<RegionBounds>,
    n: int,
)
    requires
        0 <= n <= srcs.len(),
    ensures
        forall|i: int|
            0 <= i < snapshots_prefix(srcs, nocache, bounds, n).len() ==> in_bounds(
                (#[trigger] snapshots_prefix(srcs, nocache, bounds, n)[i]).0,
                bounds,
            ),
    decreases n,
{
    if n > 0 {
        lemma_snapshots_in_bounds(srcs, nocache, bounds, n - 1);
        let p = snapshots_prefix(srcs, nocache, bounds, n - 1);
        if in_bounds(srcs[n - 1].rloc, bounds) && source_diff(srcs[n - 1], nocache).len() > 0 {
            assert forall|i: int| 0 <= i < p.len() + 1 implies in_bounds(
                (#[trigger] p.push((srcs[n - 1].rloc, srcs[n - 1].timestamps.rawdata@))[i]).0,
                bounds,
            ) by {
                if i < p.len() {
                    assert(p.push((srcs[n - 1].rloc, srcs[n - 1].timestamps.rawdata@))[i] == p[i]);
                }
            }
        }
    }
}

/// A region outside the bounds has none of its chunks required and gets no
/// snapshot, whatever its timestamps: no tile is drawn for it and nothing is
/// stored for it.
pub proof fn law_out_of_bounds_untouched(
    srcs: Seq<RegionSource>,
    nocache: bool,
    bounds: Option<RegionBounds>,
    r: RLoc,
)
    requires
        !in_bounds(r, bounds),
    ensures
        forall|c: CLoc| !scan_requires(srcs, nocache, bounds, srcs.len() as int, r, c),
        forall|i: int|
            0 <= i < snapshots_prefix(srcs, nocache, bounds, srcs.len() as int).len()
                ==> (#[trigger] snapshots_prefix(srcs, nocache, bounds, srcs.len() as int)[i]).0
                != r,
{
    lemma_snapshots_in_bounds(srcs, nocache, bounds, srcs.len() as int);
}

/// A change on the last row of a region requires the chunk below it on the
/// first row of the region to the south, whether or not that region changed
/// itself, where that region is inside the bounds.
pub proof fn law_last_row_propagates(
    srcs: Seq<RegionSource>,
    nocache: bool,
    bounds: Option<RegionBounds>,
    k: int,
    x: usize,
)
    requires
        0 <= k < srcs.len(),
        in_bounds(srcs[k].rloc, bounds),
        source_diff(srcs[k], nocache).contains((x, (SIDE - 1) as usize)),
        srcs[k].rloc.1 < i32::MAX,
        in_bounds(RLoc(srcs[k].rloc.0, (srcs[k].rloc.1 + 1) as i32), bounds),
    ensures
        scan_requires(
            srcs,
            nocache,
            bounds,
            srcs.len() as int,
            RLoc(srcs[k].rloc.0, (srcs[k].rloc.1 + 1) as i32),
            CLoc(x, 0),
        ),
{
    assert(source_requires(
        srcs[k],
        nocache,
        bounds,
        RLoc(srcs[k].rloc.0, (srcs[k].rloc.1 + 1) as i32),
        CLoc(x, 0),
    ));
}

/// Scanning again after storing this scan's snapshots, with the snapshots
/// read and nothing else changed, requires no chunk and stores nothing.
pub proof fn law_rescan_is_empty(
    srcs: Seq<RegionSource>,
    nocache: bool,
    bounds: Option<RegionBounds>,
)
    ensures
        forall|r: RLoc, c: CLoc|
            !scan_requires(
                after_store(srcs, nocache, bounds),
                false,
                bounds,
                srcs.len() as int,
                r,
                c,
            ),
        snapshots_prefix(after_store(srcs, nocache, bounds), false, bounds, srcs.len() as int)
            == Seq::<(RLoc, Seq<u8>)>::empty(),
{
    let next = after_store(srcs, nocache, bounds);
    assert forall|k: int|
        0 <= k < srcs.len() && in_bounds(next[k].rloc, bounds) implies #[trigger] source_diff(
        next[k],
        false,
    ).len() == 0 by {
        let s = srcs[k];
        if in_bounds(s.rloc, bounds) && source_diff(s, nocache).len() > 0 {
            crate::timestamps::law_diff_same_snapshot(s.timestamps);
        } else if nocache {
            lemma_cold_diff_empty(s.timestamps.table(), baseline(s, false));
        }
    }
    assert forall|r: RLoc, c: CLoc|
        !scan_requires(next, false, bounds, srcs.len() as int, r, c) by {
        if scan_requires(next, false, bounds, srcs.len() as int, r, c) {
            let k = choose|k: int|
                0 <= k < srcs.len() && #[trigger] source_requires(next[k], false, bounds, r, c);
            assert(source_diff(next[k], false).len() == 0);
        }
    }
    lemma_rescan_stores_nothing(next, bounds, srcs.len() as int);
}

proof fn lemma_rescan_stores_nothing(next: Seq<RegionSource>, bounds: Option<RegionBounds>, n: int)
    requires
        0 <= n <= next.len(),
        forall|k: int|
            0 <= k < next.len() && in_bounds(next[k].rloc, bounds) ==> #[trigger] source_diff(
                next[k],
                false,
            ).len() == 0,
    ensures
        snapshots_prefix(next, false, bounds, n) == Seq::<(RLoc, Seq<u8>)>::empty(),
    decreases n,
{
    if n > 0 {
        lemma_rescan_stores_nothing(next, bounds, n - 1);
    }
}

/// No entry of the first `n` is for region `r`, so it has no snapshot.
proof fn lemma_no_entry_no_snapshot(snaps: Seq<(RLoc, Seq<u8>)>, n: int, r: RLoc)
    requires
        0 <= n <= snaps.len(),
        forall|i: int| 0 <= i < n ==> (#[trigger] snaps[i]).0 != r,
    ensures
        snapshot_in(snaps, n, r) is None,
    decreases n,
{
    if n > 0 {
        lemma_no_entry_no_snapshot(snaps, n - 1, r);
    }
}

/// Every snapshot to store belongs to a source with a nonempty diff.
proof fn lemma_snapshots_changed(
    srcs: Seq<RegionSource>,
    nocache: bool,
    bounds: Option<RegionBounds>,
    n: int,
    r: RLoc,
)
    requires
        0 <= n <= srcs.len(),
        forall|k: int|
            0 <= k < srcs.len() && (#[trigger] srcs[k]).rloc == r ==> source_diff(srcs[k], nocache).len()
                == 0,
    ensures
        forall|i: int|
            0 <= i < snapshots_prefix(srcs, nocache, bounds, n).len() ==> (
            #[trigger] snapshots_prefix(srcs, nocache, bounds, n)[i]).0 != r,
    decreases n,
{
    if n > 0 {
        lemma_snapshots_changed(srcs, nocache, bounds, n - 1, r);
        let p = snapshots_prefix(srcs, nocache, bounds, n - 1);
        if in_bounds(srcs[n - 1].rloc, bounds) && source_diff(srcs[n - 1], nocache).len() > 0 {
            let e = (srcs[n - 1].rloc, srcs[n - 1].timestamps.rawdata@);
            assert forall|i: int| 0 <= i < p.len() + 1 implies (#[trigger] p.push(e)[i]).0 != r by {
                if i < p.len() {
                    assert(p.push(e)[i] == p[i]);
                }
            }
        }
    }
}

/// A region with no change of its own requires exactly the first-row chunks
/// below changed last-row chunks of the region to its north, where it lies
/// inside the bounds, and gets no snapshot.
pub proof fn law_quiet_region(
    srcs: Seq<RegionSource>,
    nocache: bool,
    bounds: Option<RegionBounds>,
    r: RLoc,
)
    requires
        forall|k: int|
            0 <= k < srcs.len() && (#[trigger] srcs[k]).rloc == r ==> source_diff(srcs[k], nocache).len()
                == 0,
    ensures
        forall|c: CLoc|
            scan_requires(srcs, nocache, bounds, srcs.len() as int, r, c) <==> (c.1 == 0 && in_bounds(
                r,
                bounds,
            ) && exists|k: int|
                0 <= k < srcs.len() && in_bounds(srcs[k].rloc, bounds) && south_of(srcs[k].rloc)
                    == Some(r) && #[trigger] source_diff(srcs[k], nocache).contains(
                    (c.0, (SIDE - 1) as usize),
                )),
        snapshot_in(
            snapshots_prefix(srcs, nocache, bounds, srcs.len() as int),
            snapshots_prefix(srcs, nocache, bounds, srcs.len() as int).len() as int,
            r,
        ) is None,
{
    assert forall|c: CLoc|
        scan_requires(srcs, nocache, bounds, srcs.len() as int, r, c) <==> (c.1 == 0 && in_bounds(
            r,
            bounds,
        ) && exists|k: int|
            0 <= k < srcs.len() && in_bounds(srcs[k].rloc, bounds) && south_of(srcs[k].rloc) == Some(
                r,
            ) && #[trigger] source_diff(srcs[k], nocache).contains((c.0, (SIDE - 1) as usize))) by {
        if scan_requires(srcs, nocache, bounds, srcs.len() as int, r, c) {
            let k = choose|k: int|
                0 <= k < srcs.len() && #[trigger] source_requires(srcs[k], nocache, bounds, r, c);
            let d = source_diff(srcs[k], nocache);
            if srcs[k].rloc == r {
                assert(d.len() == 0);
                assert(!d.contains((c.0, c.1)));
                assert(!d.contains((c.0, (c.1 - 1) as usize)));
            }
        }
        if c.1 == 0 && in_bounds(r, bounds) && exists|k: int|
            0 <= k < srcs.len() && in_bounds(srcs[k].rloc, bounds) && south_of(srcs[k].rloc) == Some(
                r,
            ) && #[trigger] source_diff(srcs[k], nocache).contains((c.0, (SIDE - 1) as usize)) {
            let k = choose|k: int|
                0 <= k < srcs.len() && in_bounds(srcs[k].rloc, bounds) && south_of(srcs[k].rloc)
                    == Some(r) && #[trigger] source_diff(srcs[k], nocache).contains(
                    (c.0, (SIDE - 1) as usize),
                );
            assert(source_requires(srcs[k], nocache, bounds, r, c));
        }
    }
    let snaps = snapshots_prefix(srcs, nocache, bounds, srcs.len() as int);
    lemma_snapshots_changed(srcs, nocache, bounds, srcs.len() as int, r);
    lemma_no_entry_no_snapshot(snaps, snaps.len() as int, r);
}

} // verus!
