//! Per-region chunk timestamp tables and the diff between two of them.
use vstd::prelude::*;
use crate::coords::{SIDE, CLoc};

verus! {

/// Bytes in a timestamp table: four per chunk.
pub const TABLE_BYTES: usize = 4096;

/// Entries in a timestamp table: one per chunk of a region.
pub const TABLE_LEN: usize = 1024;

/// Offset of the timestamp table inside a region container.
pub const TABLE_OFFSET: usize = 4096;

/// The big-endian `u32` held by bytes `4 * i .. 4 * i + 4` of `b`.
pub open spec fn be_u32_at(b: Seq<u8>, i: int) -> u32 {
    (b[4 * i] as int * 0x100_0000 + b[4 * i + 1] as int * 0x1_0000
        + b[4 * i + 2] as int * 0x100 + b[4 * i + 3] as int) as u32
}

/// The timestamps that a raw table encodes, one per chunk index.
pub open spec fn table_of(raw: Seq<u8>) -> Seq<u32> {
    Seq::new(TABLE_LEN as nat, |i: int| be_u32_at(raw, i))
}

/// The chunk at index `i` of a table: `x = i mod SIDE`, `z = i div SIDE`.
pub open spec fn chunk_at(i: int) -> (usize, usize) {
    ((i % SIDE as int) as usize, (i / SIDE as int) as usize)
}

/// Chunk `i` counts as changed: written at all, and not as the snapshot has it.
pub open spec fn changed(me: Seq<u32>, snapshot: Option<Seq<u32>>, i: int) -> bool {
    me[i] != 0 && match snapshot {
        None => true,
        Some(s) => s[i] != me[i],
    }
}

/// The changed chunks among the first `n` indices, in index order.
pub open spec fn diff_prefix(me: Seq<u32>, snapshot: Option<Seq<u32>>, n: int) -> Seq<(usize, usize)>
    decreases n,
{
    if n <= 0 {
        Seq::empty()
    } else if changed(me, snapshot, n - 1) {
        diff_prefix(me, snapshot, n - 1).push(chunk_at(n - 1))
    } else {
        diff_prefix(me, snapshot, n - 1)
    }
}

/// The changed chunks of a whole table, in index order.
pub open spec fn diff_of(me: Seq<u32>, snapshot: Option<Seq<u32>>) -> Seq<(usize, usize)> {
    diff_prefix(me, snapshot, TABLE_LEN as int)
}

/// The written chunks among the first `n` indices with their timestamps,
/// in index order.
pub open spec fn listed_prefix(me: Seq<u32>, n: int) -> Seq<ChunkTimestamp>
    decreases n,
{
    if n <= 0 {
        Seq::empty()
    } else if me[n - 1] != 0 {
        listed_prefix(me, n - 1).push(
            ChunkTimestamp {
                x: chunk_at(n - 1).0,
                z: chunk_at(n - 1).1,
                timestamp: me[n - 1],
            },
        )
    } else {
        listed_prefix(me, n - 1)
    }
}

/// The table that was read short of its full size.
#[derive(Clone, Copy, Debug, PartialEq, Eq, Structural)]
pub struct TruncatedError;

/// The chunk timestamp table of one region, as raw big-endian bytes.
pub struct RegionTimestamps {
    pub rawdata: [u8; 4096],
}

/// A chunk together with the time it was last written.
#[derive(Clone, Copy, Debug, PartialEq, Eq, Structural)]
pub struct ChunkTimestamp {
    pub x: usize,
    pub z: usize,
    pub timestamp: u32,
}

impl RegionTimestamps {
    /// The decoded timestamps, indexed by `z * SIDE + x`.
    pub open spec fn table(&self) -> Seq<u32> {
        table_of(self.rawdata@)
    }
}

/// The big-endian `u32` held by bytes `4 * i .. 4 * i + 4` of `raw`.
fn read_be_u32(raw: &[u8; 4096], i: usize) -> (r: u32)
    requires
        i < TABLE_LEN,
    ensures
        r == be_u32_at(raw@, i as int),
{
    let b0 = raw[4 * i] as u32;
    let b1 = raw[4 * i + 1] as u32;
    let b2 = raw[4 * i + 2] as u32;
    let b3 = raw[4 * i + 3] as u32;
    b0 * 0x100_0000 + b1 * 0x1_0000 + b2 * 0x100 + b3
}

impl RegionTimestamps {
    /// The table held by bytes `start .. start + TABLE_BYTES` of `data`.
    fn read_at(data: &[u8], start: usize) -> (r: RegionTimestamps)
        requires
            start + TABLE_BYTES <= data@.len(),
        ensures
            r.rawdata@ == data@.subrange(start as int, start + TABLE_BYTES),
    {
        let len = data.len();
        let mut rawdata: [u8; 4096] = [0; 4096];
        let mut i: usize = 0;
        while i < TABLE_BYTES
            invariant
                i <= TABLE_BYTES,
                len == data@.len(),
                start + TABLE_BYTES <= len,
                forall|j: int| 0 <= j < i ==> rawdata@[j] == data@[start + j],
            decreases TABLE_BYTES - i,
        {
            rawdata[i] = data[start + i];
            i += 1;
        }
        assert(rawdata@ =~= data@.subrange(start as int, start + TABLE_BYTES));
        RegionTimestamps { rawdata }
    }

    /// Reads the table of a region container, which stands at `TABLE_OFFSET`;
    /// fails where `data` ends before the table does.
    pub fn from_regiondata(data: &[u8]) -> (r: Result<RegionTimestamps, TruncatedError>)
        ensures
            data@.len() >= TABLE_OFFSET + TABLE_BYTES <==> r is Ok,
            r matches Ok(t) ==> t.rawdata@ == data@.subrange(
                TABLE_OFFSET as int,
                TABLE_OFFSET + TABLE_BYTES,
            ),
    {
        if data.len() < TABLE_OFFSET + TABLE_BYTES {
            return Err(TruncatedError);
        }
        Ok(Self::read_at(data, TABLE_OFFSET))
    }

    /// Reads a stored snapshot, which is the table's bytes alone.
    pub fn from_cachedata(data: &[u8]) -> (r: Result<RegionTimestamps, TruncatedError>)
        ensures
            data@.len() >= TABLE_BYTES <==> r is Ok,
            r matches Ok(t) ==> t.rawdata@ == data@.subrange(0, TABLE_BYTES as int),
    {
        Self::new(data)
    }

    /// Reads a table from the first `TABLE_BYTES` bytes of `data`; fails where
    /// `data` is shorter.
    pub fn new(data: &[u8]) -> (r: Result<RegionTimestamps, TruncatedError>)
        ensures
            data@.len() >= TABLE_BYTES <==> r is Ok,
            r matches Ok(t) ==> t.rawdata@ == data@.subrange(0, TABLE_BYTES as int),
    {
        if data.len() < TABLE_BYTES {
            return Err(TruncatedError);
        }
        Ok(Self::read_at(data, 0))
    }

    /// Appends the snapshot of this table to `out`: its bytes, unchanged.
    pub fn save_cache(&self, out: &mut Vec<u8>)
        ensures
            final(out)@ == old(out)@ + self.rawdata@,
    {
        let ghost start = out@;
        let mut i: usize = 0;
        while i < TABLE_BYTES
            invariant
                i <= TABLE_BYTES,
                out@ == start + self.rawdata@.subrange(0, i as int),
            decreases TABLE_BYTES - i,
        {
            out.push(self.rawdata[i]);
            assert(self.rawdata@.subrange(0, i + 1) =~= self.rawdata@.subrange(0, i as int).push(self.rawdata@[i as int]));
            i += 1;
        }
        assert(self.rawdata@.subrange(0, TABLE_BYTES as int) =~= self.rawdata@);
    }

    /// The decoded timestamps, indexed by `z * SIDE + x`.
    pub fn to_tsarray(&self) -> (r: [u32; 1024])
        ensures
            r@ == self.table(),
    {
        let mut ar: [u32; 1024] = [0; 1024];
        let mut i: usize = 0;
        while i < TABLE_LEN
            invariant
                i <= TABLE_LEN,
                forall|j: int| 0 <= j < i ==> ar@[j] == be_u32_at(self.rawdata@, j),
            decreases TABLE_LEN - i,
        {
            ar[i] = read_be_u32(&self.rawdata, i);
            i += 1;
        }
        assert(ar@ =~= self.table());
        ar
    }

    /// Every written chunk with its timestamp, in index order.
    pub fn list_timestamps(&self) -> (r: Vec<ChunkTimestamp>)
        ensures
            r@ == listed_prefix(self.table(), TABLE_LEN as int),
    {
        let tsarray = self.to_tsarray();
        let mut timestamps: Vec<ChunkTimestamp> = Vec::new();
        let mut index: usize = 0;
        while index < TABLE_LEN
            invariant
                index <= TABLE_LEN,
                tsarray@ == self.table(),
                timestamps@ == listed_prefix(self.table(), index as int),
            decreases TABLE_LEN - index,
        {
            let timestamp = tsarray[index];
            if timestamp > 0 {
                timestamps.push(ChunkTimestamp { x: index % SIDE, z: index / SIDE, timestamp });
            }
            index += 1;
        }
        timestamps
    }

    /// The chunks that changed against `other`, in index order: those written
    /// in this table whose timestamp differs from the snapshot's, or every
    /// written chunk where there is no snapshot.
    pub fn diffs(&self, other: Option<&RegionTimestamps>) -> (r: Vec<(usize, usize)>)
        ensures
            r@ == diff_of(self.table(), snapshot_table(other)),
    {
        let me_ar = self.to_tsarray();
        let other_ar: [u32; 1024] = match other {
            Some(o) => o.to_tsarray(),
            None => [0; 1024],
        };
        let mut diffs: Vec<(usize, usize)> = Vec::new();
        let mut index: usize = 0;
        while index < TABLE_LEN
            invariant
                index <= TABLE_LEN,
                me_ar@ == self.table(),
                other matches Some(o) ==> other_ar@ == o.table(),
                diffs@ == diff_prefix(self.table(), snapshot_table(other), index as int),
            decreases TABLE_LEN - index,
        {
            let written = me_ar[index] > 0;
            let differs = match other {
                Some(_) => me_ar[index] != other_ar[index],
                None => true,
            };
            if written && differs {
                diffs.push((index % SIDE, index / SIDE));
            }
            index += 1;
        }
        diffs
    }
}

impl PartialEq for RegionTimestamps {
    fn eq(&self, other: &RegionTimestamps) -> (r: bool)
        ensures
            r == (self.rawdata@ == other.rawdata@),
    {
        let mut i: usize = 0;
        while i < TABLE_BYTES
            invariant
                i <= TABLE_BYTES,
                forall|j: int| 0 <= j < i ==> self.rawdata@[j] == other.rawdata@[j],
            decreases TABLE_BYTES - i,
        {
            if self.rawdata[i] != other.rawdata[i] {
                return false;
            }
            i += 1;
        }
        assert(self.rawdata@ =~= other.rawdata@);
        true
    }
}

impl vstd::std_specs::cmp::PartialEqSpecImpl for RegionTimestamps {
    open spec fn obeys_eq_spec() -> bool {
        true
    }

    open spec fn eq_spec(&self, other: &RegionTimestamps) -> bool {
        self.rawdata@ == other.rawdata@
    }
}

/// The decoded table of an optional snapshot.
pub open spec fn snapshot_table(s: Option<&RegionTimestamps>) -> Option<Seq<u32>> {
    match s {
        Some(t) => Some(t.table()),
        None => None,
    }
}

} // verus!

verus! {

/// Index and chunk correspond one to one inside a region.
proof fn lemma_chunk_at(i: int, c: (usize, usize))
    requires
        0 <= i < TABLE_LEN,
    ensures
        chunk_at(i).0 < SIDE,
        chunk_at(i).1 < SIDE,
        chunk_at(i) == c <==> (c.0 < SIDE && c.1 < SIDE && i == c.1 * SIDE + c.0),
{
}

/// A diff prefix holds a chunk exactly where some index below `n` that
/// counts as changed maps to it.
pub(crate) proof fn lemma_diff_prefix_members(
    me: Seq<u32>,
    snapshot: Option<Seq<u32>>,
    n: int,
    c: (usize, usize),
)
    requires
        0 <= n <= TABLE_LEN,
    ensures
        diff_prefix(me, snapshot, n).contains(c) <==> (c.0 < SIDE && c.1 < SIDE && c.1 * SIDE
            + c.0 < n && changed(me, snapshot, c.1 * SIDE + c.0)),
    decreases n,
{
    if n > 0 {
        lemma_diff_prefix_members(me, snapshot, n - 1, c);
        lemma_chunk_at(n - 1, c);
        let p = diff_prefix(me, snapshot, n - 1);
        if changed(me, snapshot, n - 1) {
            let q = p.push(chunk_at(n - 1));
            assert(q.contains(c) <==> (p.contains(c) || chunk_at(n - 1) == c)) by {
                if q.contains(c) {
                    let k = choose|k: int| 0 <= k < q.len() && #[trigger] q[k] == c;
                    if k < p.len() {
                        assert(p[k] == c);
                    }
                }
                if p.contains(c) {
                    let k = choose|k: int| 0 <= k < p.len() && #[trigger] p[k] == c;
                    assert(q[k] == c);
                }
                if chunk_at(n - 1) == c {
                    assert(q[p.len() as int] == c);
                }
            }
        }
    }
}

/// Without a snapshot, the diff holds exactly the chunks whose timestamp is
/// not zero.
pub proof fn law_diff_cold_start(t: RegionTimestamps)
    ensures
        forall|c: (usize, usize)|
            #![trigger diff_of(t.table(), None).contains(c)]
            diff_of(t.table(), None).contains(c) <==> (c.0 < SIDE && c.1 < SIDE && t.table()[c.1
                * SIDE + c.0] != 0),
{
    assert forall|c: (usize, usize)|
        #![trigger diff_of(t.table(), None).contains(c)]
        diff_of(t.table(), None).contains(c) <==> (c.0 < SIDE && c.1 < SIDE && t.table()[c.1 * SIDE
            + c.0] != 0) by {
        lemma_diff_prefix_members(t.table(), None, TABLE_LEN as int, c);
    }
}

/// Against a snapshot equal to the table itself, the diff is empty.
pub proof fn law_diff_same_snapshot(t: RegionTimestamps)
    ensures
        diff_of(t.table(), Some(t.table())) == Seq::<(usize, usize)>::empty(),
{
    assert forall|c: (usize, usize)| !diff_of(t.table(), Some(t.table())).contains(c) by {
        lemma_diff_prefix_members(t.table(), Some(t.table()), TABLE_LEN as int, c);
    }
    let d = diff_of(t.table(), Some(t.table()));
    if d.len() > 0 {
        assert(d.contains(d[0]));
    }
    assert(d =~= Seq::<(usize, usize)>::empty());
}

/// Against a snapshot, the diff holds exactly the chunks whose timestamp is
/// not zero and differs from the snapshot's, whatever the snapshot's value.
pub proof fn law_diff_against_snapshot(a: RegionTimestamps, b: RegionTimestamps)
    ensures
        forall|c: (usize, usize)|
            #![trigger diff_of(a.table(), Some(b.table())).contains(c)]
            diff_of(a.table(), Some(b.table())).contains(c) <==> (c.0 < SIDE && c.1 < SIDE
                && a.table()[c.1 * SIDE + c.0] != 0 && a.table()[c.1 * SIDE + c.0] != b.table()[c.1
                * SIDE + c.0]),
{
    assert forall|c: (usize, usize)|
        #![trigger diff_of(a.table(), Some(b.table())).contains(c)]
        diff_of(a.table(), Some(b.table())).contains(c) <==> (c.0 < SIDE && c.1 < SIDE
            && a.table()[c.1 * SIDE + c.0] != 0 && a.table()[c.1 * SIDE + c.0] != b.table()[c.1
            * SIDE + c.0]) by {
        lemma_diff_prefix_members(a.table(), Some(b.table()), TABLE_LEN as int, c);
    }
}

} // verus!
