use incremap::{blank_canvas, blit, canvas_from_rgba, canvas_to_rgba, draw_chunk, north_chunk, region_events};
use incremap::RegionProgress;
use incremap::{CLoc, ChunkCache, Dimension, RLoc, RegionCache, RegionSource, RegionTimestamps};
use incremap::{RemainingSet, RenderState, WorkMap, TILE_AREA};

fn table(entries: &[(usize, u32)]) -> RegionTimestamps {
    let mut rawdata = [0u8; 4096];
    for &(i, t) in entries {
        rawdata[4 * i..4 * i + 4].copy_from_slice(&t.to_be_bytes());
    }
    RegionTimestamps { rawdata }
}

/// A work map over regions (0,0), (0,1) and (0,2), each with some chunk.
fn three_regions() -> WorkMap {
    let mut w = WorkMap::new();
    for z in 0..3 {
        let i = w.entry(&RLoc(0, z));
        w.mark(i, CLoc(1, 1));
    }
    w
}

#[test]
fn eviction_after_each_region_finishes() {
    let work = three_regions();
    let mut st: RenderState<u32> = RenderState::new(&work);
    // Region (0,1) renders: its own chunks and the last row of (0,0).
    assert!(st.store(&RLoc(0, 1), &CLoc(1, 0), 10));
    assert!(st.store(&RLoc(0, 1), &CLoc(1, 31), 11));
    assert!(st.store(&RLoc(0, 0), &CLoc(1, 31), 12));
    assert!(!st.store(&RLoc(0, 0), &CLoc(1, 31), 99));
    assert_eq!(st.chunk(&RLoc(0, 0), &CLoc(1, 31)), Some(&12));
    let (north, south) = st.finish(&RLoc(0, 1));
    assert!(north && south);
    // Only the last row stays, since (0,2) is pending; (0,0) is pending too.
    assert_eq!(st.chunk(&RLoc(0, 1), &CLoc(1, 0)), None);
    assert_eq!(st.chunk(&RLoc(0, 1), &CLoc(1, 31)), Some(&11));
    assert_eq!(st.chunk(&RLoc(0, 0), &CLoc(1, 31)), Some(&12));
    // A handle nothing pending needs is not kept.
    assert!(!st.store(&RLoc(0, 1), &CLoc(2, 3), 13));
    let (north, south) = st.finish(&RLoc(0, 0));
    assert!(!north && !south);
    assert_eq!(st.chunk(&RLoc(0, 0), &CLoc(1, 31)), None);
    assert_eq!(st.chunk(&RLoc(0, 1), &CLoc(1, 31)), Some(&11));
    let (north, south) = st.finish(&RLoc(0, 2));
    assert!(!north && !south);
    assert_eq!(st.chunk(&RLoc(0, 1), &CLoc(1, 31)), None);
    assert!(st.is_done());
}

#[test]
fn remaining_set_reports_neighbours() {
    let work = three_regions();
    let mut rem = RemainingSet::from_work(&work);
    assert!(rem.contains(&RLoc(0, 2)));
    assert_eq!(rem.finish(&RLoc(0, 2)), (true, false));
    assert_eq!(rem.finish(&RLoc(0, 0)), (false, true));
    assert_eq!(rem.finish(&RLoc(0, 1)), (false, false));
    assert!(rem.is_empty());
}

#[test]
fn chunk_cache_memoises_and_evicts() {
    let mut c: ChunkCache<&str> = ChunkCache::new();
    c.insert(&RLoc(0, 0), &CLoc(0, 0), "a");
    c.insert(&RLoc(0, 0), &CLoc(0, 0), "b");
    c.insert(&RLoc(0, 0), &CLoc(0, 31), "c");
    c.insert(&RLoc(0, -1), &CLoc(0, 0), "d");
    c.insert(&RLoc(7, 7), &CLoc(0, 0), "e");
    assert_eq!(c.get(&RLoc(0, 0), &CLoc(0, 0)), Some(&"a"));
    c.evict(&RLoc(0, 0), false, true);
    assert_eq!(c.get(&RLoc(0, 0), &CLoc(0, 0)), None);
    assert_eq!(c.get(&RLoc(0, 0), &CLoc(0, 31)), Some(&"c"));
    assert_eq!(c.get(&RLoc(0, -1), &CLoc(0, 0)), None);
    assert_eq!(c.get(&RLoc(7, 7), &CLoc(0, 0)), Some(&"e"));
    c.evict(&RLoc(0, 0), true, false);
    c.evict(&RLoc(7, 7), false, false);
    assert!(c.is_empty());
}

#[test]
fn region_cache_keeps_first_handle() {
    let mut c: RegionCache<u8> = RegionCache::new();
    assert_eq!(c.get(&RLoc(1, 1)), None);
    c.insert(&RLoc(1, 1), 4);
    c.insert(&RLoc(1, 1), 5);
    assert_eq!(c.get(&RLoc(1, 1)), Some(&4));
}

#[test]
fn north_context_of_chunks() {
    assert_eq!(north_chunk(&RLoc(2, 3), &CLoc(4, 5)), Some((RLoc(2, 3), CLoc(4, 4))));
    assert_eq!(north_chunk(&RLoc(2, 3), &CLoc(4, 0)), Some((RLoc(2, 2), CLoc(4, 31))));
    assert_eq!(north_chunk(&RLoc(2, i32::MIN), &CLoc(4, 0)), None);
}

#[test]
fn blit_places_patch_in_chunk_square() {
    let mut canvas = blank_canvas();
    assert_eq!(canvas.len(), TILE_AREA);
    let mut patch = [[0u8; 4]; 256];
    for (i, p) in patch.iter_mut().enumerate() {
        *p = [i as u8, 1, 2, 255];
    }
    blit(&mut canvas, &patch, &CLoc(5, 31));
    // Pixel (x=3, y=2) of the patch lands at (5*16+3, 31*16+2).
    assert_eq!(canvas[(31 * 16 + 2) * 512 + 5 * 16 + 3], [35, 1, 2, 255]);
    assert_eq!(canvas[(31 * 16) * 512 + 5 * 16], [0, 1, 2, 255]);
    assert_eq!(canvas[(31 * 16) * 512 + 5 * 16 - 1], [0, 0, 0, 0]);
    let drawn = canvas.iter().filter(|p| p[3] == 255).count();
    assert_eq!(drawn, 256);
}

#[test]
fn canvas_bytes_round_trip() {
    let mut bytes = vec![0u8; TILE_AREA * 4];
    bytes[4] = 9;
    bytes[7] = 200;
    let c = canvas_from_rgba(&bytes).unwrap();
    assert_eq!(c[1], [9, 0, 0, 200]);
    assert_eq!(canvas_to_rgba(&c), bytes);
    assert!(canvas_from_rgba(&bytes[..16]).is_none());
}

#[test]
fn missing_patch_leaves_canvas_and_present_patch_is_drawn() {
    let mut canvas = blank_canvas();
    assert!(!draw_chunk(&mut canvas, None, &CLoc(0, 0)));
    assert!(canvas.iter().all(|p| *p == [0, 0, 0, 0]));
    let patch = [[7u8, 7, 7, 7]; 256];
    assert!(draw_chunk(&mut canvas, Some(&patch), &CLoc(31, 31)));
    assert_eq!(canvas[TILE_AREA - 1], [7, 7, 7, 7]);
    assert_eq!(canvas[0], [0, 0, 0, 0]);
}

#[test]
fn events_of_one_region() {
    let e = region_events(&RLoc(1, 2), 2);
    assert_eq!(e, vec![
        RegionProgress::Begin(RLoc(1, 2), 2),
        RegionProgress::Step(RLoc(1, 2)),
        RegionProgress::Step(RLoc(1, 2)),
        RegionProgress::End(RLoc(1, 2)),
    ]);
}

#[test]
fn two_by_one_grid_renders_southern_region_from_northern_change() {
    let sources = vec![
        RegionSource { rloc: RLoc(0, 0), timestamps: table(&[(31 * 32 + 5, 2)]), cache: Some(table(&[(31 * 32 + 5, 1)])) },
        RegionSource { rloc: RLoc(0, 1), timestamps: table(&[(5, 1)]), cache: Some(table(&[(5, 1)])) },
    ];
    let dim = Dimension::from_dimdir(&sources, None, false, false);
    let work = dim.render_regions();
    let i = (0..work.len()).find(|&i| work.region(i) == RLoc(0, 1)).unwrap();
    let chunks = work.chunks(i);
    assert_eq!(chunks, vec![CLoc(5, 0)]);
    // Its shading context is the changed chunk of the northern region.
    assert_eq!(north_chunk(&RLoc(0, 1), &chunks[0]), Some((RLoc(0, 0), CLoc(5, 31))));
    assert!(dim.save_cache(&RLoc(0, 1)).is_none());
    assert!(dim.save_cache(&RLoc(0, 0)).is_some());
}
