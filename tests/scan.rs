use incremap::{bounds_from_ranges, parse_region_name, region_in_bounds, to_cache_name, to_image_name};
use incremap::{CLoc, Dimension, RLoc, RegionSource, RegionTimestamps};

fn table(entries: &[(usize, u32)]) -> RegionTimestamps {
    let mut rawdata = [0u8; 4096];
    for &(i, t) in entries {
        rawdata[4 * i..4 * i + 4].copy_from_slice(&t.to_be_bytes());
    }
    RegionTimestamps { rawdata }
}

fn same(t: &RegionTimestamps) -> RegionTimestamps {
    RegionTimestamps { rawdata: t.rawdata }
}

fn chunks_of(dim: &Dimension, r: RLoc) -> Option<Vec<CLoc>> {
    let work = dim.render_regions();
    for i in 0..work.len() {
        if work.region(i) == r {
            return Some(work.chunks(i));
        }
    }
    None
}

#[test]
fn last_row_change_reaches_unchanged_southern_region() {
    // Region (0,0) changed exactly at chunk (5, 31); region (0,1) has a
    // snapshot equal to its table.
    let old = table(&[(31 * 32 + 5, 1)]);
    let new = table(&[(31 * 32 + 5, 2)]);
    let south = table(&[(0, 3), (5, 3)]);
    let sources = vec![
        RegionSource { rloc: RLoc(0, 0), timestamps: new, cache: Some(old) },
        RegionSource { rloc: RLoc(0, 1), timestamps: same(&south), cache: Some(same(&south)) },
    ];
    let dim = Dimension::from_dimdir(&sources, None, false, false);
    assert_eq!(chunks_of(&dim, RLoc(0, 0)), Some(vec![CLoc(5, 31)]));
    assert_eq!(chunks_of(&dim, RLoc(0, 1)), Some(vec![CLoc(5, 0)]));
    assert_eq!(dim.render_regions().len(), 2);
    // Only the changed region gets a new snapshot.
    let saves = dim.save_cache_all();
    assert_eq!(saves.len(), 1);
    assert_eq!(saves[0].0, RLoc(0, 0));
    assert!(dim.save_cache(&RLoc(0, 1)).is_none());
    assert_eq!(dim.save_cache(&RLoc(0, 0)).unwrap(), sources[0].timestamps.rawdata.to_vec());
}

#[test]
fn change_marks_itself_and_chunk_to_the_south() {
    let sources = vec![RegionSource { rloc: RLoc(2, 3), timestamps: table(&[(4 * 32 + 7, 1)]), cache: None }];
    let dim = Dimension::from_dimdir(&sources, None, false, false);
    assert_eq!(chunks_of(&dim, RLoc(2, 3)), Some(vec![CLoc(7, 4), CLoc(7, 5)]));
    assert_eq!(dim.render_regions().total_chunks(), 2);
}

#[test]
fn rescan_after_storing_snapshots_is_empty() {
    let t0 = table(&[(0, 5), (31 * 32 + 1, 6)]);
    let t1 = table(&[(40, 8)]);
    let first = vec![
        RegionSource { rloc: RLoc(0, 0), timestamps: same(&t0), cache: None },
        RegionSource { rloc: RLoc(0, 1), timestamps: same(&t1), cache: None },
    ];
    let dim = Dimension::from_dimdir(&first, None, false, false);
    assert_eq!(dim.render_regions().total_chunks(), 2 + 2 + 2);
    let stored = dim.save_cache_all();
    assert_eq!(stored.len(), 2);
    let second: Vec<RegionSource> = first
        .iter()
        .map(|s| {
            let bytes = &stored.iter().find(|(r, _)| *r == s.rloc).unwrap().1;
            RegionSource {
                rloc: s.rloc,
                timestamps: same(&s.timestamps),
                cache: Some(RegionTimestamps::from_cachedata(bytes).unwrap()),
            }
        })
        .collect();
    let again = Dimension::from_dimdir(&second, None, false, false);
    assert_eq!(again.render_regions().len(), 0);
    assert_eq!(again.save_cache_all().len(), 0);
}

#[test]
fn regions_outside_bounds_are_untouched() {
    let sources = vec![
        RegionSource { rloc: RLoc(0, 0), timestamps: table(&[(31 * 32, 1)]), cache: None },
        RegionSource { rloc: RLoc(5, 5), timestamps: table(&[(3, 1)]), cache: None },
    ];
    let bounds = Some((RLoc(0, 0), RLoc(1, 0)));
    let dim = Dimension::from_dimdir(&sources, bounds, false, false);
    assert_eq!(chunks_of(&dim, RLoc(5, 5)), None);
    // The region south of (0,0) lies outside the bounds too.
    assert_eq!(chunks_of(&dim, RLoc(0, 1)), None);
    assert_eq!(chunks_of(&dim, RLoc(0, 0)), Some(vec![CLoc(0, 31)]));
    let saves = dim.save_cache_all();
    assert_eq!(saves.len(), 1);
    assert_eq!(saves[0].0, RLoc(0, 0));
}

#[test]
fn nocache_ignores_snapshots_and_read_only_stores_nothing() {
    let t = table(&[(9, 4)]);
    let sources = vec![RegionSource { rloc: RLoc(0, 0), timestamps: same(&t), cache: Some(same(&t)) }];
    let cold = Dimension::from_dimdir(&sources, None, true, false);
    assert_eq!(chunks_of(&cold, RLoc(0, 0)), Some(vec![CLoc(9, 0), CLoc(9, 1)]));
    let warm = Dimension::from_dimdir(&sources, None, false, false);
    assert_eq!(warm.render_regions().len(), 0);
    let ro = Dimension::from_dimdir(&sources, None, true, true);
    assert_eq!(ro.render_regions().len(), 1);
    assert!(ro.save_cache_all().is_empty());
    assert!(ro.save_cache(&RLoc(0, 0)).is_none());
}

#[test]
fn southern_edge_of_the_grid_does_not_propagate() {
    let sources = vec![RegionSource { rloc: RLoc(0, i32::MAX), timestamps: table(&[(31 * 32, 1)]), cache: None }];
    let dim = Dimension::from_dimdir(&sources, None, false, false);
    assert_eq!(dim.render_regions().len(), 1);
    assert_eq!(dim.render_regions().total_chunks(), 1);
}

#[test]
fn region_names_parse() {
    assert_eq!(parse_region_name(b"r.1.-2.mca"), Some(RLoc(1, -2)));
    assert_eq!(parse_region_name(b"r.-2147483648.2147483647.mca"), Some(RLoc(i32::MIN, i32::MAX)));
    assert_eq!(parse_region_name(b"r.2147483648.0.mca"), None);
    assert_eq!(parse_region_name(b"r.1.2.mcc"), None);
    assert_eq!(parse_region_name(b"r.-.2.mca"), None);
    assert_eq!(parse_region_name(b"r.1.2.3.mca"), None);
    assert_eq!(parse_region_name(b"r..2.mca"), None);
    assert_eq!(parse_region_name(b"x.1.2.mca"), None);
    assert_eq!(parse_region_name(b"r.12"), None);
}

#[test]
fn bounds_from_one_or_two_locations() {
    assert_eq!(bounds_from_ranges(&vec![(3, -1)]), Some((RLoc(3, -1), RLoc(3, -1))));
    assert_eq!(bounds_from_ranges(&vec![(10, -5), (-10, 20)]), Some((RLoc(-10, -5), RLoc(10, 20))));
    assert_eq!(bounds_from_ranges(&vec![]), None);
    assert!(region_in_bounds(&RLoc(0, 0), &Some((RLoc(-1, -1), RLoc(1, 1)))));
    assert!(!region_in_bounds(&RLoc(2, 0), &Some((RLoc(-1, -1), RLoc(1, 1)))));
    assert!(region_in_bounds(&RLoc(2, 0), &None));
}

#[test]
fn region_file_names() {
    assert_eq!(to_cache_name(&RLoc(-3, 12)), b"r.-3.12.cache".to_vec());
    assert_eq!(to_image_name(&RLoc(0, -2147483648)), b"r.0.-2147483648.png".to_vec());
    assert_eq!(to_image_name(&RLoc(2147483647, 10)), b"r.2147483647.10.png".to_vec());
    let mut name = to_image_name(&RLoc(-7, 40));
    name.truncate(name.len() - 3);
    name.extend_from_slice(b"mca");
    assert_eq!(parse_region_name(&name), Some(RLoc(-7, 40)));
}
