use incremap::{CLoc, ChunkTimestamp, RLoc, RegionTimestamps, TruncatedError, InvalidOffsetError};

fn table(entries: &[(usize, u32)]) -> RegionTimestamps {
    let mut rawdata = [0u8; 4096];
    for &(i, t) in entries {
        rawdata[4 * i..4 * i + 4].copy_from_slice(&t.to_be_bytes());
    }
    RegionTimestamps { rawdata }
}

#[test]
fn diff_without_snapshot_lists_written_chunks() {
    let t = table(&[(0, 7), (33, 1), (1023, 99)]);
    assert_eq!(t.diffs(None), vec![(0, 0), (1, 1), (31, 31)]);
}

#[test]
fn diff_against_itself_is_empty() {
    let t = table(&[(0, 7), (33, 1), (1023, 99)]);
    let same = table(&[(0, 7), (33, 1), (1023, 99)]);
    assert_eq!(t.diffs(Some(&same)), Vec::<(usize, usize)>::new());
}

#[test]
fn diff_against_snapshot_ignores_zero_entries_of_table() {
    // index 5: new (snapshot 0); index 6: changed; index 7: equal;
    // index 8: cleared in the table (0), which is never listed.
    let a = table(&[(5, 10), (6, 20), (7, 30)]);
    let b = table(&[(6, 21), (7, 30), (8, 40)]);
    assert_eq!(a.diffs(Some(&b)), vec![(5, 0), (6, 0)]);
}

#[test]
fn to_tsarray_reads_big_endian() {
    let mut rawdata = [0u8; 4096];
    rawdata[4] = 0x01;
    rawdata[5] = 0x02;
    rawdata[6] = 0x03;
    rawdata[7] = 0x04;
    let t = RegionTimestamps { rawdata };
    let ar = t.to_tsarray();
    assert_eq!(ar[0], 0);
    assert_eq!(ar[1], 0x0102_0304);
}

#[test]
fn list_timestamps_gives_coordinates_and_times() {
    let t = table(&[(32, 5), (65, 6)]);
    let l = t.list_timestamps();
    assert_eq!(l, vec![
        ChunkTimestamp { x: 0, z: 1, timestamp: 5 },
        ChunkTimestamp { x: 1, z: 2, timestamp: 6 },
    ]);
}

#[test]
fn region_table_is_read_at_its_offset() {
    let mut data = vec![0u8; 8192];
    data[4096 + 3] = 9;
    let t = RegionTimestamps::from_regiondata(&data).unwrap();
    assert_eq!(t.to_tsarray()[0], 9);
    assert!(matches!(RegionTimestamps::from_regiondata(&data[..8191]), Err(TruncatedError)));
}

#[test]
fn cache_data_round_trips() {
    let t = table(&[(3, 0xdead_beef), (1000, 1)]);
    let mut out = vec![1u8];
    t.save_cache(&mut out);
    assert_eq!(out.len(), 4097);
    assert_eq!(out[0], 1);
    let back = RegionTimestamps::from_cachedata(&out[1..]).unwrap();
    assert!(back == t);
    assert!(RegionTimestamps::new(&out[..100]).is_err());
}

#[test]
fn chunk_offset_inside_and_outside() {
    assert_eq!(CLoc(5, 31).offset(0, -31), Ok(CLoc(5, 0)));
    assert_eq!(CLoc(5, 0).offset(0, 31), Ok(CLoc(5, 31)));
    assert_eq!(CLoc(5, 31).offset(0, 1), Err(InvalidOffsetError));
    assert_eq!(CLoc(0, 3).offset(-1, 0), Err(InvalidOffsetError));
    assert_eq!(CLoc(usize::MAX, 0).offset(i32::MIN, 0), Err(InvalidOffsetError));
}

#[test]
fn region_offset_and_from() {
    assert_eq!(RLoc(3, -4).offset(0, 1), RLoc(3, -3));
    assert_eq!(RLoc::from((1, 2)), RLoc(1, 2));
    assert_eq!(CLoc::from((1, 2)), CLoc(1, 2));
}

#[test]
fn offset_error_message() {
    assert_eq!(InvalidOffsetError.message(), "Chunk coord will be out of bounds.");
}
