use pippin::driver::{DivideError, Driver, MAX_PART_ID};
use pippin::meta::{decode, encode, seq_tag_bytes, MetaError, Record};
use pippin::routing::{assign, Fallback, PartInfo};

fn record(id: u64, max_id: u64, ver: u32, min_len: u32, max_len: u32) -> Record {
    Record { id, info: PartInfo { max_id, ver, min_len, max_len } }
}

fn driver_of(records: &[Record]) -> Driver {
    let mut d = Driver::new();
    d.absorb(&records.to_vec());
    d
}

#[test]
fn new_table_is_empty_and_routes_nothing() {
    let d = Driver::new();
    assert_eq!(d.len(), 0);
    assert_eq!(d.get(1), None);
    assert_eq!(d.classify(0), None);
    assert_eq!(d.classify(17), None);
}

#[test]
fn first_partition_spans_everything() {
    let mut d = Driver::new();
    assert_eq!(d.init_first(), 1);
    assert_eq!(d.len(), 1);
    assert_eq!(
        d.get(1),
        Some(PartInfo { max_id: MAX_PART_ID, ver: 0, min_len: 0, max_len: u32::MAX })
    );
    assert_eq!(MAX_PART_ID, (1u64 << 40) - 1);
    for key in [0u64, 1, 499, 500, u32::MAX as u64, u64::MAX] {
        assert_eq!(d.classify(key), Some(1));
    }
}

#[test]
fn divide_lengths_1_to_999_splits_at_500() {
    let mut d = Driver::new();
    d.init_first();
    let keys: Vec<u32> = (1..=999).collect();
    let second = 2 + (MAX_PART_ID - 1) / 2;
    assert_eq!(second, 0x80_0000_0001);
    assert_eq!(d.divide(1, &keys), Ok((vec![2, second], vec![])));
    assert_eq!(
        d.get(2),
        Some(PartInfo { max_id: second - 1, ver: 0, min_len: 0, max_len: 499 })
    );
    assert_eq!(
        d.get(second),
        Some(PartInfo { max_id: MAX_PART_ID, ver: 0, min_len: 500, max_len: u32::MAX })
    );
    assert_eq!(d.get(1), Some(PartInfo { max_id: 1, ver: 1, min_len: 0, max_len: 0 }));
    assert_eq!(d.len(), 3);
    assert_eq!(d.classify(0), Some(2));
    assert_eq!(d.classify(1), Some(2));
    assert_eq!(d.classify(499), Some(2));
    assert_eq!(d.classify(500), Some(second));
    assert_eq!(d.classify(999), Some(second));
    assert_eq!(d.classify(u32::MAX as u64), Some(second));
}

#[test]
fn divide_sorts_its_sample() {
    let mut d = Driver::new();
    d.init_first();
    assert!(d.divide(1, &[50, 10, 90, 30, 70]).is_ok());
    assert_eq!(d.get(2).unwrap().max_len, 49);

    let mut e = Driver::new();
    e.init_first();
    assert!(e.divide(1, &[40, 20, 80, 60]).is_ok());
    assert_eq!(e.get(2).unwrap().max_len, 59);
    assert_eq!(e.get(0x80_0000_0001).unwrap().min_len, 60);

    let mut f = Driver::new();
    f.init_first();
    assert!(f.divide(1, &[7]).is_ok());
    assert_eq!(f.get(2).unwrap().max_len, 6);
}

#[test]
fn divide_samples_the_first_999_keys() {
    let mut keys = vec![7u32; 999];
    keys.extend_from_slice(&[1_000_000u32; 2000]);
    let mut d = Driver::new();
    d.init_first();
    assert!(d.divide(1, &keys).is_ok());
    assert_eq!(d.get(2).unwrap().max_len, 6);
    assert_eq!(d.get(0x80_0000_0001).unwrap().min_len, 7);

    let mut more = vec![1_000_000u32; 500];
    more.extend_from_slice(&[7u32; 499]);
    more.extend_from_slice(&[3u32; 5000]);
    let mut e = Driver::new();
    e.init_first();
    assert!(e.divide(1, &more).is_ok());
    assert_eq!(e.get(0x80_0000_0001).unwrap().min_len, 1_000_000);
}

#[test]
fn divide_twice_keeps_the_ranges_together() {
    let mut d = Driver::new();
    d.init_first();
    let keys: Vec<u32> = (1..=999).collect();
    d.divide(1, &keys).unwrap();
    let low: Vec<u32> = (1..=499).collect();
    let (made, gone) = d.divide(2, &low).unwrap();
    assert!(gone.is_empty());
    let third = 3;
    let fourth = 3 + (0x80_0000_0000u64 - 2) / 2;
    assert_eq!(made, vec![third, fourth]);
    assert_eq!(d.get(third).unwrap(), PartInfo { max_id: fourth - 1, ver: 0, min_len: 0, max_len: 249 });
    assert_eq!(
        d.get(fourth).unwrap(),
        PartInfo { max_id: 0x80_0000_0000, ver: 0, min_len: 250, max_len: 499 }
    );
    assert_eq!(d.get(2).unwrap(), PartInfo { max_id: 2, ver: 1, min_len: 0, max_len: 0 });
    assert_eq!(d.classify(0), Some(third));
    assert_eq!(d.classify(249), Some(third));
    assert_eq!(d.classify(250), Some(fourth));
    assert_eq!(d.classify(499), Some(fourth));
    assert_eq!(d.classify(500), Some(0x80_0000_0001));
}

#[test]
fn divide_without_elements_is_not_subdivisible() {
    let mut d = Driver::new();
    d.init_first();
    assert_eq!(d.divide(1, &[]), Err(DivideError::NotSubdivisible));
    assert_eq!(d.divide(9, &[]), Err(DivideError::NotSubdivisible));
    assert_eq!(d.len(), 1);
}

#[test]
fn divide_unknown_partition_is_missing_info() {
    let mut d = Driver::new();
    d.init_first();
    assert_eq!(d.divide(2, &[1, 2, 3]), Err(DivideError::MissingInfo));
    assert_eq!(d.len(), 1);
    assert_eq!(d.classify(2), Some(1));
}

#[test]
fn divide_needs_two_free_identifiers() {
    let mut d = driver_of(&[record(5, 6, 0, 0, 100)]);
    assert_eq!(d.divide(5, &[10, 20, 30]), Err(DivideError::NotSubdivisible));
    assert_eq!(d.get(5), Some(PartInfo { max_id: 6, ver: 0, min_len: 0, max_len: 100 }));
    let mut e = driver_of(&[record(5, 5, 0, 0, 100)]);
    assert_eq!(e.divide(5, &[10, 20, 30]), Err(DivideError::NotSubdivisible));
    let mut f = driver_of(&[record(5, 3, 0, 0, 100)]);
    assert_eq!(f.divide(5, &[10, 20, 30]), Err(DivideError::NotSubdivisible));
    let mut g = driver_of(&[record(5, 7, 0, 0, 100)]);
    assert_eq!(g.divide(5, &[10, 20, 30]), Ok((vec![6, 7], vec![])));
    assert_eq!(g.get(6), Some(PartInfo { max_id: 6, ver: 0, min_len: 0, max_len: 19 }));
    assert_eq!(g.get(7), Some(PartInfo { max_id: 7, ver: 0, min_len: 20, max_len: 100 }));
    assert_eq!(g.get(5), Some(PartInfo { max_id: 5, ver: 1, min_len: 0, max_len: 0 }));
}

#[test]
fn divide_at_key_zero_is_not_subdivisible() {
    let mut d = Driver::new();
    d.init_first();
    assert_eq!(d.divide(1, &[0, 0, 0, 5]), Err(DivideError::NotSubdivisible));
    assert_eq!(d.len(), 1);
    assert_eq!(d.get(1).unwrap().ver, 0);
}

#[test]
fn divide_raises_stale_versions() {
    let mut d = driver_of(&[
        record(1, 100, 3, 0, 1000),
        record(2, 2, 7, 0, 0),
        record(51, 51, u32::MAX - 1, 0, 0),
    ]);
    assert_eq!(d.divide(1, &[400]), Ok((vec![2, 51], vec![])));
    assert_eq!(d.get(2), Some(PartInfo { max_id: 50, ver: 8, min_len: 0, max_len: 399 }));
    assert_eq!(
        d.get(51),
        Some(PartInfo { max_id: 100, ver: u32::MAX, min_len: 400, max_len: 1000 })
    );
    assert_eq!(d.get(1), Some(PartInfo { max_id: 1, ver: 4, min_len: 0, max_len: 0 }));
}

#[test]
fn divide_stops_at_the_last_version() {
    let mut d = driver_of(&[record(1, 100, u32::MAX, 0, 1000)]);
    assert_eq!(d.divide(1, &[400]), Err(DivideError::VersionExhausted));
    assert_eq!(d.len(), 1);
    let mut e = driver_of(&[record(1, 100, 0, 0, 1000), record(2, 2, u32::MAX, 0, 0)]);
    assert_eq!(e.divide(1, &[400]), Err(DivideError::VersionExhausted));
    assert_eq!(e.get(1).unwrap().ver, 0);
    let mut f = driver_of(&[record(1, 100, 0, 0, 1000), record(51, 51, u32::MAX, 0, 0)]);
    assert_eq!(f.divide(1, &[400]), Err(DivideError::VersionExhausted));
    assert_eq!(f.len(), 2);
}

#[test]
fn classify_takes_the_largest_bound_not_above_the_key() {
    let d = driver_of(&[
        record(4, 4, 0, 10, 19),
        record(9, 9, 0, 30, 100),
        record(2, 2, 0, 20, 29),
    ]);
    assert_eq!(d.classify(9), None);
    assert_eq!(d.classify(0), None);
    assert_eq!(d.classify(10), Some(4));
    assert_eq!(d.classify(15), Some(4));
    assert_eq!(d.classify(19), Some(4));
    assert_eq!(d.classify(20), Some(2));
    assert_eq!(d.classify(29), Some(2));
    assert_eq!(d.classify(30), Some(9));
    assert_eq!(d.classify(1 << 40), Some(9));
}

#[test]
fn classify_skips_retired_partitions() {
    let d = driver_of(&[
        record(1, 1, 1, 0, 0),
        record(2, 2, 0, 0, 49),
        record(3, 3, 0, 50, 50),
        record(4, 4, 0, 60, 99),
    ]);
    assert_eq!(d.classify(0), Some(2));
    assert_eq!(d.classify(50), Some(2));
    assert_eq!(d.classify(59), Some(2));
    assert_eq!(d.classify(60), Some(4));
}

#[test]
fn classifier_snapshot_outlives_changes() {
    let mut d = Driver::new();
    d.init_first();
    let before = d.clone_classifier();
    let keys: Vec<u32> = (1..=999).collect();
    d.divide(1, &keys).unwrap();
    let after = d.clone_classifier();
    assert_eq!(before.classify(700), Some(1));
    assert_eq!(after.classify(700), Some(0x80_0000_0001));
    assert_eq!(d.classify(700), Some(0x80_0000_0001));
    assert_eq!(before.classify(700), before.classify(700));
    assert_eq!(before.fallback(), Fallback::Fail);
}

#[test]
fn fallback_decides_for_unrouted_elements() {
    assert_eq!(assign(Some(3), Fallback::Fail), Some(3));
    assert_eq!(assign(Some(3), Fallback::Default(8)), Some(3));
    assert_eq!(assign(None, Fallback::Fail), None);
    assert_eq!(assign(None, Fallback::Default(8)), Some(8));
}

#[test]
fn stored_table_has_tag_count_and_records() {
    let tag = seq_tag_bytes();
    assert_eq!(&tag, b"SeqCSF01");
    let recs = vec![record(0x0102030405, 0xff_ffff_ffff, 0x0a0b0c0d, 1, 0xfffffffe)];
    let bytes = encode(&tag, &recs).unwrap();
    let mut want = Vec::new();
    want.extend_from_slice(b"SeqCSF01");
    want.extend_from_slice(&[1, 0, 0, 0]);
    want.extend_from_slice(&[5, 4, 3, 2, 1, 0, 0, 0]);
    want.extend_from_slice(&[0xff, 0xff, 0xff, 0xff, 0xff, 0, 0, 0]);
    want.extend_from_slice(&[0x0d, 0x0c, 0x0b, 0x0a]);
    want.extend_from_slice(&[1, 0, 0, 0]);
    want.extend_from_slice(&[0xfe, 0xff, 0xff, 0xff]);
    assert_eq!(bytes, want);
    assert_eq!(bytes.len(), 12 + 28);
    assert_eq!(decode(&tag, &bytes), Ok(recs));
    assert_eq!(encode(&tag, &vec![]).unwrap(), b"SeqCSF01\0\0\0\0".to_vec());
    assert_eq!(decode(&tag, b"SeqCSF01\0\0\0\0"), Ok(vec![]));
}

#[test]
fn stored_table_round_trip() {
    let mut d = Driver::new();
    d.init_first();
    let keys: Vec<u32> = (1..=999).collect();
    d.divide(1, &keys).unwrap();
    let tag = seq_tag_bytes();
    let bytes = d.write_buf(&tag).unwrap();
    assert_eq!(bytes.len(), 12 + 28 * 3);
    let mut e = Driver::new();
    assert_eq!(e.read_buf(&tag, &bytes), Ok(()));
    assert_eq!(e.to_records(), d.to_records());
    assert_eq!(e.to_records().iter().map(|r| r.id).collect::<Vec<_>>(), vec![1, 2, 0x80_0000_0001]);
    for key in [0u64, 499, 500, 1 << 33] {
        assert_eq!(e.classify(key), d.classify(key));
    }
}

#[test]
fn stored_table_is_refused_when_malformed() {
    let tag = seq_tag_bytes();
    let good = encode(&tag, &vec![record(1, 9, 0, 0, 5), record(2, 9, 0, 6, 9)]).unwrap();
    assert_eq!(decode(&tag, &good[..11]), Err(MetaError::TooShort));
    assert_eq!(decode(&tag, b""), Err(MetaError::TooShort));
    let mut other = good.clone();
    other[7] = b'2';
    assert_eq!(decode(&tag, &other), Err(MetaError::BadTag));
    assert_eq!(decode(b"SeqCSF02", &good), Err(MetaError::BadTag));
    assert_eq!(decode(&tag, &good[..good.len() - 1]), Err(MetaError::WrongLength));
    assert_eq!(decode(&tag, &good[..12]), Err(MetaError::WrongLength));
    let mut longer = good.clone();
    longer.push(0);
    assert_eq!(decode(&tag, &longer), Err(MetaError::WrongLength));
    let mut count = good.clone();
    count[8] = 3;
    assert_eq!(decode(&tag, &count), Err(MetaError::WrongLength));
    let mut huge = good.clone();
    huge[8..12].copy_from_slice(&[0xff; 4]);
    assert_eq!(decode(&tag, &huge), Err(MetaError::WrongLength));
}

#[test]
fn stored_table_with_impossible_identifier_is_refused() {
    let tag = seq_tag_bytes();
    for bad in [record(0, 9, 0, 0, 5), record(1, 0, 0, 0, 5), record(1 << 40, 9, 0, 0, 5), record(1, u64::MAX, 0, 0, 5)] {
        let bytes = encode(&tag, &vec![record(3, 9, 0, 0, 5), bad]).unwrap();
        assert_eq!(decode(&tag, &bytes), Err(MetaError::BadId));
        let mut d = Driver::new();
        d.init_first();
        assert_eq!(d.read_buf(&tag, &bytes), Err(MetaError::BadId));
        assert_eq!(d.len(), 1);
        assert_eq!(d.get(3), None);
    }
    let edge = encode(&tag, &vec![record(MAX_PART_ID, MAX_PART_ID, 0, 0, 5)]).unwrap();
    assert!(decode(&tag, &edge).is_ok());
}

#[test]
fn lower_version_never_overwrites() {
    let mut d = driver_of(&[record(7, 9, 5, 0, 100)]);
    d.absorb(&vec![record(7, 8, 4, 50, 60)]);
    assert_eq!(d.get(7), Some(PartInfo { max_id: 9, ver: 5, min_len: 0, max_len: 100 }));
    d.absorb(&vec![record(7, 8, 5, 50, 60)]);
    assert_eq!(d.get(7), Some(PartInfo { max_id: 9, ver: 5, min_len: 0, max_len: 100 }));
    assert_eq!(d.classify(10), Some(7));
    d.absorb(&vec![record(7, 8, 6, 50, 60)]);
    assert_eq!(d.get(7), Some(PartInfo { max_id: 8, ver: 6, min_len: 50, max_len: 60 }));
    assert_eq!(d.classify(10), None);
    assert_eq!(d.classify(55), Some(7));
}

#[test]
fn arrival_order_does_not_matter() {
    let a = record(7, 9, 2, 0, 100);
    let b = record(7, 8, 6, 50, 60);
    let c = record(7, 7, 4, 1, 2);
    let n = record(3, 3, 0, 5, 40);
    let orders = [[a, b, c, n], [c, n, b, a], [b, a, n, c], [n, c, a, b]];
    for order in orders {
        let d = driver_of(&order);
        assert_eq!(d.get(7), Some(b.info));
        assert_eq!(d.get(3), Some(n.info));
        assert_eq!(d.len(), 2);
    }
    let mut d = driver_of(&[b]);
    let tag = seq_tag_bytes();
    let stale = encode(&tag, &vec![a, c]).unwrap();
    assert_eq!(d.read_buf(&tag, &stale), Ok(()));
    assert_eq!(d.get(7), Some(b.info));
}
