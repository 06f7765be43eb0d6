use kdvecdb::kdtree::{IndexError, KDTreeVectorDB};

fn brute_force(points: &[Vec<i32>], probe: &[i32], k: usize) -> Vec<(usize, u128)> {
    let mut all: Vec<(usize, u128)> = points
        .iter()
        .enumerate()
        .map(|(i, p)| {
            let d: u128 = p
                .iter()
                .zip(probe.iter())
                .map(|(a, b)| {
                    let diff = (*a as i64) - (*b as i64);
                    (diff * diff) as u128
                })
                .sum();
            (i, d)
        })
        .collect();
    all.sort_by_key(|p| p.1);
    all.truncate(k);
    all
}

#[test]
fn single_insert_query_returns_self_at_zero() {
    let mut db = KDTreeVectorDB::new(2);
    let id = db.insert(vec![3, 4], "x".to_string()).unwrap();
    assert_eq!(id, 0);
    let r = db.query(&vec![3, 4], 5);
    assert_eq!(r, vec![(0usize, 0u128)]);
}

#[test]
fn concrete_scenario_dimension_two() {
    let mut db = KDTreeVectorDB::new(2);
    assert_eq!(db.insert(vec![0, 0], "a".to_string()).unwrap(), 0);
    assert_eq!(db.insert(vec![10, 10], "b".to_string()).unwrap(), 1);
    assert_eq!(db.insert(vec![1, 1], "c".to_string()).unwrap(), 2);
    let r = db.query(&vec![0, 0], 2);
    assert_eq!(r, vec![(0usize, 0u128), (2usize, 2u128)]);
    let euclid = (r[1].1 as f64).sqrt();
    assert!((euclid - 1.4142135).abs() < 1e-6);
}

#[test]
fn query_matches_brute_force_scan() {
    let pts: Vec<Vec<i32>> = vec![
        vec![5, -3, 8],
        vec![-100, 40, 7],
        vec![0, 0, 0],
        vec![12, 12, -12],
        vec![5, -3, 9],
        vec![2147483647, -2147483648, 1],
        vec![-7, 22, 6],
        vec![1, 1, 1],
    ];
    let mut db = KDTreeVectorDB::new(3);
    for (i, p) in pts.iter().enumerate() {
        let meta = format!("point {}", i);
        assert_eq!(db.insert(p.clone(), meta).unwrap(), i);
    }
    let probe = vec![3, -1, 5];
    for k in 0..10 {
        let got = db.query(&vec![3, -1, 5], k);
        let want = brute_force(&pts, &probe, k);
        assert_eq!(got.len(), k.min(pts.len()));
        for w in got.windows(2) {
            assert!(w[0].1 <= w[1].1);
        }
        let got_d: Vec<u128> = got.iter().map(|p| p.1).collect();
        let want_d: Vec<u128> = want.iter().map(|p| p.1).collect();
        assert_eq!(got_d, want_d);
        for (id, d) in &got {
            assert_eq!(brute_force(&pts, &probe, pts.len())
                .iter()
                .find(|p| p.0 == *id)
                .unwrap()
                .1, *d);
        }
        let mut seen: Vec<usize> = got.iter().map(|p| p.0).collect();
        seen.sort();
        seen.dedup();
        assert_eq!(seen.len(), got.len());
    }
}

#[test]
fn metadata_is_returned_for_every_id() {
    let mut db = KDTreeVectorDB::new(2);
    let metas = ["alpha", "beta", "gamma", "delta"];
    let pts = [vec![4, 4], vec![-1, 9], vec![4, 4], vec![0, -6]];
    for (p, m) in pts.iter().zip(metas.iter()) {
        db.insert(p.clone(), m.to_string()).unwrap();
    }
    for (i, m) in metas.iter().enumerate() {
        assert_eq!(db.get_metadata(i), Some(m.to_string()));
    }
    assert_eq!(db.get_metadata(4), None);
    assert_eq!(db.get_metadata(usize::MAX), None);
    db.clear();
    assert_eq!(db.get_metadata(0), None);
}

#[test]
fn dimension_mismatch_is_fatal_to_the_call() {
    let mut db = KDTreeVectorDB::new(3);
    assert_eq!(
        db.insert(vec![1, 2], "short".to_string()),
        Err(IndexError::DimensionMismatch)
    );
    assert_eq!(db.size(), 0);
    assert_eq!(db.insert(vec![1, 2, 3], "ok".to_string()), Ok(0));
}

#[test]
fn wrong_length_probe_returns_empty_not_error() {
    let mut db = KDTreeVectorDB::new(2);
    db.insert(vec![1, 2], "a".to_string()).unwrap();
    assert!(db.query(&vec![1, 2, 3], 4).is_empty());
    assert!(db.query(&vec![1], 4).is_empty());
}

#[test]
fn query_on_empty_index_returns_empty() {
    let db = KDTreeVectorDB::new(2);
    assert!(db.query(&vec![0, 0], 3).is_empty());
}

#[test]
fn clear_resets_identities_to_zero() {
    let mut db = KDTreeVectorDB::new(2);
    db.insert(vec![1, 1], "a".to_string()).unwrap();
    db.insert(vec![2, 2], "b".to_string()).unwrap();
    assert_eq!(db.size(), 2);
    db.clear();
    assert_eq!(db.size(), 0);
    assert!(db.query(&vec![1, 1], 3).is_empty());
    assert_eq!(db.insert(vec![9, 9], "c".to_string()).unwrap(), 0);
}

#[test]
fn query_is_idempotent() {
    let mut db = KDTreeVectorDB::new(2);
    db.insert(vec![1, 5], "a".to_string()).unwrap();
    db.insert(vec![5, 1], "b".to_string()).unwrap();
    db.insert(vec![-3, 2], "c".to_string()).unwrap();
    let first = db.query(&vec![0, 0], 2);
    let second = db.query(&vec![0, 0], 2);
    assert_eq!(first, second);
}

#[test]
fn persist_restore_round_trip() {
    let mut db = KDTreeVectorDB::new(2);
    db.insert(vec![0, 0], "a".to_string()).unwrap();
    db.insert(vec![10, 10], "b".to_string()).unwrap();
    db.insert(vec![1, 1], "c".to_string()).unwrap();
    let bytes = db.persist();
    let mut other = KDTreeVectorDB::new(7);
    other.insert(vec![1, 2, 3, 4, 5, 6, 7], "junk".to_string()).unwrap();
    other.restore(&bytes).unwrap();
    assert_eq!(other.size(), 3);
    assert_eq!(other.query(&vec![0, 0], 2), db.query(&vec![0, 0], 2));
    assert_eq!(other.query(&vec![9, 9], 3), db.query(&vec![9, 9], 3));
    for i in 0..3 {
        assert_eq!(other.get_metadata(i), db.get_metadata(i));
    }
    assert_eq!(other.get_metadata(3), None);
    assert_eq!(other.persist(), bytes);
}

#[test]
fn restore_refuses_malformed_streams_unchanged() {
    let mut db = KDTreeVectorDB::new(2);
    db.insert(vec![4, 2], "keep".to_string()).unwrap();
    let before = db.persist();
    assert_eq!(db.restore(&vec![]), Err(IndexError::Deserialization));
    assert_eq!(db.restore(&vec![1, 2, 3]), Err(IndexError::Deserialization));
    let mut truncated = before.clone();
    truncated.pop();
    assert_eq!(db.restore(&truncated), Err(IndexError::Deserialization));
    assert_eq!(db.persist(), before);
    assert_eq!(db.get_metadata(0), Some("keep".to_string()));
}

#[test]
fn persisted_layout_is_little_endian_with_fixed_field_order() {
    let db = KDTreeVectorDB::new(3);
    let bytes = db.persist();
    let mut want = vec![3u8, 0, 0, 0, 0, 0, 0, 0];
    want.extend_from_slice(&[0u8; 8]);
    want.extend_from_slice(&[0u8; 8]);
    want.push(0u8);
    assert_eq!(bytes, want);
}

#[test]
fn round_trip_preserves_non_ascii_metadata() {
    let mut db = KDTreeVectorDB::new(1);
    db.insert(vec![7], "caf\u{e9} \u{1f600}".to_string()).unwrap();
    let bytes = db.persist();
    let mut other = KDTreeVectorDB::new(1);
    other.restore(&bytes).unwrap();
    assert_eq!(other.get_metadata(0), Some("caf\u{e9} \u{1f600}".to_string()));
}
