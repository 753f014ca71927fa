use std::collections::BTreeMap;
use social_graph::outliers::OutlierTracker;
use social_graph::sampling::{
    child_tree_probe_key, sample_read_keys, sample_write_keys, ChildKeys, ReadCandidate,
    WriteCandidate, CHILD_VALUE_SIZE,
};
use social_graph::transactions::{
    check_new_value, convert_tx, AttemptStep, DbChange, TrieChange, WriteAttempts,
};

#[test]
fn tracker_keeps_slowest() {
    let mut t = OutlierTracker::new(3);
    let samples: Vec<(u128, u64)> = vec![(50, 0), (10, 1), (70, 2), (30, 3), (90, 4), (20, 5)];
    let mut evicted = Vec::new();
    for s in samples {
        if let Some(e) = t.record(s) {
            evicted.push(e);
        }
    }
    assert_eq!(t.len(), 3);
    assert_eq!(evicted, vec![(10, 1), (30, 3), (20, 5)]);
    assert_eq!(t.into_descending(), vec![(90, 4), (70, 2), (50, 0)]);
}

#[test]
fn tracker_with_no_room() {
    let mut t = OutlierTracker::new(0);
    assert_eq!(t.record((5, 0)), Some((5, 0)));
    assert_eq!(t.len(), 0);
    assert_eq!(t.into_descending(), vec![]);
}

#[test]
fn tracker_ties_broken_by_sequence() {
    let mut t = OutlierTracker::new(2);
    assert_eq!(t.record((7, 0)), None);
    assert_eq!(t.record((7, 1)), None);
    assert_eq!(t.record((7, 2)), Some((7, 0)));
    assert_eq!(t.into_descending(), vec![(7, 2), (7, 1)]);
}

#[test]
fn probe_key_bytes() {
    assert_eq!(child_tree_probe_key(), vec![0xe8, 0x03, 0x00, 0x00]);
}

#[test]
fn read_sampling() {
    let cands = vec![
        ReadCandidate { key: vec![1, 2], child: None },
        ReadCandidate { key: vec![3], child: Some(7) },
    ];
    let with = sample_read_keys(true, &cands);
    assert_eq!(with.len(), 2);
    assert_eq!((with[0].key.clone(), with[0].child), (vec![1, 2], None));
    assert_eq!((with[1].key.clone(), with[1].child), (vec![0xe8, 3, 0, 0], Some(7)));
    let without = sample_read_keys(false, &cands);
    assert_eq!((without[1].key.clone(), without[1].child), (vec![3], None));
}

#[test]
fn write_sampling() {
    let cands = vec![
        WriteCandidate { key: vec![1], value_len: 12, child: None },
        WriteCandidate {
            key: vec![2],
            value_len: 5,
            child: Some(ChildKeys {
                child: 4,
                keys: vec![vec![10], vec![11], vec![12], vec![13]],
                rolls: vec![100, 80, 20, 50],
            }),
        },
    ];
    let s = sample_write_keys(true, 50, &cands);
    let got: Vec<(Vec<u8>, usize, Option<u64>)> = s.iter().map(|w| (w.key.clone(), w.size, w.child)).collect();
    assert_eq!(
        got,
        vec![
            (vec![1], 12, None),
            (vec![10], CHILD_VALUE_SIZE, Some(4)),
            (vec![12], CHILD_VALUE_SIZE, Some(4)),
            (vec![13], CHILD_VALUE_SIZE, Some(4)),
        ]
    );
    let s2 = sample_write_keys(false, 50, &cands);
    let got2: Vec<(Vec<u8>, usize, Option<u64>)> = s2.iter().map(|w| (w.key.clone(), w.size, w.child)).collect();
    assert_eq!(got2, vec![(vec![1], 12, None), (vec![2], 5, None)]);
}

fn changes() -> Vec<TrieChange> {
    vec![
        TrieChange { key: vec![1], value: vec![10], rc: 1 },
        TrieChange { key: vec![2], value: vec![20], rc: -1 },
        TrieChange { key: vec![3], value: vec![30], rc: 0 },
        TrieChange { key: vec![4], value: vec![40], rc: 2 },
    ]
}

#[test]
fn convert_keeps_insertions() {
    assert_eq!(
        convert_tx(&changes(), false),
        vec![DbChange::Write(vec![1], vec![10]), DbChange::Write(vec![4], vec![40])]
    );
}

#[test]
fn inverted_convert_removes_what_was_written() {
    assert_eq!(convert_tx(&changes(), true), vec![DbChange::Remove(vec![1]), DbChange::Remove(vec![4])]);
}

#[test]
fn collision_check() {
    let c = changes();
    assert!(check_new_value(&c, &vec![false, true, true, false]));
    assert!(!check_new_value(&c, &vec![false, false, false, true]));
    assert!(check_new_value(&vec![], &vec![]));
}

#[test]
fn write_attempts() {
    let mut a = WriteAttempts::new();
    assert_eq!(a.after_check(false), AttemptStep::Retry);
    assert_eq!(a.after_check(true), AttemptStep::Write);
    assert_eq!(a.after_check(false), AttemptStep::Retry);
    assert_eq!(a.after_check(false), AttemptStep::GiveUp);
    assert_eq!(a.repeats, 0);
}

#[test]
fn inverted_transaction_restores_database() {
    let apply = |db: &mut BTreeMap<Vec<u8>, Vec<u8>>, tx: Vec<DbChange>| {
        for c in tx {
            match c {
                DbChange::Write(k, v) => {
                    db.insert(k, v);
                }
                DbChange::Remove(k) => {
                    db.remove(&k);
                }
            }
        }
    };
    let mut db: BTreeMap<Vec<u8>, Vec<u8>> = BTreeMap::new();
    db.insert(vec![2], vec![99]);
    db.insert(vec![9], vec![7]);
    let before = db.clone();
    apply(&mut db, convert_tx(&changes(), false));
    assert_eq!(db.get(&vec![1]), Some(&vec![10]));
    assert_eq!(db.get(&vec![4]), Some(&vec![40]));
    apply(&mut db, convert_tx(&changes(), true));
    assert_eq!(db, before);
}
