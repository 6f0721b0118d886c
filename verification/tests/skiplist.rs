use javelin::db_config::HALF;
use javelin::entry::{Entry, LogEntry};
use javelin::keys::{key_order, KeyOrder};
use javelin::skiplist::{count_levels, SkipList, SkipListError, DEFAULT_SEED};

fn new_put_int_entry(key: i32, log_seq_num: u64) -> LogEntry {
    let key_bytes = key.to_be_bytes().to_vec();
    LogEntry::new(
        Entry::Put {
            key: key_bytes.clone(),
            val: key_bytes.clone(),
        },
        log_seq_num,
    )
}

fn new_del_int_entry(key: i32, log_seq_num: u64) -> LogEntry {
    let key_bytes = key.to_be_bytes().to_vec();
    LogEntry::new(
        Entry::Del {
            key: key_bytes.clone(),
        },
        log_seq_num,
    )
}

#[test]
fn test_skiplist_insert_and_delete() {
    let mut skiplist = SkipList::new(HALF, 1_000, 3);

    let key_1: i32 = 1;
    let key_1_bytes = key_1.to_be_bytes().to_vec();

    let put_entry_1 = new_put_int_entry(1, 1);
    assert_eq!(Ok(()), skiplist.insert(put_entry_1.clone()));

    let put_entry_2 = new_put_int_entry(2, 2);
    assert_eq!(Ok(()), skiplist.insert(put_entry_2.clone()));

    let del_entry_1 = new_del_int_entry(1, 3);
    assert_eq!(Ok(()), skiplist.insert(del_entry_1.clone()));

    let got_entry_1 = skiplist.get(&key_1_bytes, 2);
    assert_eq!(Some(put_entry_1.clone()), got_entry_1);

    let got_del_entry_1 = skiplist.get(&key_1_bytes, 3);
    assert_eq!(Some(del_entry_1.clone()), got_del_entry_1);
}

#[test]
fn test_skiplist_with_increasing_insert_keys() {
    let mut skiplist = SkipList::new(HALF, 1_000, 3);

    let mut expected_keys: Vec<Vec<u8>> = Vec::new();

    for i in 0..1000 as u64 {
        let key = i.to_be_bytes().to_vec();
        assert_eq!(
            Ok(()),
            skiplist.insert(LogEntry::new(
                Entry::Put {
                    key: key.clone(),
                    val: key.clone(),
                },
                i,
            ))
        );
        expected_keys.push(key.clone())
    }

    for (i, key) in expected_keys.iter().enumerate() {
        let entry = skiplist.get(&key, i as u64);
        let entry_val = entry.expect("expected a log entry");
        assert_eq!(
            LogEntry::new(
                Entry::Put {
                    key: key.clone(),
                    val: key.clone()
                },
                i as u64,
            ),
            entry_val
        );
    }
}

#[test]
fn test_skiplist_with_decreasing_insert_keys() {
    let mut skiplist = SkipList::new(HALF, 1_000, 3);

    let mut expected_keys: Vec<Vec<u8>> = Vec::new();

    for i in (0..1000 as u64).rev() {
        let key = i.to_be_bytes().to_vec();
        assert_eq!(
            Ok(()),
            skiplist.insert(LogEntry::new(
                Entry::Put {
                    key: key.clone(),
                    val: key.clone(),
                },
                999 - i,
            ))
        );
        expected_keys.push(key.clone())
    }

    for (i, key) in expected_keys.iter().enumerate() {
        let entry = skiplist.get(&key, i as u64);
        let entry_val = entry.expect("expected a log entry");
        assert_eq!(
            LogEntry::new(
                Entry::Put {
                    key: key.clone(),
                    val: key.clone()
                },
                i as u64
            ),
            entry_val
        );
    }
}

#[test]
fn get_below_first_version_finds_nothing() {
    let mut skiplist = SkipList::new(HALF, 1_000, 3);
    skiplist.insert(new_put_int_entry(1, 1)).unwrap();
    skiplist.insert(new_put_int_entry(2, 2)).unwrap();
    skiplist.insert(new_del_int_entry(1, 3)).unwrap();
    let key = 1i32.to_be_bytes().to_vec();
    assert_eq!(None, skiplist.get(&key, 0));
    assert_eq!(Some(new_put_int_entry(1, 1)), skiplist.get(&key, 1));
    assert_eq!(Some(new_del_int_entry(1, 3)), skiplist.get(&key, u64::MAX));
    assert_eq!(None, skiplist.get(&3i32.to_be_bytes().to_vec(), u64::MAX));
    assert_eq!(None, skiplist.get(&0i32.to_be_bytes().to_vec(), u64::MAX));
}

#[test]
fn get_on_empty_index_finds_nothing() {
    let skiplist = SkipList::new(HALF, 1_000, 3);
    assert_eq!(0, skiplist.len());
    assert_eq!(None, skiplist.get(&vec![1u8], u64::MAX));
    assert_eq!(None, skiplist.get(&Vec::new(), 0));
}

#[test]
fn duplicate_version_is_refused_and_nothing_overwritten() {
    let mut skiplist = SkipList::new(HALF, 1_000, 3);
    let first = LogEntry::new(Entry::Put { key: vec![7], val: vec![1] }, 5);
    let second = LogEntry::new(Entry::Put { key: vec![7], val: vec![2] }, 5);
    assert_eq!(Ok(()), skiplist.insert(first.clone()));
    assert_eq!(Err(SkipListError::DuplicateVersion), skiplist.insert(second));
    assert_eq!(
        Err(SkipListError::DuplicateVersion),
        skiplist.insert(LogEntry::new(Entry::Del { key: vec![7] }, 5))
    );
    assert_eq!(1, skiplist.len());
    assert_eq!(Some(first), skiplist.get(&vec![7], 5));
}

#[test]
fn duplicate_is_found_among_many_versions() {
    let mut skiplist = SkipList::with_seed(HALF, 1_000, 8, 42);
    for seq in 0..200u64 {
        skiplist
            .insert(LogEntry::new(Entry::Put { key: vec![1, 2], val: vec![seq as u8] }, seq))
            .unwrap();
    }
    for seq in 0..200u64 {
        assert_eq!(
            Err(SkipListError::DuplicateVersion),
            skiplist.insert(LogEntry::new(Entry::Del { key: vec![1, 2] }, seq))
        );
    }
    assert_eq!(200, skiplist.len());
}

#[test]
fn empty_entry_is_ignored() {
    let mut skiplist = SkipList::new(HALF, 1_000, 3);
    assert_eq!(Ok(()), skiplist.insert(LogEntry::new(Entry::Empty, 9)));
    assert_eq!(Ok(()), skiplist.insert(LogEntry::default()));
    assert_eq!(0, skiplist.len());
}

#[test]
fn newest_visible_version_is_returned_at_every_snapshot() {
    for seed in [1u64, 2, 3, 99, DEFAULT_SEED] {
        let mut skiplist = SkipList::with_seed(HALF, 1_000, 10, seed);
        // versions 10, 20, .., 500 of one key, inserted out of order
        let mut order: Vec<u64> = (1..=50).map(|i| (i * 37) % 51).collect();
        order.retain(|v| *v != 0);
        assert_eq!(50, order.len());
        for v in &order {
            let seq = v * 10;
            skiplist
                .insert(LogEntry::new(
                    Entry::Put { key: vec![5, 5], val: seq.to_be_bytes().to_vec() },
                    seq,
                ))
                .unwrap();
        }
        skiplist.insert(LogEntry::new(Entry::Put { key: vec![5], val: vec![] }, 1)).unwrap();
        skiplist.insert(LogEntry::new(Entry::Put { key: vec![5, 5, 0], val: vec![] }, 1)).unwrap();
        for snapshot in 0..=510u64 {
            let got = skiplist.get(&vec![5, 5], snapshot);
            if snapshot < 10 {
                assert_eq!(None, got);
            } else {
                let seq = ((snapshot / 10) * 10).min(500);
                assert_eq!(
                    Some(LogEntry::new(
                        Entry::Put { key: vec![5, 5], val: seq.to_be_bytes().to_vec() },
                        seq
                    )),
                    got
                );
            }
        }
    }
}

#[test]
fn keys_are_ordered_as_byte_strings() {
    let mut skiplist = SkipList::with_seed(HALF, 100, 4, 7);
    let keys: Vec<Vec<u8>> = vec![vec![], vec![0], vec![0, 0], vec![0, 1], vec![1], vec![255], vec![255, 0]];
    for (i, key) in keys.iter().enumerate().rev() {
        skiplist
            .insert(LogEntry::new(Entry::Put { key: key.clone(), val: vec![i as u8] }, 1))
            .unwrap();
    }
    for (i, key) in keys.iter().enumerate() {
        assert_eq!(
            Some(LogEntry::new(Entry::Put { key: key.clone(), val: vec![i as u8] }, 1)),
            skiplist.get(key, 1)
        );
        assert_eq!(None, skiplist.get(key, 0));
    }
}

#[test]
fn key_order_is_lexicographic() {
    assert_eq!(KeyOrder::Equal, key_order(&vec![], &vec![]));
    assert_eq!(KeyOrder::Less, key_order(&vec![], &vec![0]));
    assert_eq!(KeyOrder::Greater, key_order(&vec![0], &vec![]));
    assert_eq!(KeyOrder::Less, key_order(&vec![1, 2], &vec![1, 3]));
    assert_eq!(KeyOrder::Greater, key_order(&vec![2], &vec![1, 255]));
    assert_eq!(KeyOrder::Less, key_order(&vec![1, 2], &vec![1, 2, 0]));
    assert_eq!(KeyOrder::Equal, key_order(&vec![9, 9, 9], &vec![9, 9, 9]));
}

#[test]
fn level_count_is_the_rounded_up_logarithm_within_its_bounds() {
    assert_eq!(3, count_levels(HALF, 1_000, 3));
    assert_eq!(10, count_levels(HALF, 1_000, 32));
    assert_eq!(10, count_levels(HALF, 1_024, 32));
    assert_eq!(11, count_levels(HALF, 1_025, 32));
    assert_eq!(14, count_levels(HALF, 10_000, 32));
    assert_eq!(5, count_levels(0x4000_0000, 1_000, 32));
    assert_eq!(1, count_levels(HALF, 2, 32));
    assert_eq!(1, count_levels(HALF, 1, 32));
    assert_eq!(1, count_levels(HALF, 0, 32));
    assert_eq!(1, count_levels(HALF, 1_000, 0));
    assert_eq!(32, count_levels(HALF, u32::MAX, 40));
    assert_eq!(1, count_levels(0, 1_000, 32));
    assert_eq!(3, SkipList::new(HALF, 1_000, 3).num_levels());
    assert_eq!(10, SkipList::with_seed(HALF, 1_000, 32, 1).num_levels());
}

#[test]
fn single_level_index_still_answers() {
    let mut skiplist = SkipList::new(HALF, 1, 1);
    assert_eq!(1, skiplist.num_levels());
    for i in 0..100u64 {
        skiplist.insert(new_put_int_entry((i * 7 % 100) as i32, i)).unwrap();
    }
    for i in 0..100u64 {
        let key = ((i * 7 % 100) as i32).to_be_bytes().to_vec();
        assert_eq!(Some(new_put_int_entry((i * 7 % 100) as i32, i)), skiplist.get(&key, i));
        assert_eq!(Some(new_put_int_entry((i * 7 % 100) as i32, i)), skiplist.get(&key, 1_000));
    }
}

#[test]
fn entry_key_and_clone() {
    let put = Entry::Put { key: vec![1, 2], val: vec![3] };
    let del = Entry::Del { key: vec![4] };
    assert_eq!(Some(&vec![1u8, 2]), put.key());
    assert_eq!(Some(&vec![4u8]), del.key());
    assert_eq!(None, Entry::Empty.key());
    assert_eq!(put, put.clone());
    let record = LogEntry::new(del, 8);
    assert_eq!(record, record.clone());
    assert_eq!(8, record.log_seq_num);
    assert_eq!(LogEntry::new(Entry::Empty, 0), LogEntry::default());
}

#[test]
fn answers_do_not_depend_on_seed_or_probability() {
    for (probability, seed) in [(HALF, 0u64), (0u32, 5), (u32::MAX, 5), (0x4000_0000, u64::MAX)] {
        let mut skiplist = SkipList::with_seed(probability, 1_000, 6, seed);
        for i in 0..300u64 {
            let key = ((i * 131) % 97) as u8;
            skiplist.insert(LogEntry::new(Entry::Put { key: vec![key], val: vec![] }, i)).unwrap();
        }
        assert_eq!(300, skiplist.len());
        for key in 0..97u8 {
            for snapshot in [0u64, 50, 150, 299, 1_000] {
                let mut expected: Option<u64> = None;
                for i in 0..300u64 {
                    if ((i * 131) % 97) as u8 == key && i <= snapshot {
                        expected = Some(i);
                    }
                }
                let got = skiplist.get(&vec![key], snapshot);
                assert_eq!(
                    expected.map(|i| LogEntry::new(Entry::Put { key: vec![key], val: vec![] }, i)),
                    got
                );
            }
        }
    }
}
