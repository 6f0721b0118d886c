use javelin::db_config::{
    DBConfigBuilder, DEFAULT_ALLOWED_MAX_LEVELS, DEFAULT_EXPECTED_NUM_KEYS, HALF,
};
use javelin::entry::{Entry, LogEntry};
use javelin::memtable::{
    ImmutableMemtable, Memtable, MemtableError, MemtableHandler, MemtableHandlerError,
};
use javelin::skiplist::SkipListError;

fn put(key: u8, val: u8, seq: u64) -> LogEntry {
    LogEntry::new(Entry::Put { key: vec![key], val: vec![val] }, seq)
}

fn del(key: u8, seq: u64) -> LogEntry {
    LogEntry::new(Entry::Del { key: vec![key] }, seq)
}

#[test]
fn config_builder_starts_from_the_defaults() {
    let config = DBConfigBuilder::new().build();
    assert_eq!(HALF, config.memtable_probability());
    assert_eq!(0x8000_0000, HALF);
    assert_eq!(10_000, config.memtable_expected_num_keys());
    assert_eq!(DEFAULT_EXPECTED_NUM_KEYS, config.memtable_expected_num_keys());
    assert_eq!(32, config.memtable_allowed_max_levels());
    assert_eq!(DEFAULT_ALLOWED_MAX_LEVELS, config.memtable_allowed_max_levels());
}

#[test]
fn config_builder_sets_each_field() {
    let config = DBConfigBuilder::new()
        .memtable_probability(0x4000_0000)
        .memtable_expected_num_keys(500)
        .memtable_allowed_max_levels(6)
        .build();
    assert_eq!(0x4000_0000, config.memtable_probability());
    assert_eq!(500, config.memtable_expected_num_keys());
    assert_eq!(6, config.memtable_allowed_max_levels());
}

#[test]
fn memtable_serves_the_visible_version() {
    let mut memtable = Memtable::new(DBConfigBuilder::new().build());
    assert_eq!(Ok(()), memtable.insert(put(1, 1, 1)));
    assert_eq!(Ok(()), memtable.insert(put(2, 2, 2)));
    assert_eq!(Ok(()), memtable.insert(del(1, 3)));
    assert_eq!(Ok(Some(put(1, 1, 1))), memtable.get(&vec![1], 2));
    assert_eq!(Ok(Some(del(1, 3))), memtable.get(&vec![1], 3));
    assert_eq!(Ok(None), memtable.get(&vec![1], 0));
}

#[test]
fn memtable_reports_a_duplicate_version() {
    let mut memtable = Memtable::new(DBConfigBuilder::new().build());
    assert_eq!(Ok(()), memtable.insert(put(1, 1, 1)));
    assert_eq!(
        Err(MemtableError::SkipListError(SkipListError::DuplicateVersion)),
        memtable.insert(put(1, 9, 1))
    );
    assert_eq!(Ok(Some(put(1, 1, 1))), memtable.get(&vec![1], 1));
}

#[test]
fn frozen_buffer_keeps_the_records() {
    let mut memtable = Memtable::new(DBConfigBuilder::new().build());
    memtable.insert(put(1, 1, 1)).unwrap();
    memtable.insert(put(1, 2, 4)).unwrap();
    let frozen = match memtable.into_frozen() {
        Ok(frozen) => frozen,
        Err(_) => panic!("freezing failed"),
    };
    assert_eq!(Some(put(1, 1, 1)), frozen.get(&vec![1], 3));
    assert_eq!(Some(put(1, 2, 4)), frozen.get(&vec![1], 4));
    assert_eq!(None, frozen.get(&vec![1], 0));
    assert_eq!(None, frozen.get(&vec![2], 9));

    let mut other = Memtable::new(DBConfigBuilder::new().build());
    other.insert(del(3, 1)).unwrap();
    let frozen = match ImmutableMemtable::new(other) {
        Ok(frozen) => frozen,
        Err(_) => panic!("freezing failed"),
    };
    assert_eq!(Some(del(3, 1)), frozen.get(&vec![3], 1));
}

#[test]
fn handler_routes_inserts_to_the_active_buffer() {
    let mut handler = MemtableHandler::new(DBConfigBuilder::new().build());
    assert_eq!(0, handler.frozen_count());
    assert_eq!(Ok(()), handler.insert(put(1, 1, 1)));
    assert_eq!(Ok(Some(put(1, 1, 1))), handler.get(&vec![1], 1));
    assert_eq!(Ok(None), handler.get(&vec![1], 0));
    assert_eq!(
        Err(MemtableHandlerError::MemtableError(MemtableError::SkipListError(
            SkipListError::DuplicateVersion
        ))),
        handler.insert(del(1, 1))
    );
    assert_eq!(Ok(Some(put(1, 1, 1))), handler.get(&vec![1], 1));
}

#[test]
fn frozen_buffer_is_unchanged_by_later_inserts() {
    let mut handler = MemtableHandler::new(DBConfigBuilder::new().build());
    handler.insert(put(1, 1, 1)).unwrap();
    handler.insert(put(2, 2, 2)).unwrap();
    match handler.freeze_active() {
        Ok(frozen) => {
            assert_eq!(Some(put(1, 1, 1)), frozen.get(&vec![1], 5));
        }
        Err(_) => panic!("freezing failed"),
    }
    assert_eq!(1, handler.frozen_count());
    handler.insert(put(1, 7, 3)).unwrap();
    handler.insert(put(3, 3, 4)).unwrap();
    // the same version may be written to the new active buffer
    assert_eq!(Ok(()), handler.insert(put(2, 9, 2)));
    let frozen = handler.frozen(0).expect("a frozen buffer");
    assert_eq!(Some(put(1, 1, 1)), frozen.get(&vec![1], 5));
    assert_eq!(Some(put(2, 2, 2)), frozen.get(&vec![2], 5));
    assert_eq!(None, frozen.get(&vec![3], 5));
    assert!(handler.frozen(1).is_none());
    assert_eq!(Ok(Some(put(1, 7, 3))), handler.get(&vec![1], 5));
    assert_eq!(Ok(Some(put(1, 1, 1))), handler.get(&vec![1], 2));
    assert_eq!(Ok(Some(put(2, 9, 2))), handler.get(&vec![2], 2));
}

#[test]
fn most_recently_frozen_buffer_is_searched_first() {
    let mut handler = MemtableHandler::new(DBConfigBuilder::new().build());
    handler.insert(put(1, 10, 1)).unwrap();
    handler.freeze_active().unwrap();
    handler.insert(put(1, 20, 2)).unwrap();
    handler.freeze_active().unwrap();
    handler.insert(put(2, 30, 3)).unwrap();
    assert_eq!(2, handler.frozen_count());
    assert_eq!(Ok(Some(put(1, 20, 2))), handler.get(&vec![1], 5));
    assert_eq!(Ok(Some(put(1, 20, 2))), handler.get(&vec![1], 2));
    assert_eq!(Ok(Some(put(1, 10, 1))), handler.get(&vec![1], 1));
    assert_eq!(Ok(None), handler.get(&vec![1], 0));
    assert_eq!(Ok(Some(put(2, 30, 3))), handler.get(&vec![2], 3));
    handler.insert(put(1, 40, 4)).unwrap();
    assert_eq!(Ok(Some(put(1, 40, 4))), handler.get(&vec![1], 5));
    assert_eq!(Ok(Some(put(1, 20, 2))), handler.get(&vec![1], 3));
}

#[test]
fn freezing_an_empty_buffer_leaves_lookups_as_they_were() {
    let mut handler = MemtableHandler::new(DBConfigBuilder::new().build());
    handler.insert(put(1, 1, 1)).unwrap();
    handler.freeze_active().unwrap();
    handler.freeze_active().unwrap();
    assert_eq!(2, handler.frozen_count());
    assert_eq!(Ok(Some(put(1, 1, 1))), handler.get(&vec![1], 1));
    assert_eq!(Ok(None), handler.get(&vec![2], 1));
}
