use wind_kvstore::codec::{checksum_of, HEADER_LEN};
use wind_kvstore::error::KvError;
use wind_kvstore::locks::LockTable;
use wind_kvstore::persist::{sync_action, SyncAction};
use wind_kvstore::store::Store;

fn opened() -> Store {
    Store::open(Store::create().close()).unwrap()
}

#[test]
fn new_store_is_header_only() {
    let s = Store::create();
    assert_eq!(s.log().len(), HEADER_LEN);
    assert_eq!(HEADER_LEN, 70);
    assert_eq!(&s.log()[0..4], b"WKVS");
    assert_eq!(s.get_identifier(), "default");
    assert_eq!(s.get(b"a").unwrap(), None);
}

#[test]
fn put_then_get_returns_value() {
    let mut s = opened();
    s.put(b"key", b"value").unwrap();
    assert_eq!(s.get(b"key").unwrap(), Some(b"value".to_vec()));
}

#[test]
fn put_delete_then_get_is_none() {
    let mut s = opened();
    s.put(b"k", b"v").unwrap();
    s.delete(b"k").unwrap();
    assert_eq!(s.get(b"k").unwrap(), None);
}

#[test]
fn last_write_wins() {
    let mut s = opened();
    s.put(b"k", b"v1").unwrap();
    s.put(b"k", b"v2").unwrap();
    assert_eq!(s.get(b"k").unwrap(), Some(b"v2".to_vec()));
}

#[test]
fn record_size_is_overhead_plus_key_and_value() {
    let mut s = Store::create();
    s.put(b"a", b"1").unwrap();
    assert_eq!(s.log().len(), 70 + 13 + 1 + 1);
    s.put(b"abc", b"").unwrap();
    assert_eq!(s.log().len(), 85 + 13 + 3);
    assert_eq!(s.get(b"abc").unwrap(), Some(Vec::new()));
}

#[test]
fn empty_key_is_rejected() {
    let mut s = Store::create();
    let before = s.log().to_vec();
    assert_eq!(s.put(b"", b"v"), Err(KvError::InvalidArgument));
    assert_eq!(s.log(), &before[..]);
}

#[test]
fn delete_of_absent_key_appends_nothing() {
    let mut s = Store::create();
    s.put(b"a", b"1").unwrap();
    let len = s.log().len();
    s.delete(b"zzz").unwrap();
    assert_eq!(s.log().len(), len);
    s.delete(b"a").unwrap();
    assert_eq!(s.log().len(), len + 13 + 1);
    s.delete(b"a").unwrap();
    assert_eq!(s.log().len(), len + 14);
}

#[test]
fn compaction_keeps_contents_and_shrinks() {
    let mut s = Store::create();
    s.put(b"a", b"1").unwrap();
    s.put(b"b", b"2").unwrap();
    s.put(b"a", b"3").unwrap();
    s.put(b"c", b"4").unwrap();
    s.delete(b"c").unwrap();
    let before = s.log().len();
    let generation = s.generation();
    s.compact();
    assert!(s.log().len() <= before);
    assert_eq!(s.log().len(), 70 + 2 * 15);
    assert_ne!(s.generation(), generation);
    assert_eq!(s.get(b"a").unwrap(), Some(b"3".to_vec()));
    assert_eq!(s.get(b"b").unwrap(), Some(b"2".to_vec()));
    assert_eq!(s.get(b"c").unwrap(), None);
    assert_eq!(s.get_identifier(), "default");
    let reopened = Store::open(s.close()).unwrap();
    assert_eq!(reopened.get(b"a").unwrap(), Some(b"3".to_vec()));
    assert_eq!(reopened.get(b"c").unwrap(), None);
}

#[test]
fn compaction_of_empty_store_is_header() {
    let mut s = Store::create();
    s.put(b"x", b"y").unwrap();
    s.delete(b"x").unwrap();
    s.compact();
    assert_eq!(s.log().len(), 70);
}

#[test]
fn torn_final_record_is_discarded_on_open() {
    let mut s = Store::create();
    s.put(b"a", b"1").unwrap();
    s.put(b"b", b"2").unwrap();
    let complete = s.log().len();
    s.put(b"c", b"33").unwrap();
    let image = s.close();
    for cut in complete + 1..image.len() {
        let reopened = Store::open(image[..cut].to_vec()).unwrap();
        assert_eq!(reopened.log().len(), complete);
        assert_eq!(reopened.get(b"a").unwrap(), Some(b"1".to_vec()));
        assert_eq!(reopened.get(b"b").unwrap(), Some(b"2".to_vec()));
        assert_eq!(reopened.get(b"c").unwrap(), None);
    }
}

#[test]
fn torn_tombstone_keeps_the_key() {
    let mut s = Store::create();
    s.put(b"a", b"1").unwrap();
    let complete = s.log().len();
    s.delete(b"a").unwrap();
    let image = s.close();
    let reopened = Store::open(image[..complete + 5].to_vec()).unwrap();
    assert_eq!(reopened.get(b"a").unwrap(), Some(b"1".to_vec()));
}

#[test]
fn corrupt_record_fails_open() {
    let mut s = Store::create();
    s.put(b"a", b"1").unwrap();
    s.put(b"b", b"2").unwrap();
    let mut image = s.close();
    image[70 + 9] ^= 0xff;
    assert_eq!(Store::open(image).err(), Some(KvError::Corruption));
}

#[test]
fn malformed_header_fails_open() {
    let mut image = Store::create().close();
    image[0] = b'X';
    assert_eq!(Store::open(image).err(), Some(KvError::Corruption));
    assert_eq!(Store::open(Vec::new()).err(), Some(KvError::Corruption));
    assert_eq!(Store::open(vec![0u8; 69]).err(), Some(KvError::Corruption));
}

#[test]
fn identifier_survives_reopen() {
    let mut s = opened();
    s.put(b"k", b"v").unwrap();
    s.set_identifier("abc").unwrap();
    assert_eq!(s.get_identifier(), "abc");
    let reopened = Store::open(s.close()).unwrap();
    assert_eq!(reopened.get_identifier(), "abc");
    assert_eq!(reopened.get(b"k").unwrap(), Some(b"v".to_vec()));
}

#[test]
fn invalid_identifiers_are_rejected() {
    let mut s = Store::create();
    assert_eq!(s.set_identifier(""), Err(KvError::InvalidArgument));
    assert_eq!(s.set_identifier(&"x".repeat(65)), Err(KvError::InvalidArgument));
    assert_eq!(s.set_identifier("tab\there"), Err(KvError::InvalidArgument));
    assert_eq!(s.set_identifier("caf\u{e9}"), Err(KvError::InvalidArgument));
    assert_eq!(s.get_identifier(), "default");
    s.set_identifier(&"y".repeat(64)).unwrap();
    assert_eq!(s.get_identifier().len(), 64);
}

#[test]
fn second_lock_on_a_path_is_busy() {
    let mut locks = LockTable::new();
    assert_eq!(locks.acquire("test.db"), Ok(()));
    assert_eq!(locks.acquire("test.db"), Err(KvError::Busy));
    assert_eq!(locks.acquire("test.db"), Err(KvError::Busy));
    assert_eq!(locks.acquire("other.db"), Ok(()));
    locks.release("test.db");
    assert!(!locks.is_held("test.db"));
    assert!(locks.is_held("other.db"));
    assert_eq!(locks.acquire("test.db"), Ok(()));
}

#[test]
fn end_to_end_scenario() {
    let mut locks = LockTable::new();
    locks.acquire("test.db").unwrap();
    let mut s = Store::create();
    s.put(b"a", b"1").unwrap();
    s.put(b"b", b"2").unwrap();
    assert_eq!(s.get(b"a").unwrap(), Some(b"1".to_vec()));
    s.delete(b"a").unwrap();
    assert_eq!(s.get(b"a").unwrap(), None);
    s.compact();
    assert_eq!(s.get(b"b").unwrap(), Some(b"2".to_vec()));
    let image = s.close();
    locks.release("test.db");
    let reopened = Store::open(image).unwrap();
    assert_eq!(reopened.get(b"b").unwrap(), Some(b"2".to_vec()));
}

#[test]
fn checksum_matches_adler32() {
    assert_eq!(checksum_of(b"Wikipedia", 0, 9), 0x11E6_0398);
    assert_eq!(checksum_of(b"", 0, 0), 1);
}

#[test]
fn error_messages_are_not_empty() {
    assert_eq!(KvError::Busy.message(), "database already open elsewhere");
    assert_eq!(KvError::Corruption.message(), "data corruption detected");
}

#[test]
fn sync_appends_while_generation_holds() {
    let mut s = Store::create();
    let g = s.generation();
    assert_eq!(sync_action(&s, 70, g), SyncAction::Nothing);
    s.put(b"a", b"1").unwrap();
    assert_eq!(sync_action(&s, 70, g), SyncAction::Append(70));
    s.compact();
    assert_eq!(sync_action(&s, 85, g), SyncAction::Rewrite);
    assert_eq!(sync_action(&s, 200, s.generation()), SyncAction::Rewrite);
}
