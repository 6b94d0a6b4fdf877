//! Exercises the engine end to end: the store/fetch/delete/append
//! surface, the iteration protocol, transactions, locks, flags and the
//! introspection calls.

use trivialdb::{Error, Flags, StoreFlags, Tdb, O_CREAT, O_RDONLY, O_RDWR};

fn testtdb() -> Tdb {
    Tdb::open(
        "test.tdb",
        None,
        Flags::empty(),
        O_RDWR | O_CREAT,
        0o600,
    )
    .unwrap()
}

#[test]
fn test_memory() {
    let mut tdb = Tdb::memory(None, Flags::empty()).unwrap();
    assert!(!tdb.exists_key(b"foo"));
    tdb.store(b"foo", b"bar", None).unwrap();
    assert!(tdb.exists_key(b"foo"));
    assert_eq!(tdb.fetch(b"foo").unwrap().unwrap(), b"bar");
    tdb.delete(b"foo").unwrap();
    assert_eq!(tdb.fetch(b"foo").unwrap(), None);
}

#[test]
fn test_simple() {
    let mut tdb = testtdb();
    assert!(!tdb.exists_key(b"foo"));
    tdb.store(b"foo", b"bar", None).unwrap();
    assert!(tdb.exists_key(b"foo"));
    assert_eq!(tdb.fetch(b"foo").unwrap().unwrap(), b"bar");
    tdb.delete(b"foo").unwrap();
    assert_eq!(tdb.fetch(b"foo").unwrap(), None);
}

#[test]
fn test_iter() {
    let mut tdb = testtdb();

    tdb.store(b"foo", b"bar", None).unwrap();
    tdb.store(b"blah", b"bloe", None).unwrap();

    let mut iter = tdb.iter().into_iter();
    assert_eq!(iter.next().unwrap(), (b"foo".to_vec(), b"bar".to_vec()));
    assert_eq!(iter.next().unwrap(), (b"blah".to_vec(), b"bloe".to_vec()));
    assert_eq!(iter.next(), None);
}

#[test]
fn test_keys() {
    let mut tdb = testtdb();

    tdb.store(b"foo", b"bar", None).unwrap();
    tdb.store(b"blah", b"bloe", None).unwrap();

    let mut keys = tdb.keys().into_iter();
    assert_eq!(keys.next().unwrap(), b"foo");
    assert_eq!(keys.next().unwrap(), b"blah");
    assert_eq!(keys.next(), None);
}

#[test]
fn test_transaction() {
    let mut tdb = testtdb();

    tdb.transaction_start().unwrap();
    tdb.store(b"foo", b"bar", None).unwrap();
    tdb.transaction_cancel().unwrap();
    assert_eq!(tdb.fetch(b"foo").unwrap(), None);

    tdb.transaction_start().unwrap();
    tdb.store(b"foo", b"bar", None).unwrap();
    tdb.transaction_prepare_commit().unwrap();
    tdb.transaction_commit().unwrap();
    assert_eq!(tdb.fetch(b"foo").unwrap().unwrap(), b"bar");
}

#[test]
fn test_fetch_nonexistent() {
    let tdb = testtdb();
    assert_eq!(tdb.fetch(b"foo").unwrap(), None);
}

#[test]
fn test_store_overwrite() {
    let mut tdb = testtdb();
    tdb.store(b"foo", b"bar", None).unwrap();
    tdb.store(b"foo", b"blah", None).unwrap();
    assert_eq!(tdb.fetch(b"foo").unwrap().unwrap(), b"blah");
}

#[test]
fn test_store_then_fetch_returns_value() {
    let mut tdb = Tdb::memory(None, Flags::empty()).unwrap();
    tdb.store(b"alpha", b"one", None).unwrap();
    assert_eq!(tdb.fetch(b"alpha").unwrap().unwrap(), b"one");
    tdb.store(b"beta", b"", None).unwrap();
    assert_eq!(tdb.fetch(b"beta").unwrap().unwrap(), b"");
}

#[test]
fn test_delete_then_gone() {
    let mut tdb = Tdb::memory(None, Flags::empty()).unwrap();
    tdb.store(b"k", b"v", None).unwrap();
    tdb.delete(b"k").unwrap();
    assert_eq!(tdb.fetch(b"k").unwrap(), None);
    assert!(!tdb.exists_key(b"k"));
}

#[test]
fn test_insert_only_second_fails() {
    let mut tdb = Tdb::memory(None, Flags::empty()).unwrap();
    tdb.store(b"k", b"v1", Some(StoreFlags::Insert)).unwrap();
    assert_eq!(
        tdb.store(b"k", b"v2", Some(StoreFlags::Insert)),
        Err(Error::Exists)
    );
    assert_eq!(tdb.fetch(b"k").unwrap().unwrap(), b"v1");
}

#[test]
fn test_modify_absent_fails() {
    let mut tdb = Tdb::memory(None, Flags::empty()).unwrap();
    assert_eq!(
        tdb.store(b"nope", b"v", Some(StoreFlags::Modify)),
        Err(Error::NoExist)
    );
    assert!(!tdb.exists_key(b"nope"));
    assert_eq!(tdb.keys().len(), 0);
}

#[test]
fn test_replace_mode_same_as_default() {
    let mut tdb = Tdb::memory(None, Flags::empty()).unwrap();
    tdb.store(b"k", b"v1", Some(StoreFlags::Replace)).unwrap();
    tdb.store(b"k", b"v2", Some(StoreFlags::Replace)).unwrap();
    assert_eq!(tdb.fetch(b"k").unwrap().unwrap(), b"v2");
}

#[test]
fn test_append_concatenates() {
    let mut tdb = Tdb::memory(None, Flags::empty()).unwrap();
    tdb.append(b"k", b"v1").unwrap();
    tdb.append(b"k", b"v2").unwrap();
    assert_eq!(tdb.fetch(b"k").unwrap().unwrap(), b"v1v2");
    tdb.store(b"p", b"x", None).unwrap();
    tdb.append(b"p", b"yz").unwrap();
    assert_eq!(tdb.fetch(b"p").unwrap().unwrap(), b"xyz");
}

#[test]
fn test_iteration_walk_complete() {
    let mut tdb = Tdb::memory(None, Flags::empty()).unwrap();
    tdb.store(b"a", b"1", None).unwrap();
    tdb.store(b"b", b"2", None).unwrap();
    tdb.store(b"c", b"3", None).unwrap();
    tdb.store(b"d", b"4", None).unwrap();

    let mut walked: Vec<Vec<u8>> = Vec::new();
    let mut cur = tdb.first_key();
    while let Some(k) = cur {
        cur = tdb.next_key(k.as_slice());
        walked.push(k);
    }
    assert_eq!(walked, tdb.keys());
    let mut sorted = walked.clone();
    sorted.sort();
    assert_eq!(
        sorted,
        vec![b"a".to_vec(), b"b".to_vec(), b"c".to_vec(), b"d".to_vec()]
    );
}

#[test]
fn test_first_key_empty() {
    let tdb = Tdb::memory(None, Flags::empty()).unwrap();
    assert_eq!(tdb.first_key(), None);
}

#[test]
fn test_next_key_single() {
    let mut tdb = Tdb::memory(None, Flags::empty()).unwrap();
    tdb.store(b"only", b"v", None).unwrap();
    let first = tdb.first_key().unwrap();
    assert_eq!(first, b"only".to_vec());
    assert_eq!(tdb.next_key(first.as_slice()), None);
}

#[test]
fn test_transaction_cancel_restores() {
    let mut tdb = Tdb::memory(None, Flags::empty()).unwrap();
    tdb.store(b"a", b"1", None).unwrap();
    tdb.store(b"b", b"2", None).unwrap();
    tdb.transaction_start().unwrap();
    tdb.delete(b"a").unwrap();
    tdb.store(b"c", b"3", None).unwrap();
    assert_eq!(tdb.fetch(b"a").unwrap(), None);
    tdb.transaction_cancel().unwrap();
    assert_eq!(tdb.fetch(b"a").unwrap().unwrap(), b"1");
    assert_eq!(tdb.fetch(b"b").unwrap().unwrap(), b"2");
    assert_eq!(tdb.fetch(b"c").unwrap(), None);
}

#[test]
fn test_transaction_commit_applies() {
    let mut tdb = Tdb::memory(None, Flags::empty()).unwrap();
    tdb.store(b"a", b"1", None).unwrap();
    tdb.transaction_start().unwrap();
    tdb.delete(b"a").unwrap();
    tdb.store(b"b", b"2", None).unwrap();
    tdb.transaction_commit().unwrap();
    assert_eq!(tdb.fetch(b"a").unwrap(), None);
    assert_eq!(tdb.fetch(b"b").unwrap().unwrap(), b"2");
}

#[test]
fn test_transaction_read_your_writes() {
    let mut tdb = Tdb::memory(None, Flags::empty()).unwrap();
    tdb.transaction_start().unwrap();
    tdb.store(b"k", b"v", None).unwrap();
    assert_eq!(tdb.fetch(b"k").unwrap().unwrap(), b"v");
    assert!(tdb.exists_key(b"k"));
    tdb.transaction_cancel().unwrap();
    assert_eq!(tdb.fetch(b"k").unwrap(), None);
}

#[test]
fn test_nesting_disallowed_by_default() {
    let mut tdb = Tdb::memory(None, Flags::empty()).unwrap();
    tdb.transaction_start().unwrap();
    tdb.store(b"k", b"v", None).unwrap();
    assert_eq!(tdb.transaction_start(), Err(Error::Nesting));
    assert!(tdb.transaction_active());
    assert_eq!(tdb.fetch(b"k").unwrap().unwrap(), b"v");
    tdb.transaction_cancel().unwrap();
    assert!(!tdb.transaction_active());
}

#[test]
fn test_nesting_allowed_with_flag() {
    let mut tdb = Tdb::memory(None, Flags::allow_nesting()).unwrap();
    tdb.transaction_start().unwrap();
    tdb.transaction_start().unwrap();
    tdb.store(b"k", b"v", None).unwrap();
    tdb.transaction_commit().unwrap();
    assert!(tdb.transaction_active());
    tdb.transaction_commit().unwrap();
    assert!(!tdb.transaction_active());
    assert_eq!(tdb.fetch(b"k").unwrap().unwrap(), b"v");
}

#[test]
fn test_transaction_boundaries_invalid_when_idle() {
    let mut tdb = Tdb::memory(None, Flags::empty()).unwrap();
    assert_eq!(tdb.transaction_commit(), Err(Error::Invalid));
    assert_eq!(tdb.transaction_cancel(), Err(Error::Invalid));
    assert_eq!(tdb.transaction_prepare_commit(), Err(Error::Invalid));
}

#[test]
fn test_prepared_refuses_mutation() {
    let mut tdb = Tdb::memory(None, Flags::empty()).unwrap();
    tdb.transaction_start().unwrap();
    tdb.store(b"k", b"v", None).unwrap();
    tdb.transaction_prepare_commit().unwrap();
    assert_eq!(tdb.store(b"k2", b"v2", None), Err(Error::Invalid));
    assert_eq!(tdb.delete(b"k"), Err(Error::Invalid));
    assert_eq!(tdb.transaction_prepare_commit(), Err(Error::Invalid));
    tdb.transaction_commit().unwrap();
    assert_eq!(tdb.fetch(b"k").unwrap().unwrap(), b"v");
}

#[test]
fn test_read_only_refuses_writes() {
    let mut tdb = Tdb::open("ro.tdb", None, Flags::empty(), O_RDONLY, 0).unwrap();
    assert_eq!(tdb.store(b"k", b"v", None), Err(Error::ReadOnly));
    assert_eq!(tdb.delete(b"k"), Err(Error::ReadOnly));
    assert_eq!(tdb.append(b"k", b"v"), Err(Error::ReadOnly));
    assert_eq!(tdb.wipe_all(), Err(Error::ReadOnly));
    assert_eq!(tdb.transaction_start(), Err(Error::ReadOnly));
    assert_eq!(tdb.lockall(), Err(Error::ReadOnly));
}

#[test]
fn test_delete_absent_fails() {
    let mut tdb = Tdb::memory(None, Flags::empty()).unwrap();
    assert_eq!(tdb.delete(b"nothing"), Err(Error::NoExist));
}

#[test]
fn test_locks() {
    let mut tdb = Tdb::memory(None, Flags::empty()).unwrap();
    // the in-memory flag implies no locking, so lock calls are accepted
    tdb.lockall().unwrap();
    tdb.unlockall().unwrap();

    let mut disk = testtdb();
    disk.lockall().unwrap();
    disk.lockall().unwrap();
    disk.unlockall().unwrap();
    disk.unlockall().unwrap();
    assert_eq!(disk.unlockall(), Err(Error::Lock));
    disk.lockall_read().unwrap();
    assert_eq!(disk.lockall(), Err(Error::Lock));
    assert_eq!(disk.transaction_start(), Err(Error::Lock));

    let mut disk2 = testtdb();
    disk2.lockall_nonblock().unwrap();
    assert_eq!(disk2.lockall_read_nonblock(), Err(Error::Lock));
    disk2.unlockall().unwrap();
    disk2.lockall_read_nonblock().unwrap();
}

#[test]
fn test_wipe_all() {
    let mut tdb = Tdb::memory(Some(17), Flags::empty()).unwrap();
    tdb.store(b"a", b"1", None).unwrap();
    tdb.store(b"b", b"2", None).unwrap();
    tdb.wipe_all().unwrap();
    assert_eq!(tdb.fetch(b"a").unwrap(), None);
    assert_eq!(tdb.keys().len(), 0);
    assert_eq!(tdb.hash_size(), 17);
    tdb.store(b"a", b"3", None).unwrap();
    assert_eq!(tdb.fetch(b"a").unwrap().unwrap(), b"3");
}

#[test]
fn test_repack_keeps_content() {
    let mut tdb = Tdb::memory(None, Flags::empty()).unwrap();
    tdb.store(b"a", b"1", None).unwrap();
    tdb.store(b"b", b"2", None).unwrap();
    tdb.delete(b"a").unwrap();
    assert_eq!(tdb.freelist_size(), 1);
    tdb.repack().unwrap();
    assert_eq!(tdb.freelist_size(), 0);
    assert_eq!(tdb.fetch(b"b").unwrap().unwrap(), b"2");
    assert_eq!(tdb.fetch(b"a").unwrap(), None);
    // the file shrank to the header, the directory and the one record
    assert_eq!(tdb.map_size(), 64 + 4 * 131 + 24 + 1 + 1);
}

#[test]
fn test_repack_compacts_tombstones() {
    let mut tdb = Tdb::memory(Some(1), Flags::volatile()).unwrap();
    tdb.store(b"a", b"1", None).unwrap();
    tdb.store(b"b", b"2", None).unwrap();
    tdb.store(b"c", b"3", None).unwrap();
    // a tombstoned delete leaves its span allocated
    tdb.delete(b"b").unwrap();
    let fragmented = tdb.map_size();
    assert_eq!(fragmented, 64 + 4 + 3 * (24 + 1 + 1));
    tdb.repack().unwrap();
    // compaction reclaims the tombstone and truncates the file
    assert_eq!(tdb.map_size(), 64 + 4 + 2 * (24 + 1 + 1));
    assert_eq!(tdb.freelist_size(), 0);
    assert_eq!(tdb.fetch(b"a").unwrap().unwrap(), b"1");
    assert_eq!(tdb.fetch(b"b").unwrap(), None);
    assert_eq!(tdb.fetch(b"c").unwrap().unwrap(), b"3");
    // a repack inside a transaction is refused
    tdb.transaction_start().unwrap();
    assert_eq!(tdb.repack(), Err(Error::Lock));
    tdb.transaction_cancel().unwrap();
}

#[test]
fn test_freelist_reuse() {
    let mut tdb = Tdb::memory(None, Flags::empty()).unwrap();
    tdb.store(b"a", b"11", None).unwrap();
    let grown = tdb.map_size();
    tdb.delete(b"a").unwrap();
    assert_eq!(tdb.freelist_size(), 1);
    // the reclaimed span fits the same record again: first-fit reuses it
    tdb.store(b"a", b"11", None).unwrap();
    assert_eq!(tdb.freelist_size(), 0);
    assert_eq!(tdb.map_size(), grown);
}

#[test]
fn test_map_size_growth() {
    let mut tdb = Tdb::memory(None, Flags::empty()).unwrap();
    // header of 64 bytes plus a four-byte directory slot per bucket
    assert_eq!(tdb.map_size(), 64 + 4 * 131);
    tdb.store(b"foo", b"bar", None).unwrap();
    // one record: 24 bytes of metadata plus key and value bytes
    assert_eq!(tdb.map_size(), 64 + 4 * 131 + 24 + 3 + 3);
}

#[test]
fn test_volatile_tombstones() {
    let mut tdb = Tdb::memory(Some(1), Flags::volatile()).unwrap();
    tdb.store(b"a", b"1", None).unwrap();
    tdb.store(b"b", b"2", None).unwrap();
    tdb.store(b"c", b"3", None).unwrap();
    tdb.set_max_dead(1);
    // a tombstoned delete keeps its span until the chain is purged
    tdb.delete(b"a").unwrap();
    assert_eq!(tdb.fetch(b"a").unwrap(), None);
    assert!(!tdb.exists_key(b"a"));
    assert_eq!(tdb.freelist_size(), 0);
    // a second tombstone crosses the threshold: the chain is purged
    tdb.delete(b"b").unwrap();
    assert_eq!(tdb.freelist_size(), 2);
    tdb.delete(b"c").unwrap();
    assert_eq!(tdb.keys().len(), 0);
    assert_eq!(tdb.fetch(b"c").unwrap(), None);
}

#[test]
fn test_set_max_dead() {
    let mut tdb = Tdb::memory(None, Flags::empty()).unwrap();
    tdb.set_max_dead(2);
    tdb.store(b"a", b"1", None).unwrap();
    tdb.delete(b"a").unwrap();
    // one tombstone, under the threshold: nothing reclaimed yet
    assert_eq!(tdb.freelist_size(), 0);
    assert_eq!(tdb.fetch(b"a").unwrap(), None);
    tdb.store(b"a", b"2", None).unwrap();
    assert_eq!(tdb.fetch(b"a").unwrap().unwrap(), b"2");
}

#[test]
fn test_seqnum() {
    let mut tdb = Tdb::memory(None, Flags::seqnum()).unwrap();
    assert_eq!(tdb.get_seqnum(), 0);
    tdb.store(b"a", b"1", None).unwrap();
    assert_eq!(tdb.get_seqnum(), 1);
    tdb.delete(b"a").unwrap();
    assert_eq!(tdb.get_seqnum(), 2);
    tdb.transaction_start().unwrap();
    tdb.store(b"b", b"2", None).unwrap();
    assert_eq!(tdb.get_seqnum(), 2);
    tdb.transaction_commit().unwrap();
    assert_eq!(tdb.get_seqnum(), 3);
    tdb.increment_seqnum_nonblock();
    assert_eq!(tdb.get_seqnum(), 4);
}

#[test]
fn test_seqnum_disabled() {
    let mut tdb = Tdb::memory(None, Flags::empty()).unwrap();
    tdb.store(b"a", b"1", None).unwrap();
    tdb.increment_seqnum_nonblock();
    assert_eq!(tdb.get_seqnum(), 0);
    tdb.enable_seqnum();
    tdb.store(b"b", b"2", None).unwrap();
    assert_eq!(tdb.get_seqnum(), 1);
}

#[test]
fn test_flags_surface() {
    let mut f = Flags::default();
    assert_eq!(f.bits(), 0);
    f.insert(Flags::seqnum());
    f.insert(Flags::volatile());
    assert!(f.contains(Flags::seqnum()));
    f.remove(Flags::seqnum());
    assert!(!f.contains(Flags::seqnum()));
    assert_eq!(Flags::from_bits_truncate(0xFFFF_FFFF).bits() & 16, 0);

    let mut tdb = Tdb::memory(None, Flags::empty()).unwrap();
    tdb.add_flags(Flags::allow_nesting());
    assert!(tdb.get_flags().contains(Flags::allow_nesting()));
    tdb.add_flags(Flags::disallow_nesting());
    assert!(!tdb.get_flags().contains(Flags::allow_nesting()));
    assert!(tdb.get_flags().contains(Flags::disallow_nesting()));
    tdb.remove_flags(Flags::disallow_nesting());
    assert!(!tdb.get_flags().contains(Flags::disallow_nesting()));
}

#[test]
fn test_open_rejects_bad_flag_combinations() {
    let mut both = Flags::allow_nesting();
    both.insert(Flags::disallow_nesting());
    assert!(Tdb::open("x.tdb", None, both, O_RDWR | O_CREAT, 0o600).is_none());

    // robust-mutex locking demands clear-if-first
    assert!(Tdb::open("x.tdb", None, Flags::mutex_locking(), O_RDWR | O_CREAT, 0o600).is_none());
    let mut ok = Flags::mutex_locking();
    ok.insert(Flags::clear_if_first());
    assert!(Tdb::open("x.tdb", None, ok, O_RDWR | O_CREAT, 0o600).is_some());

    // write-only is not an accepted access mode
    assert!(Tdb::open("x.tdb", None, Flags::empty(), 1, 0o600).is_none());
}

#[test]
fn test_name_and_hash_size() {
    let tdb = Tdb::open("mine.tdb", Some(7), Flags::empty(), O_RDWR | O_CREAT, 0o600).unwrap();
    assert_eq!(tdb.name(), "mine.tdb");
    assert_eq!(tdb.hash_size(), 7);
    let mem = Tdb::memory(None, Flags::empty()).unwrap();
    assert_eq!(mem.name(), ":memory:");
    assert_eq!(mem.hash_size(), 131);
}

#[test]
fn test_reopen() {
    let mut tdb = Tdb::memory(None, Flags::empty()).unwrap();
    tdb.store(b"k", b"v", None).unwrap();
    tdb.reopen().unwrap();
    assert_eq!(tdb.fetch(b"k").unwrap().unwrap(), b"v");
    tdb.transaction_start().unwrap();
    assert_eq!(tdb.reopen(), Err(Error::Invalid));
}

#[test]
fn test_summary_text() {
    let tdb = Tdb::memory(None, Flags::empty()).unwrap();
    assert_eq!(
        tdb.summary(),
        "hash size 131\nmap size 588\nfreelist entries 0\nsequence number 0\n"
    );
}

#[test]
fn test_error_codes() {
    assert_eq!(Error::from(1u32), Error::Corrupt);
    assert_eq!(Error::from(2u32), Error::IO);
    assert_eq!(Error::from(3u32), Error::Lock);
    assert_eq!(Error::from(4u32), Error::OOM);
    assert_eq!(Error::from(5u32), Error::Exists);
    assert_eq!(Error::from(6u32), Error::NoLock);
    assert_eq!(Error::from(7u32), Error::LockTimeout);
    assert_eq!(Error::from(8u32), Error::NoExist);
    assert_eq!(Error::from(9u32), Error::Invalid);
    assert_eq!(Error::from(10u32), Error::ReadOnly);
    assert_eq!(Error::from(11u32), Error::Nesting);
    assert_eq!(Error::from(99u32), Error::Other(99));
    assert_eq!(Error::ReadOnly.message(), "Database is read-only");
}

#[test]
fn test_jenkins_hash() {
    // an empty key leaves the three running words at their seed
    assert_eq!(trivialdb::jenkins_hash(Vec::new()), 0xdeadbeef);
    let a = trivialdb::jenkins_hash(b"foo".to_vec());
    let b = trivialdb::jenkins_hash(b"foo".to_vec());
    assert_eq!(a, b);
    assert_ne!(trivialdb::jenkins_hash(b"foo".to_vec()), trivialdb::jenkins_hash(b"fop".to_vec()));
    // a key longer than one mixing block still digests deterministically
    let long = b"a long key that spans several twelve-byte blocks".to_vec();
    assert_eq!(trivialdb::jenkins_hash(long.clone()), trivialdb::jenkins_hash(long));
}

#[test]
fn test_incompatible_hash_variant() {
    let mut tdb = Tdb::memory(None, Flags::incompatible_hash()).unwrap();
    tdb.store(b"foo", b"bar", None).unwrap();
    tdb.store(b"blah", b"bloe", None).unwrap();
    assert_eq!(tdb.fetch(b"foo").unwrap().unwrap(), b"bar");
    assert_eq!(tdb.fetch(b"blah").unwrap().unwrap(), b"bloe");
    let mut keys = tdb.keys();
    keys.sort();
    assert_eq!(keys, vec![b"blah".to_vec(), b"foo".to_vec()]);
}

#[test]
fn test_same_bucket_chain() {
    // with a single bucket every key shares one chain
    let mut tdb = Tdb::memory(Some(1), Flags::empty()).unwrap();
    tdb.store(b"a", b"1", None).unwrap();
    tdb.store(b"b", b"2", None).unwrap();
    tdb.store(b"c", b"3", None).unwrap();
    tdb.delete(b"b").unwrap();
    assert_eq!(tdb.fetch(b"a").unwrap().unwrap(), b"1");
    assert_eq!(tdb.fetch(b"b").unwrap(), None);
    assert_eq!(tdb.fetch(b"c").unwrap().unwrap(), b"3");
    // fresh records are linked in at the chain's head
    assert_eq!(tdb.keys(), vec![b"c".to_vec(), b"a".to_vec()]);
    let first = tdb.first_key().unwrap();
    assert_eq!(first, b"c".to_vec());
    let second = tdb.next_key(first.as_slice()).unwrap();
    assert_eq!(second, b"a".to_vec());
    assert_eq!(tdb.next_key(second.as_slice()), None);
}

#[test]
fn test_replace_in_place_and_grow() {
    let mut tdb = Tdb::memory(None, Flags::empty()).unwrap();
    tdb.store(b"k", b"abcdef", None).unwrap();
    let sized = tdb.map_size();
    // a smaller value fits the record's span: no new space
    tdb.store(b"k", b"ab", None).unwrap();
    assert_eq!(tdb.map_size(), sized);
    assert_eq!(tdb.fetch(b"k").unwrap().unwrap(), b"ab");
    // a bigger value forces a fresh span and frees the old one
    tdb.store(b"k", b"abcdefghijklmnop", None).unwrap();
    assert_eq!(tdb.fetch(b"k").unwrap().unwrap(), b"abcdefghijklmnop");
    assert_eq!(tdb.freelist_size(), 1);
}

#[test]
fn test_in_memory_scenario() {
    let mut tdb = Tdb::memory(None, Flags::empty()).unwrap();
    tdb.store(b"foo", b"bar", None).unwrap();
    assert_eq!(tdb.fetch(b"foo").unwrap().unwrap(), b"bar");
    tdb.store(b"foo", b"baz", Some(StoreFlags::Modify)).unwrap();
    assert_eq!(tdb.fetch(b"foo").unwrap().unwrap(), b"baz");
    tdb.delete(b"foo").unwrap();
    assert_eq!(tdb.fetch(b"foo").unwrap(), None);
}

#[test]
fn test_delete_during_walk() {
    // deleting the just-returned key is safe: the walk re-locates by
    // re-hashing, and the deleted key is not re-visited
    let mut tdb = Tdb::memory(None, Flags::empty()).unwrap();
    tdb.store(b"a", b"1", None).unwrap();
    tdb.store(b"b", b"2", None).unwrap();
    tdb.store(b"c", b"3", None).unwrap();

    let mut walked: Vec<Vec<u8>> = Vec::new();
    let mut cur = tdb.first_key();
    while let Some(k) = cur {
        tdb.delete(k.as_slice()).unwrap();
        cur = tdb.next_key(k.as_slice());
        walked.push(k);
    }
    walked.sort();
    assert_eq!(walked, vec![b"a".to_vec(), b"b".to_vec(), b"c".to_vec()]);
    assert_eq!(tdb.keys().len(), 0);
}
