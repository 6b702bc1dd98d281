use indexedlog::entry::encode_entry_into;
use indexedlog::records::{LogMetadata, META_KIND_INDEX};
use indexedlog::{
    ChecksumType, Error, FlushFilter, FoldFunc, IndexDef, IndexFunc, IndexOutput, LogDir,
    OpenOptions,
};

fn options() -> OpenOptions {
    OpenOptions::new()
        .create(true)
        .index("first-byte", IndexFunc::Prefix(1))
        .fold_def("count", FoldFunc::Count)
        .fold_def("bytes", FoldFunc::TotalBytes)
}

fn bytes(items: &[&[u8]]) -> Vec<Vec<u8>> {
    items.iter().map(|x| x.to_vec()).collect()
}

/// Size of an entry of `len` bytes with the automatic checksum below 64 bytes.
fn short_entry_size(len: u64) -> u64 {
    13 + len
}

fn copy_dir(dir: &LogDir) -> LogDir {
    LogDir {
        meta: dir.meta.clone(),
        primary: dir.primary.clone(),
        index_files: dir.index_files.iter().map(|(n, b)| (n.clone(), b.clone())).collect(),
    }
}

#[test]
fn round_trip_after_sync_and_reopen() {
    let mut dir = LogDir::new();
    let mut log = options().open(&mut dir).unwrap();
    let items = bytes(&[b"alpha", b"b", b"beta", b"gamma-delta"]);
    for x in &items {
        log.append(x).unwrap();
    }
    log.sync(&mut dir).unwrap();
    drop(log);
    let reopened = options().open(&mut dir).unwrap();
    assert_eq!(reopened.iter(), items);
}

#[test]
fn round_trip_of_empty_entries() {
    let opts = || OpenOptions::new().create(true).fold_def("count", FoldFunc::Count);
    let mut dir = LogDir::new();
    let mut log = opts().open(&mut dir).unwrap();
    log.append(b"").unwrap();
    log.append(b"").unwrap();
    log.sync(&mut dir).unwrap();
    let reopened = opts().open(&mut dir).unwrap();
    assert_eq!(reopened.iter(), bytes(&[b"", b""]));
    assert_eq!(reopened.fold(0).unwrap(), 2);
}

#[test]
fn prefix_index_rejects_empty_entry() {
    let mut log = options().create_in_memory().unwrap();
    assert!(matches!(log.append(b""), Err(Error::RangeOutOfBounds { start: 0, end: 1, data_len: 0, .. })));
    assert!(log.iter().is_empty());
}

#[test]
fn round_trip_of_nothing() {
    let mut dir = LogDir::new();
    let mut log = options().open(&mut dir).unwrap();
    log.sync(&mut dir).unwrap();
    let reopened = options().open(&mut dir).unwrap();
    assert!(reopened.iter().is_empty());
    assert_eq!(reopened.primary_len(), 12);
}

#[test]
fn lookup_matches_brute_force_scan() {
    let mut log = options().create_in_memory().unwrap();
    let items = bytes(&[b"a1", b"b1", b"a2", b"c", b"a3"]);
    for x in &items {
        log.append(x).unwrap();
    }
    // Brute force: walk the entries, tracking offsets.
    let mut offset = 12u64;
    let mut expected_a = Vec::new();
    for x in &items {
        if x[0] == b'a' {
            expected_a.push(offset);
        }
        offset += short_entry_size(x.len() as u64);
    }
    assert_eq!(log.lookup(0, b"a").unwrap(), expected_a);
    assert_eq!(log.lookup(0, b"a").unwrap(), vec![12, 42, 71]);
    assert_eq!(log.lookup(0, b"b").unwrap(), vec![27]);
    assert!(log.lookup(0, b"z").unwrap().is_empty());
}

#[test]
fn lookup_after_reopen_uses_persisted_index() {
    let mut dir = LogDir::new();
    let opts = || {
        OpenOptions::new()
            .create(true)
            .index_defs(vec![IndexDef::new("k", IndexFunc::Whole).lag_threshold(0)])
    };
    let mut log = opts().open(&mut dir).unwrap();
    log.append(b"x").unwrap();
    log.append(b"y").unwrap();
    log.append(b"x").unwrap();
    log.sync(&mut dir).unwrap();
    assert!(dir.index_file(&"index2-k".to_string()).is_some());
    let reopened = opts().open(&mut dir).unwrap();
    assert_eq!(reopened.lookup(0, b"x").unwrap(), vec![12, 40]);
    assert_eq!(reopened.lookup(0, b"y").unwrap(), vec![26]);
}

#[test]
fn tagged_index_removals() {
    let opts = OpenOptions::new().index("tags", IndexFunc::Tagged);
    let mut log = opts.create_in_memory().unwrap();
    log.append(b"k1").unwrap(); // offset 12
    log.append(b"k2").unwrap(); // offset 27
    log.append(b"-k1").unwrap(); // offset 42
    assert!(log.lookup(0, b"k1").unwrap().is_empty());
    assert_eq!(log.lookup(0, b"k2").unwrap(), vec![27]);
    log.append(b"*k").unwrap(); // offset 58
    assert!(log.lookup(0, b"k2").unwrap().is_empty());
    log.append(b"k1").unwrap(); // offset 73
    assert_eq!(log.lookup(0, b"k1").unwrap(), vec![73]);
    log.append(b"").unwrap();
    assert_eq!(log.iter().len(), 6);
}

#[test]
fn zero_lag_index_is_flushed_on_sync() {
    let mut dir = LogDir::new();
    let opts = OpenOptions::new()
        .create(true)
        .index_defs(vec![IndexDef::new("p", IndexFunc::Prefix(1)).lag_threshold(0)]);
    let mut log = opts.open(&mut dir).unwrap();
    log.append(b"abc").unwrap();
    log.sync(&mut dir).unwrap();
    let meta = LogMetadata::decode(dir.meta.as_ref().unwrap()).unwrap();
    let j = meta.find(META_KIND_INDEX, b"2-p").unwrap();
    assert_eq!(meta.items[j].progress, meta.primary_len);
    assert_eq!(meta.primary_len, 12 + 16);
}

#[test]
fn lagging_index_is_caught_up_once_the_bound_is_exceeded() {
    let mut dir = LogDir::new();
    let opts = || {
        OpenOptions::new()
            .create(true)
            .index_defs(vec![IndexDef::new("p", IndexFunc::Prefix(1)).lag_threshold(100)])
    };
    let mut log = opts().open(&mut dir).unwrap();
    log.append(b"a").unwrap();
    log.sync(&mut dir).unwrap();
    // 14 bytes behind: within the bound, nothing written for the index.
    let meta = LogMetadata::decode(dir.meta.as_ref().unwrap()).unwrap();
    assert!(meta.find(META_KIND_INDEX, b"2-p").is_none());
    assert!(dir.index_file(&"index2-p".to_string()).is_none());
    for _ in 0..20 {
        log.append(b"b").unwrap();
    }
    log.sync(&mut dir).unwrap();
    let meta = LogMetadata::decode(dir.meta.as_ref().unwrap()).unwrap();
    let j = meta.find(META_KIND_INDEX, b"2-p").unwrap();
    assert_eq!(meta.primary_len, 12 + 21 * 14);
    assert_eq!(meta.items[j].progress, meta.primary_len);
    assert!(dir.index_file(&"index2-p".to_string()).is_some());
    let reopened = opts().open(&mut dir).unwrap();
    assert_eq!(reopened.lookup(0, b"b").unwrap().len(), 20);
    assert_eq!(reopened.lookup(0, b"a").unwrap(), vec![12]);
}

#[test]
fn truncated_tail_after_crash_is_ignored() {
    let mut dir = LogDir::new();
    let mut log = options().open(&mut dir).unwrap();
    log.append(b"first").unwrap();
    log.sync(&mut dir).unwrap();
    let first_meta = dir.meta.clone();
    let first_len = log.primary_len() as usize;
    log.append(b"second").unwrap();
    log.sync(&mut dir).unwrap();
    let second_len = log.primary_len() as usize;
    for cut in [first_len, first_len + 3, second_len] {
        let mut crashed = copy_dir(&dir);
        crashed.meta = first_meta.clone();
        crashed.primary.truncate(cut);
        let reopened = options().open(&mut crashed).unwrap();
        assert_eq!(reopened.iter(), bytes(&[b"first"]));
        assert_eq!(reopened.fold(0).unwrap(), 1);
    }
}

#[test]
fn flipped_payload_byte_is_corruption() {
    let mut dir = LogDir::new();
    let mut log = options().open(&mut dir).unwrap();
    log.append(b"hello").unwrap();
    log.sync(&mut dir).unwrap();
    let mut damaged = copy_dir(&dir);
    // Payload of the first entry starts after the header, flag, length and
    // 4-byte checksum.
    damaged.primary[12 + 9 + 4 + 1] ^= 0x20;
    let r = options().open(&mut damaged);
    assert!(matches!(r, Err(Error::Corruption)));
    // The undamaged copy still opens.
    assert!(options().open(&mut dir).is_ok());
}

#[test]
fn flipped_checksum_byte_is_corruption() {
    let mut dir = LogDir::new();
    let mut log = options().open(&mut dir).unwrap();
    log.append(b"hello").unwrap();
    log.sync(&mut dir).unwrap();
    dir.primary[12 + 9] ^= 1;
    assert!(matches!(options().open(&mut dir), Err(Error::Corruption)));
}

#[test]
fn drop_filter_omits_sentinel_entries() {
    let mut dir = LogDir::new();
    let opts = || {
        OpenOptions::new()
            .create(true)
            .index("whole", IndexFunc::Whole)
            .fold_def("count", FoldFunc::Count)
            .flush_filter(Some(FlushFilter::DropEqual(b"drop".to_vec())))
    };
    let mut log = opts().open(&mut dir).unwrap();
    log.append(b"a").unwrap();
    log.append(b"drop").unwrap();
    log.append(b"b").unwrap();
    assert_eq!(log.fold(0).unwrap(), 3);
    log.sync(&mut dir).unwrap();
    assert_eq!(log.iter(), bytes(&[b"a", b"b"]));
    assert!(log.lookup(0, b"drop").unwrap().is_empty());
    assert_eq!(log.fold(0).unwrap(), 2);
    let reopened = opts().open(&mut dir).unwrap();
    assert_eq!(reopened.iter(), bytes(&[b"a", b"b"]));
    assert_eq!(reopened.fold(0).unwrap(), 2);
}

#[test]
fn replace_filter_rewrites_content() {
    let mut dir = LogDir::new();
    let opts = || {
        OpenOptions::new()
            .create(true)
            .index("whole", IndexFunc::Whole)
            .fold_def("bytes", FoldFunc::TotalBytes)
            .flush_filter(Some(FlushFilter::ReplaceEqual(b"old".to_vec(), b"brand-new".to_vec())))
    };
    let mut log = opts().open(&mut dir).unwrap();
    log.append(b"old").unwrap();
    log.append(b"keep").unwrap();
    log.sync(&mut dir).unwrap();
    assert_eq!(log.iter(), bytes(&[b"brand-new", b"keep"]));
    assert_eq!(log.lookup(0, b"brand-new").unwrap(), vec![12]);
    assert!(log.lookup(0, b"old").unwrap().is_empty());
    assert_eq!(log.fold(0).unwrap(), 13);
    let reopened = opts().open(&mut dir).unwrap();
    assert_eq!(reopened.iter(), bytes(&[b"brand-new", b"keep"]));
}

#[test]
fn in_memory_logs_are_isolated() {
    let opts = options();
    let mut a = opts.create_in_memory().unwrap();
    let mut b = opts.create_in_memory().unwrap();
    a.append(b"only-a").unwrap();
    b.append(b"only-b").unwrap();
    assert_eq!(a.iter(), bytes(&[b"only-a"]));
    assert_eq!(b.iter(), bytes(&[b"only-b"]));
    assert!(b.lookup(0, b"o").unwrap().len() == 1);
}

#[test]
fn in_memory_log_rejects_sync() {
    let mut log = options().create_in_memory().unwrap();
    log.append(b"x").unwrap();
    let mut dir = LogDir::new();
    assert!(matches!(log.sync(&mut dir), Err(Error::InMemorySync)));
    assert_eq!(log.iter(), bytes(&[b"x"]));
    assert!(dir.meta.is_none());
}

#[test]
fn open_missing_without_create_is_not_found() {
    let mut dir = LogDir::new();
    let r = OpenOptions::new().open(&mut dir);
    assert!(matches!(r, Err(Error::NotFound)));
    assert!(dir.meta.is_none());
}

#[test]
fn damaged_metadata_is_corruption() {
    let mut dir = LogDir::new();
    options().open(&mut dir).unwrap();
    let meta = dir.meta.as_mut().unwrap();
    let last = meta.len() - 1;
    meta[last] ^= 0xff;
    assert!(matches!(options().open(&mut dir), Err(Error::Corruption)));
}

#[test]
fn reference_out_of_range_is_programming_error() {
    let opts = OpenOptions::new().index("five", IndexFunc::Prefix(5));
    let mut log = opts.create_in_memory().unwrap();
    let r = log.append(b"ab");
    match r {
        Err(Error::RangeOutOfBounds { start, end, data_len, data }) => {
            assert_eq!((start, end, data_len), (0, 5, 2));
            assert_eq!(data, Some(b"ab".to_vec()));
        }
        _ => panic!("expected a range error"),
    }
    assert!(log.iter().is_empty());
    assert!(r_is_programming(b"ab"));
}

fn r_is_programming(data: &[u8]) -> bool {
    let opts = OpenOptions::new().index("five", IndexFunc::Prefix(5));
    let mut log = opts.create_in_memory().unwrap();
    log.append(data).unwrap_err().is_programming()
}

#[test]
fn long_entry_out_of_range_is_not_echoed() {
    let opts = OpenOptions::new().index("p", IndexFunc::Prefix(200));
    let mut log = opts.create_in_memory().unwrap();
    let data = vec![7u8; 150];
    match log.append(&data) {
        Err(Error::RangeOutOfBounds { data_len, data, .. }) => {
            assert_eq!(data_len, 150);
            assert!(data.is_none());
        }
        _ => panic!("expected a range error"),
    }
}

#[test]
fn into_cow_keys() {
    let data = b"hello world";
    assert_eq!(IndexOutput::Reference(6..11).into_cow(data).unwrap(), b"world".to_vec());
    assert_eq!(IndexOutput::Owned(b"k".to_vec()).into_cow(data).unwrap(), b"k".to_vec());
    assert!(matches!(
        IndexOutput::Remove(b"k".to_vec()).into_cow(data),
        Err(Error::RemovalUsedAsKey)
    ));
    assert!(matches!(
        IndexOutput::RemovePrefix(b"k".to_vec()).into_cow(data),
        Err(Error::RemovalUsedAsKey)
    ));
    assert!(matches!(
        IndexOutput::Reference(3..2).into_cow(data),
        Err(Error::RangeOutOfBounds { start: 3, end: 2, data_len: 11, .. })
    ));
}

#[test]
fn unknown_index_and_fold_ids() {
    let log = options().create_in_memory().unwrap();
    assert!(matches!(log.lookup(1, b"a"), Err(Error::UnknownId)));
    assert!(matches!(log.fold(2), Err(Error::UnknownId)));
}

#[test]
fn folds_count_entries_and_bytes() {
    let mut dir = LogDir::new();
    let mut log = options().open(&mut dir).unwrap();
    log.append(b"abc").unwrap();
    log.append(b"de").unwrap();
    assert_eq!(log.fold(0).unwrap(), 2);
    assert_eq!(log.fold(1).unwrap(), 5);
    log.sync(&mut dir).unwrap();
    log.append(b"f").unwrap();
    assert_eq!(log.fold(0).unwrap(), 3);
    assert_eq!(log.fold(1).unwrap(), 6);
    let reopened = options().open(&mut dir).unwrap();
    assert_eq!(reopened.fold(0).unwrap(), 2);
    assert_eq!(reopened.fold(1).unwrap(), 5);
}

#[test]
fn auto_sync_threshold() {
    let mut never = options().create_in_memory().unwrap();
    never.append(b"0123456789").unwrap();
    assert!(!never.needs_auto_sync());
    let mut always = options().auto_sync_threshold(Some(0)).create_in_memory().unwrap();
    assert!(!always.needs_auto_sync());
    always.append(b"x").unwrap();
    assert!(always.needs_auto_sync());
    let mut some = options().auto_sync_threshold(Some(20)).create_in_memory().unwrap();
    some.append(b"x").unwrap(); // 14 bytes buffered
    assert!(!some.needs_auto_sync());
    some.append(b"y").unwrap(); // 28 bytes buffered
    assert!(some.needs_auto_sync());
}

#[test]
fn xxhash64_checksum_of_empty_entry() {
    let mut out = Vec::new();
    let flag = encode_entry_into(&mut out, ChecksumType::Xxhash64, b"");
    assert_eq!(flag, 1);
    let mut expected = vec![1u8, 0, 0, 0, 0, 0, 0, 0, 0];
    expected.extend_from_slice(&0xef46_db37_51d8_e999u64.to_le_bytes());
    assert_eq!(out, expected);
}

#[test]
fn xxhash32_checksum_of_empty_entry() {
    let mut out = Vec::new();
    let flag = encode_entry_into(&mut out, ChecksumType::Xxhash32, b"");
    assert_eq!(flag, 2);
    let mut expected = vec![2u8, 0, 0, 0, 0, 0, 0, 0, 0];
    expected.extend_from_slice(&0x02cc_5d05u32.to_le_bytes());
    assert_eq!(out, expected);
}

#[test]
fn auto_checksum_depends_on_length() {
    let mut short = Vec::new();
    assert_eq!(encode_entry_into(&mut short, ChecksumType::Auto, &[1u8; 63]), 2);
    assert_eq!(short.len(), 13 + 63);
    let mut long = Vec::new();
    assert_eq!(encode_entry_into(&mut long, ChecksumType::Auto, &[1u8; 64]), 1);
    assert_eq!(long.len(), 17 + 64);
}

#[test]
fn checksum_type_is_kept_per_entry() {
    let mut dir = LogDir::new();
    let mut log = options().checksum_type(ChecksumType::Xxhash64).open(&mut dir).unwrap();
    log.append(b"wide").unwrap();
    log.sync(&mut dir).unwrap();
    assert_eq!(dir.primary[12], 1);
    let mut log = options().checksum_type(ChecksumType::Xxhash32).open(&mut dir).unwrap();
    log.append(b"narrow").unwrap();
    log.sync(&mut dir).unwrap();
    assert_eq!(dir.primary[12 + 17 + 4], 2);
    let reopened = options().open(&mut dir).unwrap();
    assert_eq!(reopened.iter(), bytes(&[b"wide", b"narrow"]));
}

#[test]
fn index_definition_names() {
    let def = IndexDef::new("foo", IndexFunc::Whole);
    assert_eq!(def.metaname(), "2-foo");
    assert_eq!(def.filename(), "index2-foo");
    assert_eq!(def.get_lag_threshold(), 12500);
    assert_eq!(def.name(), "foo");
    let def = def.lag_threshold(7);
    assert_eq!(def.get_lag_threshold(), 7);
    assert_eq!(def.func(), IndexFunc::Whole);
}

#[test]
fn zero_index_lag_option() {
    let opts = OpenOptions::new()
        .index("a", IndexFunc::Whole)
        .index_defs(vec![
            IndexDef::new("x", IndexFunc::Whole).lag_threshold(9),
            IndexDef::new("y", IndexFunc::Prefix(2)),
        ])
        .with_zero_index_lag();
    assert_eq!(opts.index_def_count(), 2);
    assert_eq!(opts.index_def(0).get_lag_threshold(), 0);
    assert_eq!(opts.index_def(1).get_lag_threshold(), 0);
    assert_eq!(opts.index_def(1).name(), "y");
}

#[test]
fn builder_setters() {
    let opts = OpenOptions::new();
    assert!(!opts.get_create());
    assert!(!opts.get_fsync());
    assert_eq!(opts.get_checksum_type(), ChecksumType::Auto);
    assert_eq!(opts.get_auto_sync_threshold(), None);
    assert!(opts.get_flush_filter().is_none());
    let opts = opts
        .create(true)
        .fsync(true)
        .checksum_type(ChecksumType::Xxhash32)
        .auto_sync_threshold(Some(5))
        .btrfs_compression(true)
        .fold_def("n", FoldFunc::Count);
    assert!(opts.get_create());
    assert!(opts.get_fsync());
    assert_eq!(opts.get_checksum_type(), ChecksumType::Xxhash32);
    assert_eq!(opts.get_auto_sync_threshold(), Some(5));
    assert_eq!(opts.fold_def_count(), 1);
    assert_eq!(opts.get_fold_def(0).name(), "n");
}

#[test]
fn concurrent_writer_entries_come_first() {
    let mut dir = LogDir::new();
    let mut a = options().open(&mut dir).unwrap();
    let mut b = options().open(&mut dir).unwrap();
    a.append(b"from-a").unwrap();
    b.append(b"from-b").unwrap();
    a.sync(&mut dir).unwrap();
    assert!(b.changed_on_disk(&dir));
    assert!(!a.changed_on_disk(&dir));
    b.sync(&mut dir).unwrap();
    assert_eq!(b.iter(), bytes(&[b"from-a", b"from-b"]));
    assert_eq!(b.lookup(0, b"f").unwrap(), vec![12, 31]);
    let reopened = options().open(&mut dir).unwrap();
    assert_eq!(reopened.iter(), bytes(&[b"from-a", b"from-b"]));
    assert_eq!(reopened.fold(0).unwrap(), 2);
}

#[test]
fn metadata_round_trip() {
    let meta = LogMetadata::new_with_primary_len(40);
    let bytes = meta.encode();
    let back = LogMetadata::decode(&bytes).unwrap();
    assert_eq!(back.primary_len, 40);
    assert_eq!(back.epoch, 0);
    assert!(back.items.is_empty());
    assert!(LogMetadata::decode(&bytes[..bytes.len() - 1]).is_err());
}

#[test]
fn crash_tail_past_committed_length_is_dropped_on_sync() {
    let mut dir = LogDir::new();
    let mut log = options().open(&mut dir).unwrap();
    log.append(b"one").unwrap();
    log.sync(&mut dir).unwrap();
    dir.primary.extend_from_slice(b"garbage left by a crash");
    log.append(b"two").unwrap();
    log.sync(&mut dir).unwrap();
    let reopened = options().open(&mut dir).unwrap();
    assert_eq!(reopened.iter(), bytes(&[b"one", b"two"]));
    assert_eq!(dir.primary.len() as u64, reopened.primary_len());
}

fn zero_lag_options() -> OpenOptions {
    OpenOptions::new()
        .create(true)
        .index_defs(vec![IndexDef::new("p", IndexFunc::Prefix(1)).lag_threshold(0)])
}

#[test]
fn missing_index_file_is_corruption() {
    let mut dir = LogDir::new();
    let mut log = zero_lag_options().open(&mut dir).unwrap();
    log.append(b"abc").unwrap();
    log.sync(&mut dir).unwrap();
    dir.index_files.clear();
    assert!(matches!(zero_lag_options().open(&mut dir), Err(Error::Corruption)));
}

#[test]
fn damaged_index_file_is_corruption() {
    let mut dir = LogDir::new();
    let mut log = zero_lag_options().open(&mut dir).unwrap();
    log.append(b"abc").unwrap();
    log.sync(&mut dir).unwrap();
    let file = &mut dir.index_files.last_mut().unwrap().1;
    let last = file.len() - 1;
    file[last] ^= 0x01;
    assert!(matches!(zero_lag_options().open(&mut dir), Err(Error::Corruption)));
}

#[test]
fn sync_without_metadata_is_not_found() {
    let mut dir = LogDir::new();
    let mut log = options().open(&mut dir).unwrap();
    log.append(b"x").unwrap();
    let mut empty = LogDir::new();
    assert!(matches!(log.sync(&mut empty), Err(Error::NotFound)));
    assert!(log.changed_on_disk(&empty));
    assert_eq!(log.iter(), bytes(&[b"x"]));
}

#[test]
fn committed_entry_rejected_by_new_index_is_programming_error() {
    let mut dir = LogDir::new();
    let plain = || OpenOptions::new().create(true);
    let mut log = plain().open(&mut dir).unwrap();
    log.append(b"").unwrap();
    log.sync(&mut dir).unwrap();
    let r = options().open(&mut dir);
    assert!(matches!(r, Err(Error::RangeOutOfBounds { start: 0, end: 1, data_len: 0, .. })));
}

#[test]
fn failed_sync_leaves_directory_untouched() {
    let mut dir = LogDir::new();
    let opts = || {
        OpenOptions::new()
            .create(true)
            .index("three", IndexFunc::Prefix(3))
            .flush_filter(Some(FlushFilter::ReplaceEqual(b"long".to_vec(), b"x".to_vec())))
    };
    let mut log = opts().open(&mut dir).unwrap();
    log.append(b"abc").unwrap();
    log.sync(&mut dir).unwrap();
    let before = copy_dir(&dir);
    log.append(b"long").unwrap();
    let r = log.sync(&mut dir);
    assert!(matches!(r, Err(Error::RangeOutOfBounds { start: 0, end: 3, data_len: 1, .. })));
    assert_eq!(dir.meta, before.meta);
    assert_eq!(dir.primary, before.primary);
    assert_eq!(dir.index_files, before.index_files);
    assert_eq!(log.iter(), bytes(&[b"abc", b"long"]));
}

#[test]
fn open_writes_nothing_when_no_index_lags() {
    let mut dir = LogDir::new();
    let mut log = options().open(&mut dir).unwrap();
    log.append(b"abc").unwrap();
    log.append(b"def").unwrap();
    log.sync(&mut dir).unwrap();
    let before = copy_dir(&dir);
    let reopened = options().open(&mut dir).unwrap();
    assert_eq!(reopened.fold(0).unwrap(), 2);
    assert_eq!(dir.meta, before.meta);
    assert_eq!(dir.primary, before.primary);
    assert_eq!(dir.index_files, before.index_files);
}

#[test]
fn failed_open_without_create_leaves_directory_untouched() {
    let mut dir = LogDir::new();
    dir.primary = b"stray bytes".to_vec();
    assert!(matches!(OpenOptions::new().open(&mut dir), Err(Error::NotFound)));
    assert!(dir.meta.is_none());
    assert_eq!(dir.primary, b"stray bytes".to_vec());
    assert!(dir.index_files.is_empty());
}

#[test]
fn created_log_starts_after_the_header() {
    let mut dir = LogDir::new();
    let log = options().open(&mut dir).unwrap();
    assert_eq!(log.primary_len(), 12);
    assert_eq!(log.next_offset(), 12);
    let mem = options().create_in_memory().unwrap();
    assert_eq!(mem.primary_len(), 12);
    assert_eq!(mem.fold(0).unwrap(), 0);
    assert_eq!(mem.fold(1).unwrap(), 0);
}
