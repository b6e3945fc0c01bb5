use sstable::avl::AVLTree;
use sstable::directory::{
    compacted_name, compaction_target, contains_id, is_newer, small_segments, COMPACTION_SIZE_LIMIT, parse_decimal, parse_stem, plan_compaction, sort_newest_first,
    stem_name,
    SegmentId,
};
use sstable::error::StoreError;
use sstable::handlers::{self, DeleteRequest, GetRequest, SetRequest};
use sstable::idx::{IDXIter, IDXValue, IDX};
use sstable::segment::Segment;
use sstable::keys::{compare_bytes, is_valid_key};
use sstable::sst::SST;
use std::cmp::Ordering;

fn flush(tree: &AVLTree) -> Segment {
    let (index, data) = IDX::fill_from_avl(tree).unwrap();
    Segment { index, data }
}

fn segment_of(pairs: &[(&str, &str)]) -> Segment {
    let mut tree = AVLTree::new();
    for (k, v) in pairs {
        tree.set(k, v);
    }
    flush(&tree)
}

fn value_of(segments: &Vec<Segment>, key: &str) -> Result<Vec<u8>, StoreError> {
    IDX::search_key_in_all_files(segments, key).map(|v| v.value)
}

#[test]
fn flush_round_trip_hundred_keys() {
    let mut tree = AVLTree::new();
    let keys: Vec<String> = (0..100).map(|i| format!("key{}x{}", i, i % 7)).collect();
    for (i, k) in keys.iter().enumerate() {
        tree.set(k, &format!("value{}", i));
    }
    let seg = flush(&tree);
    tree.clear();
    assert!(tree.get(&keys[0]).is_none());
    for (i, k) in keys.iter().enumerate() {
        let found = IDX::get_value(&seg.index, &seg.data, k).unwrap();
        assert_eq!(found.key, k.as_bytes().to_vec());
        assert_eq!(found.value, format!("value{}", i).into_bytes());
    }
    assert_eq!(
        IDX::get_value(&seg.index, &seg.data, "zzzzz").unwrap_err(),
        StoreError::NotFound
    );
}

#[test]
fn flushed_index_is_ascending_and_consistent() {
    let seg = segment_of(&[("b", "2"), ("a", "1"), ("c", "33")]);
    let entries = IDX::iter(&seg.index, &seg.data).unwrap();
    let keys: Vec<Vec<u8>> = entries.iter().map(|e| e.key.clone()).collect();
    assert_eq!(keys, vec![b"a".to_vec(), b"b".to_vec(), b"c".to_vec()]);
    assert_eq!(entries[2].value, b"33".to_vec());
    assert!(IDX::is_ascending(&entries));
    // index: 1 + 1 + 8 bytes per record; data: 1 + 1 + 4 + value bytes
    assert_eq!(seg.index.len(), 30);
    assert_eq!(seg.data.len(), 7 + 7 + 8);
    assert_eq!(seg.index[0], 1);
    assert_eq!(seg.index[1], b'a');
    assert_eq!(&seg.index[12..20], &7u64.to_le_bytes());
}

#[test]
fn newest_wins_across_segments() {
    let mut tree = AVLTree::new();
    tree.set("k", "old");
    let first = flush(&tree);
    tree.clear();
    tree.set("k", "new");
    let second = flush(&tree);
    tree.clear();
    let segments = vec![second, first];
    assert_eq!(value_of(&segments, "k").unwrap(), b"new".to_vec());
}

#[test]
fn compaction_merges_newer_over_older() {
    let older = segment_of(&[("a", "1"), ("b", "1")]);
    let newer = segment_of(&[("b", "2"), ("c", "2")]);
    let merged = IDX::compaction(&older, &newer).unwrap();
    let entries = IDX::iter(&merged.index, &merged.data).unwrap();
    let pairs: Vec<(Vec<u8>, Vec<u8>)> =
        entries.into_iter().map(|e| (e.key, e.value)).collect();
    assert_eq!(
        pairs,
        vec![
            (b"a".to_vec(), b"1".to_vec()),
            (b"b".to_vec(), b"2".to_vec()),
            (b"c".to_vec(), b"2".to_vec()),
        ]
    );
    let segments = vec![merged];
    assert_eq!(value_of(&segments, "a").unwrap(), b"1".to_vec());
    assert_eq!(value_of(&segments, "b").unwrap(), b"2".to_vec());
    assert_eq!(value_of(&segments, "c").unwrap(), b"2".to_vec());
}

#[test]
fn compaction_preserves_store_lookups() {
    let newest = segment_of(&[("d", "9")]);
    let newer = segment_of(&[("b", "2"), ("c", "2")]);
    let older = segment_of(&[("a", "1"), ("b", "1"), ("d", "1")]);
    let merged = IDX::compaction(&older, &newer).unwrap();
    let before = vec![segment_of(&[("d", "9")]), newer, older];
    let after = vec![newest, merged];
    for key in ["a", "b", "c", "d", "e"] {
        assert_eq!(value_of(&before, key), value_of(&after, key));
    }
    assert!(after.len() < before.len());
}

#[test]
fn merge_entries_newer_wins() {
    let e = |k: &str, v: &str| IDXValue { key: k.as_bytes().to_vec(), value: v.as_bytes().to_vec() };
    let older = vec![e("a", "1"), e("c", "1")];
    let newer = vec![e("b", "2"), e("c", "2"), e("d", "2")];
    let merged = IDX::merge_entries(&older, &newer);
    let pairs: Vec<(Vec<u8>, Vec<u8>)> = merged.into_iter().map(|x| (x.key, x.value)).collect();
    assert_eq!(
        pairs,
        vec![
            (b"a".to_vec(), b"1".to_vec()),
            (b"b".to_vec(), b"2".to_vec()),
            (b"c".to_vec(), b"2".to_vec()),
            (b"d".to_vec(), b"2".to_vec()),
        ]
    );
}

#[test]
fn compaction_rejects_unordered_index() {
    let mut index = Vec::new();
    let mut data = Vec::new();
    IDX::set_key(&mut index, &mut data, "b", "1").unwrap();
    IDX::set_key(&mut index, &mut data, "a", "1").unwrap();
    let bad = Segment { index, data };
    let good = segment_of(&[("c", "1")]);
    assert_eq!(IDX::compaction(&bad, &good).unwrap_err(), StoreError::Corruption);
}

#[test]
fn find_offset_on_handmade_index() {
    let mut index = Vec::new();
    let mut data = Vec::new();
    let first = IDX::set_key(&mut index, &mut data, "apple", "red").unwrap();
    let second = IDX::set_key(&mut index, &mut data, "kiwi", "green").unwrap();
    let third = IDX::set_key(&mut index, &mut data, "plum", "purple").unwrap();
    assert_eq!(first.offset, 0);
    assert_eq!(second.offset, 1 + 5 + 4 + 3);
    assert_eq!(second.key_len, 4);
    assert_eq!(IDX::find_offset(&index, b"apple"), Ok(Some(0)));
    assert_eq!(IDX::find_offset(&index, b"kiwi"), Ok(Some(second.offset)));
    assert_eq!(IDX::find_offset(&index, b"plum"), Ok(Some(third.offset)));
    assert_eq!(IDX::find_offset(&index, b"banana"), Ok(None));
    assert_eq!(IDX::find_offset(&index, b"zzz"), Ok(None));
    assert_eq!(IDX::find_offset(&[], b"a"), Ok(None));
}

#[test]
fn set_key_rejects_invalid_keys() {
    let mut index = Vec::new();
    let mut data = Vec::new();
    assert_eq!(IDX::set_key(&mut index, &mut data, "", "v").unwrap_err(), StoreError::InvalidKey);
    assert_eq!(
        IDX::set_key(&mut index, &mut data, "abcdefghijk", "v").unwrap_err(),
        StoreError::InvalidKey
    );
    assert_eq!(IDX::set_key(&mut index, &mut data, "a-b", "v").unwrap_err(), StoreError::InvalidKey);
    assert!(index.is_empty() && data.is_empty());
    assert!(IDX::set_key(&mut index, &mut data, "abcdefghij", "v").is_ok());
}

#[test]
fn flush_with_invalid_key_fails() {
    let mut tree = AVLTree::new();
    tree.set("good", "1");
    tree.set("bad key", "2");
    assert_eq!(IDX::fill_from_avl(&tree).unwrap_err(), StoreError::InvalidKey);
}

#[test]
fn flush_of_empty_tree_is_empty() {
    let tree = AVLTree::new();
    let (index, data) = IDX::fill_from_avl(&tree).unwrap();
    assert!(index.is_empty() && data.is_empty());
}

#[test]
fn data_record_read_errors() {
    let mut data = Vec::new();
    let off = SST::set(&mut data, b"key", b"value");
    assert_eq!(off, 0);
    assert_eq!(data.len(), 1 + 3 + 4 + 5);
    assert_eq!(SST::get(&data, b"key", 0), Ok(b"value".to_vec()));
    assert_eq!(SST::get(&data, b"other", 0), Err(StoreError::Corruption));
    assert_eq!(SST::get(&data, b"key", 100), Err(StoreError::Io));
    assert_eq!(SST::get(&data[..10], b"key", 0), Err(StoreError::Io));
    let off2 = SST::set(&mut data, b"k2", b"");
    assert_eq!(off2, 13);
    assert_eq!(SST::get(&data, b"k2", 13), Ok(Vec::new()));
}

#[test]
fn corrupted_record_reads_as_not_found() {
    let mut seg = segment_of(&[("abc", "1")]);
    // point the only index record at a record that holds another key
    seg.data[2] = b'x';
    assert_eq!(IDX::get_value(&seg.index, &seg.data, "abc").unwrap_err(), StoreError::NotFound);
}

#[test]
fn key_rule() {
    assert!(is_valid_key("abc123"));
    assert!(is_valid_key("Z"));
    assert!(is_valid_key("abcdefghij"));
    assert!(!is_valid_key(""));
    assert!(!is_valid_key("abcdefghijk"));
    assert!(!is_valid_key("a_b"));
    assert!(!is_valid_key("é"));
}

#[test]
fn byte_order() {
    assert_eq!(compare_bytes(b"a", b"b"), Ordering::Less);
    assert_eq!(compare_bytes(b"ab", b"a"), Ordering::Greater);
    assert_eq!(compare_bytes(b"", b""), Ordering::Equal);
    assert_eq!(compare_bytes(b"Z", b"a"), Ordering::Less);
    assert_eq!(compare_bytes(b"abc", b"abc"), Ordering::Equal);
}

#[test]
fn stems_parse() {
    assert_eq!(parse_stem("1700000000"), Some(SegmentId { time: 1700000000, generation: 0 }));
    assert_eq!(parse_stem("1700000000_3"), Some(SegmentId { time: 1700000000, generation: 3 }));
    assert_eq!(parse_stem(""), None);
    assert_eq!(parse_stem("abc"), None);
    assert_eq!(parse_stem("12_"), None);
    assert_eq!(parse_stem("_4"), None);
    assert_eq!(parse_stem("1_2_3"), None);
    assert_eq!(parse_stem("18446744073709551616"), None);
    assert_eq!(parse_decimal(b"18446744073709551615"), Some(u64::MAX));
    assert_eq!(parse_decimal(b"007"), Some(7));
}

#[test]
fn newest_first_order() {
    let id = |t, g| SegmentId { time: t, generation: g };
    assert!(is_newer(&id(5, 0), &id(4, 9)));
    assert!(is_newer(&id(5, 2), &id(5, 1)));
    assert!(!is_newer(&id(5, 1), &id(5, 1)));
    let sorted = sort_newest_first(&vec![id(3, 0), id(7, 0), id(3, 2), id(5, 1)]);
    assert_eq!(sorted, vec![id(7, 0), id(5, 1), id(3, 2), id(3, 0)]);
}

#[test]
fn compaction_names_and_plan() {
    let id = |t, g| SegmentId { time: t, generation: g };
    assert_eq!(compacted_name(&id(10, 0)), Some(id(10, 1)));
    assert_eq!(compacted_name(&id(10, 4)), Some(id(10, 5)));
    assert_eq!(compacted_name(&id(10, u64::MAX)), None);
    let small = vec![id(50, 0), id(40, 0), id(30, 0), id(20, 0), id(10, 0)];
    let plan = plan_compaction(&small);
    assert_eq!(plan, vec![(id(10, 0), id(20, 0)), (id(30, 0), id(40, 0))]);
    assert!(plan_compaction(&small[..2].to_vec()).is_empty());
    assert_eq!(plan_compaction(&small[..3].to_vec()).len(), 1);
    // each merge consumes two segments and produces one
    let remaining = small.len() - 2 * plan.len() + plan.len();
    assert!(remaining < small.len());
}

#[test]
fn request_surface() {
    let mut tree = AVLTree::new();
    let segments: Vec<Segment> = vec![segment_of(&[("old", "disk")])];
    let set = handlers::set(&SetRequest { key: "k1".to_string(), value: "v1".to_string() }, &mut tree)
        .unwrap();
    assert_eq!(set.value, Some(b"v1".to_vec()));
    assert!(set.error.is_none());
    let got = handlers::get(&GetRequest { key: "k1".to_string() }, &tree, &segments).unwrap();
    assert_eq!(got.value, Some(b"v1".to_vec()));
    let disk = handlers::get(&GetRequest { key: "old".to_string() }, &tree, &segments).unwrap();
    assert_eq!(disk.value, Some(b"disk".to_vec()));
    let missing = handlers::get(&GetRequest { key: "none".to_string() }, &tree, &segments).unwrap();
    assert!(missing.value.is_none());
    assert_eq!(missing.error, Some("Key not found".to_string()));
    assert_eq!(
        handlers::set(&SetRequest { key: "bad key".to_string(), value: "v".to_string() }, &mut tree)
            .err(),
        Some(StoreError::InvalidKey)
    );
    assert_eq!(
        handlers::get(&GetRequest { key: "".to_string() }, &tree, &segments).err(),
        Some(StoreError::InvalidKey)
    );
    let del = handlers::delete(&DeleteRequest { key: "k1".to_string() }, &mut tree).unwrap();
    assert!(del.value.is_none() && del.error.is_none());
    assert!(tree.get("k1").is_none());
    assert_eq!(
        handlers::delete(&DeleteRequest { key: "toolongkey11".to_string() }, &mut tree).err(),
        Some(StoreError::InvalidKey)
    );
}

#[test]
fn segment_file_names() {
    let seg = IDX::new("1700000000_2");
    assert_eq!(seg.path, "1700000000_2.idx");
    assert_eq!(seg.sst.path, "1700000000_2.sst");
    let from = IDX::from("42.idx").unwrap();
    assert_eq!(from.path, "42.idx");
    assert_eq!(from.sst.path, "42.sst");
    assert_eq!(IDX::from("abc").unwrap().sst.path, "abc.sst");
    assert_eq!(IDX::from("dir/a.b.idx").unwrap().sst.path, "dir/a.b.sst");
    assert_eq!(IDX::from("d/1.idx").unwrap().sst.path, "d/1.sst");
    assert_eq!(IDX::from("dir/a.b.idx").unwrap().path, "dir/a.b.idx");
    assert!(IDX::from("").is_err());
    assert!(IDX::from("..").is_err());
    assert!(IDX::from("/").is_err());
    // the data file is the one that std's Path::with_extension gives
    for name in [
        "42.idx", "abc", "dir/a.b.idx", ".hidden", ".hidden.idx", "a.", "x/.", "x//", "./y.idx",
        "a/..", ".", "", "/", "a..b",
    ] {
        let ours = IDX::from(name).ok().map(|i| i.sst.path);
        let path = std::path::Path::new(name);
        let std_sibling = path
            .file_stem()
            .map(|_| path.with_extension("sst").to_str().unwrap().to_string());
        assert_eq!(ours, std_sibling, "{}", name);
    }
    // the stem of "..x" is "."; std's with_extension gives ".." here
    assert_eq!(IDX::from("..x").unwrap().sst.path, "..sst");
}

#[test]
fn compaction_target_takes_next_free_generation() {
    let id = |t, g| SegmentId { time: t, generation: g };
    let existing = vec![id(10, 0), id(20, 0), id(10, 1), id(10, 2)];
    assert_eq!(compaction_target(&id(10, 0), &existing), Some(id(10, 3)));
    assert_eq!(compaction_target(&id(20, 0), &existing), Some(id(20, 1)));
    assert_eq!(compaction_target(&id(10, 1), &existing), Some(id(10, 3)));
    assert_eq!(compaction_target(&id(5, u64::MAX), &existing), None);
    assert!(contains_id(&existing, 10, 2));
    assert!(!contains_id(&existing, 20, 2));
}

#[test]
fn small_segments_filter_by_data_size() {
    let id = |t, g| SegmentId { time: t, generation: g };
    let listed = vec![(id(1, 0), 10), (id(2, 0), COMPACTION_SIZE_LIMIT), (id(3, 1), COMPACTION_SIZE_LIMIT - 1)];
    assert_eq!(small_segments(&listed, COMPACTION_SIZE_LIMIT), vec![id(1, 0), id(3, 1)]);
    assert!(small_segments(&Vec::new(), 100).is_empty());
}

#[test]
fn cursor_reads_records_in_order() {
    let seg = segment_of(&[("b", "2"), ("a", "1")]);
    let mut it = IDXIter::new();
    let first = it.next(&seg.index, &seg.data).unwrap().unwrap();
    assert_eq!((first.key, first.value), (b"a".to_vec(), b"1".to_vec()));
    assert_eq!(it.position, 10);
    let second = it.next(&seg.index, &seg.data).unwrap().unwrap();
    assert_eq!((second.key, second.value), (b"b".to_vec(), b"2".to_vec()));
    assert!(it.next(&seg.index, &seg.data).is_none());
    assert_eq!(it.position, 20);
    // a record whose offset leads nowhere reads as an error
    let mut short = IDXIter::new();
    assert_eq!(short.next(&seg.index, &[]).unwrap().unwrap_err(), StoreError::Io);
}

#[test]
fn lookup_with_offset_that_looks_like_a_header() {
    // a record at data offset 12289 (bytes 01 30 ..) puts a plausible
    // one-byte record start inside the index
    let mut index = Vec::new();
    let mut data = Vec::new();
    let long_value = "v".repeat(12289 - 6);
    IDX::set_key(&mut index, &mut data, "a", &long_value).unwrap();
    let b = IDX::set_key(&mut index, &mut data, "b", "x").unwrap();
    assert_eq!(b.offset, 12289);
    IDX::set_key(&mut index, &mut data, "c", "y").unwrap();
    IDX::set_key(&mut index, &mut data, "d", "z").unwrap();
    assert_eq!(index[12], 1);
    assert_eq!(index[13], b'0');
    for (key, value) in [("b", "x"), ("c", "y"), ("d", "z")] {
        assert_eq!(IDX::get_value(&index, &data, key).unwrap().value, value.as_bytes().to_vec());
    }
    assert_eq!(IDX::get_value(&index, &data, "a").unwrap().value.len(), 12283);
    assert_eq!(IDX::get_value(&index, &data, "e").unwrap_err(), StoreError::NotFound);
}

#[test]
fn stems_are_written_and_read_back() {
    let id = |t, g| SegmentId { time: t, generation: g };
    assert_eq!(stem_name(&id(1700000000, 0)), "1700000000");
    assert_eq!(stem_name(&id(5, 3)), "5_3");
    assert_eq!(stem_name(&id(0, 0)), "0");
    assert_eq!(stem_name(&id(10, 12)), "10_12");
    for x in [id(0, 0), id(9, 1), id(10, 0), id(u64::MAX, u64::MAX), id(1700000000, 7)] {
        assert_eq!(parse_stem(&stem_name(&x)), Some(x));
    }
}
