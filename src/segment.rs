//! Segments as values: the images that a list of entries is written as,
//! what reading them back gives, lookups across segments, the merge of two
//! segments, and the laws that tie these together.
use crate::avl::{entries_of, key_bytes};
use crate::error::StoreError;
use crate::idx::{
    encode_index, entries_ascending, headers_exact, index_key, index_record, lemma_find_offset_correct,
    lemma_headers_exact, lemma_probe_error_is_io, lemma_small_offset_clean, offset_clean,
    probe_search, well_formed_index, IDXValue,
};
use crate::keys::{bytes_lt, valid_key};
use crate::sst::{data_record, read_data};
use vstd::bytes::spec_u64_from_le_bytes;
use vstd::prelude::*;

verus! {

broadcast use crate::keys::group_bytes_lt;

/// The index and data images of a segment written from `es`, in order.
pub open spec fn segment_images(es: Seq<(Seq<u8>, Seq<u8>)>) -> (Seq<u8>, Seq<u8>)
    decreases es.len(),
{
    if es.len() == 0 {
        (Seq::empty(), Seq::empty())
    } else {
        let (i, d) = segment_images(es.drop_last());
        (
            i + index_record(es.last().0, d.len() as u64),
            d + data_record(es.last().0, es.last().1),
        )
    }
}

/// The memtable's entries as bytes, in order.
pub open spec fn entry_bytes(e: Seq<(Seq<char>, Seq<char>)>) -> Seq<(Seq<u8>, Seq<u8>)> {
    e.map_values(|p: (Seq<char>, Seq<char>)| (key_bytes(p.0), key_bytes(p.1)))
}

/// Every key passes the request surface's rule.
pub open spec fn all_keys_valid(es: Seq<(Seq<u8>, Seq<u8>)>) -> bool {
    forall|i: int| 0 <= i < es.len() ==> valid_key(#[trigger] es[i].0)
}

/// A record with a value of this length, and a key of at most the longest
/// valid length, can be appended to images of these lengths.
pub open spec fn record_fits(idx_len: int, data_len: int, value: Seq<u8>) -> bool {
    &&& value.len() <= u32::MAX
    &&& data_len + 15 + value.len() <= usize::MAX
    &&& idx_len + 19 <= usize::MAX
}

/// Each entry can be appended after the ones before it.
pub open spec fn all_records_fit(es: Seq<(Seq<u8>, Seq<u8>)>) -> bool {
    forall|t: int|
        0 <= t < es.len() ==> record_fits(
            (#[trigger] segment_images(es.take(t))).0.len() as int,
            segment_images(es.take(t)).1.len() as int,
            es[t].1,
        )
}

/// The records that a sequential read of an index image yields from `p`,
/// up to the first record that does not fit.
pub open spec fn scan_from(idx: Seq<u8>, p: int) -> Seq<(Seq<u8>, u64)>
    decreases idx.len() - p,
{
    if p < 0 || p + 1 > idx.len() {
        Seq::empty()
    } else {
        let ke = p + 1 + idx[p];
        if ke + 8 > idx.len() {
            Seq::empty()
        } else {
            seq![(idx.subrange(p + 1, ke), spec_u64_from_le_bytes(idx.subrange(ke, ke + 8)))]
                + scan_from(idx, ke + 8)
        }
    }
}

/// Reads the value of each record, stopping at the first failure.
pub open spec fn read_all(recs: Seq<(Seq<u8>, u64)>, data: Seq<u8>) -> Result<
    Seq<(Seq<u8>, Seq<u8>)>,
    StoreError,
>
    decreases recs.len(),
{
    if recs.len() == 0 {
        Ok(Seq::empty())
    } else {
        match read_all(recs.drop_last(), data) {
            Err(e) => Err(e),
            Ok(prev) => match read_data(data, recs.last().0, recs.last().1 as int) {
                Err(e) => Err(e),
                Ok(v) => Ok(prev.push((recs.last().0, v))),
            },
        }
    }
}

/// The views of entries read back.
pub open spec fn values_view(v: Seq<IDXValue>) -> Seq<(Seq<u8>, Seq<u8>)> {
    v.map_values(|x: IDXValue| (x.key@, x.value@))
}

/// Reading stops at the first failure, whatever follows it.
pub proof fn lemma_read_all_error(a: Seq<(Seq<u8>, u64)>, b: Seq<(Seq<u8>, u64)>, data: Seq<u8>)
    requires
        read_all(a, data) is Err,
    ensures
        read_all(a + b, data) == read_all(a, data),
    decreases b.len(),
{
    if b.len() > 0 {
        lemma_read_all_error(a, b.drop_last(), data);
        assert((a + b).drop_last() =~= a + b.drop_last());
    } else {
        assert(a + b =~= a);
    }
}

/// What a lookup of `key` in one segment gives: a value, absent, or `Io`.
/// A record that holds another key counts as absent.
pub open spec fn segment_get(idx: Seq<u8>, data: Seq<u8>, key: Seq<u8>) -> Result<
    Option<Seq<u8>>,
    StoreError,
> {
    match probe_search(idx, key, 0, idx.len() as int) {
        Err(e) => Err(e),
        Ok(None) => Ok(None),
        Ok(Some(o)) => match read_data(data, key, o as int) {
            Ok(v) => Ok(Some(v)),
            Err(StoreError::Corruption) => Ok(None),
            Err(e) => Err(e),
        },
    }
}

/// A segment's two files, read into memory.
#[derive(Debug)]
pub struct Segment {
    pub index: Vec<u8>,
    pub data: Vec<u8>,
}

/// The views of segments: (index image, data image).
pub open spec fn segments_view(s: Seq<Segment>) -> Seq<(Seq<u8>, Seq<u8>)> {
    s.map_values(|x: Segment| (x.index@, x.data@))
}

/// What a lookup of `key` in segments ordered newest first gives: the first
/// segment that holds the key decides; `Io` stops the walk.
pub open spec fn segments_get(segs: Seq<(Seq<u8>, Seq<u8>)>, key: Seq<u8>) -> Result<
    Option<Seq<u8>>,
    StoreError,
>
    decreases segs.len(),
{
    if segs.len() == 0 {
        Ok(None)
    } else {
        match segment_get(segs[0].0, segs[0].1, key) {
            Ok(None) => segments_get(segs.drop_first(), key),
            other => other,
        }
    }
}

/// The map that entries describe, a later entry winning over an earlier
/// one with the same key.
pub open spec fn entries_map(es: Seq<(Seq<u8>, Seq<u8>)>) -> Map<Seq<u8>, Seq<u8>>
    decreases es.len(),
{
    if es.len() == 0 {
        Map::empty()
    } else {
        entries_map(es.drop_last()).insert(es.last().0, es.last().1)
    }
}

/// Entry keys strictly ascending.
pub open spec fn ascending(es: Seq<(Seq<u8>, Seq<u8>)>) -> bool {
    forall|i: int, j: int| 0 <= i < j < es.len() ==> bytes_lt(#[trigger] es[i].0, #[trigger] es[j].0)
}

/// The keys of the map of entries are the keys of the entries.
pub proof fn lemma_entries_map_dom(es: Seq<(Seq<u8>, Seq<u8>)>)
    ensures
        forall|k: Seq<u8>| #[trigger]
            entries_map(es).contains_key(k) <==> exists|i: int|
                0 <= i < es.len() && #[trigger] es[i].0 == k,
    decreases es.len(),
{
    if es.len() > 0 {
        let d = es.drop_last();
        lemma_entries_map_dom(d);
        assert forall|k: Seq<u8>| #[trigger]
            entries_map(es).contains_key(k) <==> exists|i: int|
                0 <= i < es.len() && #[trigger] es[i].0 == k by {
            assert(entries_map(es) == entries_map(d).insert(es.last().0, es.last().1));
            if entries_map(es).contains_key(k) {
                if k == es.last().0 {
                    assert(es[es.len() - 1].0 == k);
                } else {
                    assert(entries_map(d).contains_key(k));
                    let i = choose|i: int| 0 <= i < d.len() && #[trigger] d[i].0 == k;
                    assert(es[i] == d[i]);
                }
            }
            if exists|i: int| 0 <= i < es.len() && #[trigger] es[i].0 == k {
                let i = choose|i: int| 0 <= i < es.len() && #[trigger] es[i].0 == k;
                if i < es.len() - 1 {
                    assert(d[i] == es[i]);
                }
            }
        }
    }
}

/// In ascending entries each key maps to its own entry's value.
pub proof fn lemma_entries_map_value(es: Seq<(Seq<u8>, Seq<u8>)>, t: int)
    requires
        ascending(es),
        0 <= t < es.len(),
    ensures
        entries_map(es).contains_key(es[t].0),
        entries_map(es)[es[t].0] == es[t].1,
    decreases es.len(),
{
    let d = es.drop_last();
    if t < es.len() - 1 {
        assert(d[t] == es[t]);
        assert(ascending(d)) by {
            assert forall|i: int, j: int| 0 <= i < j < d.len() implies bytes_lt(
                #[trigger] d[i].0,
                #[trigger] d[j].0,
            ) by {
                assert(d[i] == es[i] && d[j] == es[j]);
            }
        }
        lemma_entries_map_value(d, t);
        assert(bytes_lt(es[t].0, es[es.len() - 1].0));
    }
}

/// The index entries of a segment written from `es`: each key with the
/// offset of its data record.
pub open spec fn index_entries(es: Seq<(Seq<u8>, Seq<u8>)>) -> Seq<(Seq<u8>, u64)> {
    Seq::new(es.len(), |t: int| (es[t].0, segment_images(es.take(t)).1.len() as u64))
}

/// The entries that a segment's images read back as.
pub open spec fn segment_entries(idx: Seq<u8>, data: Seq<u8>) -> Result<
    Seq<(Seq<u8>, Seq<u8>)>,
    StoreError,
> {
    read_all(scan_from(idx, 0), data)
}

/// What a lookup in entries gives.
pub open spec fn entries_get(es: Seq<(Seq<u8>, Seq<u8>)>, key: Seq<u8>) -> Option<Seq<u8>> {
    if entries_map(es).contains_key(key) {
        Some(entries_map(es)[key])
    } else {
        None
    }
}

/// Entries that a segment can be written from and read back by the probing
/// search: ascending valid keys, values that fit, and an index image in
/// which only record starts look like record starts.
pub open spec fn readable_segment(es: Seq<(Seq<u8>, Seq<u8>)>) -> bool {
    &&& ascending(es)
    &&& all_keys_valid(es)
    &&& all_records_fit(es)
    &&& headers_exact(segment_images(es).0, index_entries(es))
}

/// The index image of a segment encodes its index entries.
pub proof fn lemma_index_image(es: Seq<(Seq<u8>, Seq<u8>)>)
    ensures
        segment_images(es).0 == encode_index(index_entries(es)),
    decreases es.len(),
{
    if es.len() > 0 {
        let d = es.drop_last();
        lemma_index_image(d);
        assert(index_entries(es).drop_last() =~= index_entries(d)) by {
            assert forall|t: int| 0 <= t < d.len() implies index_entries(es).drop_last()[t]
                == index_entries(d)[t] by {
                assert(es.take(t) =~= d.take(t));
            }
        }
        assert(es.take(es.len() - 1) =~= d);
    }
}

/// The data image of the first entries begins the data image of all.
pub proof fn lemma_data_prefix(es: Seq<(Seq<u8>, Seq<u8>)>, m: int)
    requires
        0 <= m <= es.len(),
    ensures
        segment_images(es.take(m)).1.is_prefix_of(segment_images(es).1),
    decreases es.len(),
{
    if m == es.len() {
        assert(es.take(m) =~= es);
    } else {
        let d = es.drop_last();
        lemma_data_prefix(d, m);
        assert(d.take(m) =~= es.take(m));
    }
}

/// Entry `t` of a segment written from `es` sits in the data image at the
/// offset that the index records for it.
proof fn lemma_data_at(es: Seq<(Seq<u8>, Seq<u8>)>, t: int)
    requires
        0 <= t < es.len(),
        es[t].0.len() <= 255,
        record_fits(
            segment_images(es.take(t)).0.len() as int,
            segment_images(es.take(t)).1.len() as int,
            es[t].1,
        ),
    ensures
        read_data(segment_images(es).1, es[t].0, index_entries(es)[t].1 as int) == Ok::<
            Seq<u8>,
            StoreError,
        >(es[t].1),
{
    let pre = segment_images(es.take(t)).1;
    let upto = segment_images(es.take(t + 1)).1;
    let whole = segment_images(es).1;
    lemma_data_prefix(es, t + 1);
    assert(es.take(t + 1).drop_last() =~= es.take(t));
    assert(upto == pre + data_record(es[t].0, es[t].1));
    let post = whole.skip(upto.len() as int);
    assert(whole =~= pre + data_record(es[t].0, es[t].1) + post);
    crate::sst::lemma_read_data_record(pre, es[t].0, es[t].1, post);
}

/// A flushed segment is consistent: its index image encodes entries in
/// strictly ascending key order, and each index record's offset leads to a
/// data record with the same key and the entry's value.
pub proof fn lemma_flushed_segment_consistent(es: Seq<(Seq<u8>, Seq<u8>)>)
    requires
        ascending(es),
        all_keys_valid(es),
        all_records_fit(es),
    ensures
        segment_images(es).0 == encode_index(index_entries(es)),
        entries_ascending(index_entries(es)),
        forall|t: int|
            0 <= t < es.len() ==> read_data(
                segment_images(es).1,
                #[trigger] index_entries(es)[t].0,
                index_entries(es)[t].1 as int,
            ) == Ok::<Seq<u8>, StoreError>(es[t].1),
{
    lemma_index_image(es);
    assert forall|t: int|
        0 <= t < es.len() implies read_data(
        segment_images(es).1,
        #[trigger] index_entries(es)[t].0,
        index_entries(es)[t].1 as int,
    ) == Ok::<Seq<u8>, StoreError>(es[t].1) by {
        assert(valid_key(es[t].0));
        assert(record_fits(
            segment_images(es.take(t)).0.len() as int,
            segment_images(es.take(t)).1.len() as int,
            es[t].1,
        ));
        lemma_data_at(es, t);
    }
    assert forall|i: int, j: int| 0 <= i < j < index_entries(es).len() implies bytes_lt(
        #[trigger] index_entries(es)[i].0,
        #[trigger] index_entries(es)[j].0,
    ) by {
        assert(bytes_lt(es[i].0, es[j].0));
    }
}

/// Round trip: every entry written to a readable segment is found again by
/// the probing search and read back from the data image; no other key is.
pub proof fn lemma_segment_round_trip(es: Seq<(Seq<u8>, Seq<u8>)>, key: Seq<u8>)
    requires
        readable_segment(es),
    ensures
        segment_get(segment_images(es).0, segment_images(es).1, key) == Ok::<
            Option<Seq<u8>>,
            StoreError,
        >(entries_get(es, key)),
{
    let ie = index_entries(es);
    let (idx, data) = segment_images(es);
    lemma_flushed_segment_consistent(es);
    assert forall|i: int| 0 <= i < ie.len() implies index_key(#[trigger] ie[i].0) by {
        assert(valid_key(es[i].0));
    }
    assert(well_formed_index(idx, ie));
    lemma_find_offset_correct(idx, ie, key);
    lemma_entries_map_dom(es);
    if exists|i: int| 0 <= i < ie.len() && #[trigger] ie[i].0 == key {
        let t = choose|i: int| 0 <= i < ie.len() && #[trigger] ie[i].0 == key;
        assert(es[t].0 == key);
        lemma_entries_map_value(es, t);
    } else {
        assert forall|i: int| 0 <= i < es.len() implies #[trigger] es[i].0 != key by {
            assert(ie[i].0 == es[i].0);
        }
    }
}

/// The bytes of the memtable's entries are ascending and describe its
/// contents.
pub proof fn lemma_entry_bytes(t: Option<Box<crate::avl::AVLNode>>)
    requires
        crate::avl::is_avl(t),
    ensures
        ascending(entry_bytes(entries_of(t))),
        forall|k: Seq<u8>|
            #[trigger] entries_get(entry_bytes(entries_of(t)), k) == if crate::avl::map_of(
                t,
            ).contains_key(k) {
                Some(key_bytes(crate::avl::map_of(t)[k]))
            } else {
                None
            },
{
    let e = entries_of(t);
    let es = entry_bytes(e);
    let m = crate::avl::map_of(t);
    crate::avl::lemma_entries(t);
    assert forall|i: int, j: int| 0 <= i < j < es.len() implies bytes_lt(
        #[trigger] es[i].0,
        #[trigger] es[j].0,
    ) by {
        assert(bytes_lt(key_bytes(e[i].0), key_bytes(e[j].0)));
    }
    lemma_entries_map_dom(es);
    assert forall|k: Seq<u8>|
        #[trigger] entries_get(es, k) == if m.contains_key(k) {
            Some(key_bytes(m[k]))
        } else {
            None
        } by {
        if m.contains_key(k) {
            let i = choose|i: int| 0 <= i < e.len() && key_bytes(#[trigger] e[i].0) == k;
            assert(es[i].0 == k);
            lemma_entries_map_value(es, i);
        } else {
            if entries_map(es).contains_key(k) {
                let i = choose|i: int| 0 <= i < es.len() && #[trigger] es[i].0 == k;
                assert(es[i].0 == key_bytes(e[i].0));
            }
        }
    }
}

/// Flush round trip: a memtable written as a readable segment is read back
/// whole; each key gives its value's bytes, and no other key is found.
pub proof fn lemma_flush_round_trip(t: Option<Box<crate::avl::AVLNode>>, key: Seq<u8>)
    requires
        crate::avl::is_avl(t),
        readable_segment(entry_bytes(entries_of(t))),
    ensures
        segment_get(
            segment_images(entry_bytes(entries_of(t))).0,
            segment_images(entry_bytes(entries_of(t))).1,
            key,
        ) == Ok::<Option<Seq<u8>>, StoreError>(
            if crate::avl::map_of(t).contains_key(key) {
                Some(key_bytes(crate::avl::map_of(t)[key]))
            } else {
                None
            },
        ),
{
    lemma_entry_bytes(t);
    lemma_segment_round_trip(entry_bytes(entries_of(t)), key);
    assert(entries_get(entry_bytes(entries_of(t)), key) == if crate::avl::map_of(t).contains_key(
        key,
    ) {
        Some(key_bytes(crate::avl::map_of(t)[key]))
    } else {
        None
    });
}

/// A segment whose data image is under 12289 bytes is readable: no offset it
/// records can look like a record start.
pub proof fn lemma_small_segment_readable(es: Seq<(Seq<u8>, Seq<u8>)>)
    requires
        ascending(es),
        all_keys_valid(es),
        all_records_fit(es),
        segment_images(es).1.len() < 12289,
    ensures
        readable_segment(es),
{
    let ie = index_entries(es);
    assert forall|t: int| 0 <= t < ie.len() implies offset_clean(#[trigger] ie[t].1) by {
        lemma_data_prefix(es, t);
        lemma_small_offset_clean(ie[t].1);
    }
    assert forall|t: int| 0 <= t < ie.len() implies valid_key(#[trigger] ie[t].0) by {
        assert(valid_key(es[t].0));
    }
    lemma_headers_exact(ie);
    lemma_index_image(es);
}

/// Flush round trip for a memtable whose segment data image is under 12289
/// bytes and whose keys are valid: every key reads back its value's bytes,
/// and no other key is found.
pub proof fn lemma_small_flush_round_trip(t: Option<Box<crate::avl::AVLNode>>, key: Seq<u8>)
    requires
        crate::avl::is_avl(t),
        all_keys_valid(entry_bytes(entries_of(t))),
        all_records_fit(entry_bytes(entries_of(t))),
        segment_images(entry_bytes(entries_of(t))).1.len() < 12289,
    ensures
        segment_get(
            segment_images(entry_bytes(entries_of(t))).0,
            segment_images(entry_bytes(entries_of(t))).1,
            key,
        ) == Ok::<Option<Seq<u8>>, StoreError>(
            if crate::avl::map_of(t).contains_key(key) {
                Some(key_bytes(crate::avl::map_of(t)[key]))
            } else {
                None
            },
        ),
{
    lemma_entry_bytes(t);
    lemma_small_segment_readable(entry_bytes(entries_of(t)));
    lemma_flush_round_trip(t, key);
}

/// Newest wins: when the newest segment holds a key, a lookup across the
/// segments gives its value, whatever older segments hold.
pub proof fn lemma_newest_wins(
    newest: Seq<(Seq<u8>, Seq<u8>)>,
    older: Seq<(Seq<u8>, Seq<u8>)>,
    key: Seq<u8>,
)
    requires
        readable_segment(newest),
        entries_map(newest).contains_key(key),
    ensures
        segments_get(seq![segment_images(newest)] + older, key) == Ok::<
            Option<Seq<u8>>,
            StoreError,
        >(Some(entries_map(newest)[key])),
{
    lemma_segment_round_trip(newest, key);
    let all = seq![segment_images(newest)] + older;
    assert(all[0] == segment_images(newest));
}

/// Compaction preserves lookups: replacing the two oldest segments by one
/// written from the merge of their entries, the newer winning, changes what
/// no key reads. The two merged segments are adjacent in age here; a
/// segment between them would be outranked by the merge.
pub proof fn lemma_compaction_preserves_lookups(
    newer_segments: Seq<(Seq<u8>, Seq<u8>)>,
    older_es: Seq<(Seq<u8>, Seq<u8>)>,
    newer_es: Seq<(Seq<u8>, Seq<u8>)>,
    merged_es: Seq<(Seq<u8>, Seq<u8>)>,
    key: Seq<u8>,
)
    requires
        readable_segment(older_es),
        readable_segment(newer_es),
        readable_segment(merged_es),
        entries_map(merged_es) == entries_map(older_es).union_prefer_right(entries_map(newer_es)),
    ensures
        segments_get(
            newer_segments + seq![segment_images(newer_es), segment_images(older_es)],
            key,
        ) == segments_get(newer_segments + seq![segment_images(merged_es)], key),
    decreases newer_segments.len(),
{
    let before = newer_segments + seq![segment_images(newer_es), segment_images(older_es)];
    let after = newer_segments + seq![segment_images(merged_es)];
    if newer_segments.len() > 0 {
        lemma_compaction_preserves_lookups(
            newer_segments.drop_first(),
            older_es,
            newer_es,
            merged_es,
            key,
        );
        assert(before.drop_first() =~= newer_segments.drop_first() + seq![
            segment_images(newer_es),
            segment_images(older_es),
        ]);
        assert(after.drop_first() =~= newer_segments.drop_first() + seq![
            segment_images(merged_es),
        ]);
        assert(before[0] == newer_segments[0] && after[0] == newer_segments[0]);
    } else {
        lemma_segment_round_trip(older_es, key);
        lemma_segment_round_trip(newer_es, key);
        lemma_segment_round_trip(merged_es, key);
        assert(before =~= seq![segment_images(newer_es), segment_images(older_es)]);
        assert(after =~= seq![segment_images(merged_es)]);
        assert(before.drop_first() =~= seq![segment_images(older_es)]);
        assert(before.drop_first().drop_first() =~= Seq::<(Seq<u8>, Seq<u8>)>::empty());
        assert(after.drop_first() =~= Seq::<(Seq<u8>, Seq<u8>)>::empty());
        let empty = Seq::<(Seq<u8>, Seq<u8>)>::empty();
        assert(segments_get(empty, key) == Ok::<Option<Seq<u8>>, StoreError>(None));
        assert(before[0] == segment_images(newer_es));
        assert(before.drop_first()[0] == segment_images(older_es));
        assert(after[0] == segment_images(merged_es));
        let o = entries_get(older_es, key);
        let n = entries_get(newer_es, key);
        let m = entries_get(merged_es, key);
        assert(m == if n is Some { n } else { o });
        assert(segments_get(before.drop_first(), key) == Ok::<Option<Seq<u8>>, StoreError>(o));
        assert(segments_get(after, key) == Ok::<Option<Seq<u8>>, StoreError>(m));
        assert(segments_get(before, key) == Ok::<Option<Seq<u8>>, StoreError>(m));
    }
}

/// An ascending list of entries is determined by the map it describes.
pub proof fn lemma_ascending_unique(a: Seq<(Seq<u8>, Seq<u8>)>, b: Seq<(Seq<u8>, Seq<u8>)>)
    requires
        ascending(a),
        ascending(b),
        entries_map(a) == entries_map(b),
    ensures
        a == b,
    decreases a.len(),
{
    lemma_entries_map_dom(a);
    lemma_entries_map_dom(b);
    if a.len() == 0 || b.len() == 0 {
        if a.len() > 0 {
            assert(entries_map(a).contains_key(a[0].0));
        }
        if b.len() > 0 {
            assert(entries_map(b).contains_key(b[0].0));
        }
        assert(a =~= b);
        return;
    }
    let la = a.last();
    let lb = b.last();
    assert(entries_map(a).contains_key(la.0)) by {
        assert(a[a.len() - 1].0 == la.0);
    }
    assert(entries_map(b).contains_key(lb.0)) by {
        assert(b[b.len() - 1].0 == lb.0);
    }
    assert(la.0 == lb.0) by {
        let i = choose|i: int| 0 <= i < a.len() && #[trigger] a[i].0 == lb.0;
        let j = choose|j: int| 0 <= j < b.len() && #[trigger] b[j].0 == la.0;
        if i < a.len() - 1 {
            assert(bytes_lt(a[i].0, a[a.len() - 1].0));
        }
        if j < b.len() - 1 {
            assert(bytes_lt(b[j].0, b[b.len() - 1].0));
        }
    }
    lemma_entries_map_value(a, a.len() - 1);
    lemma_entries_map_value(b, b.len() - 1);
    let da = a.drop_last();
    let db = b.drop_last();
    assert(ascending(da)) by {
        assert forall|i: int, j: int| 0 <= i < j < da.len() implies bytes_lt(
            #[trigger] da[i].0,
            #[trigger] da[j].0,
        ) by {
            assert(da[i] == a[i] && da[j] == a[j]);
        }
    }
    assert(ascending(db)) by {
        assert forall|i: int, j: int| 0 <= i < j < db.len() implies bytes_lt(
            #[trigger] db[i].0,
            #[trigger] db[j].0,
        ) by {
            assert(db[i] == b[i] && db[j] == b[j]);
        }
    }
    lemma_entries_map_dom(da);
    lemma_entries_map_dom(db);
    assert(!entries_map(da).contains_key(la.0)) by {
        if entries_map(da).contains_key(la.0) {
            let i = choose|i: int| 0 <= i < da.len() && #[trigger] da[i].0 == la.0;
            assert(bytes_lt(a[i].0, a[a.len() - 1].0));
        }
    }
    assert(!entries_map(db).contains_key(lb.0)) by {
        if entries_map(db).contains_key(lb.0) {
            let i = choose|i: int| 0 <= i < db.len() && #[trigger] db[i].0 == lb.0;
            assert(bytes_lt(b[i].0, b[b.len() - 1].0));
        }
    }
    assert(entries_map(da) =~= entries_map(a).remove(la.0));
    assert(entries_map(db) =~= entries_map(b).remove(lb.0));
    lemma_ascending_unique(da, db);
    assert(a =~= da.push(la));
    assert(b =~= db.push(lb));
}

/// The entries of a merge: ascending, with the older map overridden by the
/// newer.
pub open spec fn merge_of(older: Seq<(Seq<u8>, Seq<u8>)>, newer: Seq<(Seq<u8>, Seq<u8>)>) -> Seq<
    (Seq<u8>, Seq<u8>),
> {
    choose|m: Seq<(Seq<u8>, Seq<u8>)>|
        ascending(m) && entries_map(m) == entries_map(older).union_prefer_right(
            entries_map(newer),
        )
}

/// What the merge keeps true from one step to the next.
pub open spec fn merge_state(
    out: Seq<(Seq<u8>, Seq<u8>)>,
    vo: Seq<(Seq<u8>, Seq<u8>)>,
    vn: Seq<(Seq<u8>, Seq<u8>)>,
    i: int,
    j: int,
) -> bool {
    &&& 0 <= i <= vo.len()
    &&& 0 <= j <= vn.len()
    &&& ascending(out)
    &&& entries_map(out) == entries_map(vo.take(i)).union_prefer_right(entries_map(vn.take(j)))
    &&& forall|k: Seq<u8>| #[trigger]
        entries_map(out).contains_key(k) ==> (i < vo.len() ==> bytes_lt(k, vo[i].0)) && (j
            < vn.len() ==> bytes_lt(k, vn[j].0))
}

/// One step of the merge keeps its state.
pub proof fn lemma_merge_step(
    before: Seq<(Seq<u8>, Seq<u8>)>,
    vo: Seq<(Seq<u8>, Seq<u8>)>,
    vn: Seq<(Seq<u8>, Seq<u8>)>,
    i: int,
    j: int,
    take_older: bool,
    take_newer: bool,
    x: (Seq<u8>, Seq<u8>),
)
    requires
        merge_state(before, vo, vn, i, j),
        ascending(vo),
        ascending(vn),
        take_older || take_newer,
        take_older ==> i < vo.len(),
        take_newer ==> j < vn.len(),
        x == if take_newer {
            vn[j]
        } else {
            vo[i]
        },
        take_older && !take_newer ==> j == vn.len() || bytes_lt(vo[i].0, vn[j].0),
        take_older && take_newer ==> vo[i].0 == vn[j].0,
        !take_older && take_newer ==> i == vo.len() || bytes_lt(vn[j].0, vo[i].0),
    ensures
        merge_state(
            before.push(x),
            vo,
            vn,
            if take_older {
                i + 1
            } else {
                i
            },
            if take_newer {
                j + 1
            } else {
                j
            },
        ),
{
    let now = before.push(x);
    let ni: int = if take_older { i + 1 } else { i };
    let nj: int = if take_newer { j + 1 } else { j };
    lemma_entries_map_dom(before);
    assert(now.drop_last() =~= before);
    assert(entries_map(now) == entries_map(before).insert(x.0, x.1));
    let a = entries_map(vo.take(i));
    let b = entries_map(vn.take(j));
    if take_older {
        assert(vo.take(ni).drop_last() =~= vo.take(i));
        assert(entries_map(vo.take(ni)) == a.insert(vo[i].0, vo[i].1));
    } else {
        assert(vo.take(ni) == vo.take(i));
    }
    if take_newer {
        assert(vn.take(nj).drop_last() =~= vn.take(j));
        assert(entries_map(vn.take(nj)) == b.insert(vn[j].0, vn[j].1));
    } else {
        assert(vn.take(nj) == vn.take(j));
    }
    if take_older && !take_newer {
        assert(!b.contains_key(x.0)) by {
            if b.contains_key(x.0) {
                assert(entries_map(before).contains_key(x.0));
            }
        }
    }
    assert(entries_map(now) =~= entries_map(vo.take(ni)).union_prefer_right(
        entries_map(vn.take(nj)),
    ));
    assert(ascending(now)) by {
        assert forall|p: int, q: int| 0 <= p < q < now.len() implies bytes_lt(
            #[trigger] now[p].0,
            #[trigger] now[q].0,
        ) by {
            if q == now.len() - 1 {
                assert(now[p] == before[p]);
                assert(entries_map(before).contains_key(before[p].0));
            } else {
                assert(now[p] == before[p] && now[q] == before[q]);
            }
        }
    }
    assert forall|k: Seq<u8>| #[trigger]
        entries_map(now).contains_key(k) implies (ni < vo.len() ==> bytes_lt(k, vo[ni].0)) && (
    nj < vn.len() ==> bytes_lt(k, vn[nj].0)) by {
        if take_older && ni < vo.len() {
            assert(bytes_lt(vo[i].0, vo[ni].0));
        }
        if take_newer && nj < vn.len() {
            assert(bytes_lt(vn[j].0, vn[nj].0));
        }
    }
}

/// A lookup across segments fails only with `Io`.
pub proof fn lemma_segments_get_error_is_io(segs: Seq<(Seq<u8>, Seq<u8>)>, key: Seq<u8>)
    ensures
        segments_get(segs, key) is Err ==> segments_get(segs, key) == Err::<
            Option<Seq<u8>>,
            StoreError,
        >(StoreError::Io),
    decreases segs.len(),
{
    if segs.len() > 0 {
        lemma_probe_error_is_io(segs[0].0, key, 0, segs[0].0.len() as int);
        lemma_segments_get_error_is_io(segs.drop_first(), key);
    }
}

} // verus!
