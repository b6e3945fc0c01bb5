//! Segment index files: `(key_len: u8, key, data_offset: u64 LE)` records in
//! ascending key order, searched by bisecting byte positions.
use crate::avl::{entries_of, key_bytes, AVLTree};
use crate::error::StoreError;
use crate::keys::{all_alnum, bytes_lt, compare_bytes, is_alnum, is_valid_key, valid_key};
use crate::segment::{
    all_keys_valid, all_records_fit, ascending, entries_map, entry_bytes, lemma_ascending_unique,
    lemma_merge_step, lemma_read_all_error, merge_of, merge_state, read_all,
    record_fits, scan_from, segment_entries, segment_get, segment_images, segments_get,
    segments_view, values_view, Segment,
};
use crate::sst::{data_record, read_data, SST};
use std::cmp::Ordering;
use vstd::bytes::{spec_u64_from_le_bytes, spec_u64_to_le_bytes, u64_from_le_bytes, u64_to_le_bytes};
use vstd::prelude::*;
use vstd::slice::{slice_subrange, slice_to_vec};
use vstd::string::{StrSliceExecFns, StringExecFns, StringSliceAdditionalSpecFns};

verus! {

broadcast use crate::keys::group_bytes_lt;

/// The encoding of one index record.
pub open spec fn index_record(key: Seq<u8>, offset: u64) -> Seq<u8> {
    seq![key.len() as u8] + key + spec_u64_to_le_bytes(offset)
}

/// The bytes at `p` look like the start of a record: a key length of at
/// least one, followed by that many ASCII letters or digits.
pub open spec fn plausible_header(idx: Seq<u8>, p: int) -> bool {
    &&& 0 <= p < idx.len()
    &&& idx[p] >= 1
    &&& p + 1 + idx[p] <= idx.len()
    &&& forall|i: int| p + 1 <= i < p + 1 + idx[p] ==> is_alnum(#[trigger] idx[i])
}

/// The nearest plausible record start at or below `p`, or 0.
pub open spec fn resync(idx: Seq<u8>, p: int) -> int
    decreases p,
{
    if p <= 0 {
        0
    } else if plausible_header(idx, p) {
        p
    } else {
        resync(idx, p - 1)
    }
}

/// The outcome of the probing search for `key` between byte positions
/// `left` and `right`: probe the middle, resynchronise backwards, compare,
/// and go on in the half that can still hold the key. A probe whose key runs
/// past the end gives absent; a match whose offset runs past the end gives
/// `Io`; a probe that would not move `left` forward ends the search.
pub open spec fn probe_search(idx: Seq<u8>, key: Seq<u8>, left: int, right: int) -> Result<
    Option<u64>,
    StoreError,
>
    decreases (if right > left {
        right - left
    } else {
        0
    }),
    via probe_search_decreases
{
    if left < 0 || left >= right || right > idx.len() {
        Ok(None)
    } else {
        let mid = resync(idx, left + (right - left) / 2);
        let ke = mid + 1 + idx[mid];
        if ke > idx.len() {
            Ok(None)
        } else {
            let found = idx.subrange(mid + 1, ke);
            if bytes_lt(key, found) {
                probe_search(idx, key, left, mid)
            } else if key == found {
                if ke + 8 > idx.len() {
                    Err(StoreError::Io)
                } else {
                    Ok(Some(spec_u64_from_le_bytes(idx.subrange(ke, ke + 8))))
                }
            } else if ke + 8 <= left {
                Ok(None)
            } else {
                probe_search(idx, key, ke + 8, right)
            }
        }
    }
}

#[via_fn]
proof fn probe_search_decreases(idx: Seq<u8>, key: Seq<u8>, left: int, right: int) {
    if !(left < 0 || left >= right || right > idx.len()) {
        lemma_resync_bounds(idx, left + (right - left) / 2);
    }
}

/// The search fails only with `Io`.
pub proof fn lemma_probe_error_is_io(idx: Seq<u8>, key: Seq<u8>, left: int, right: int)
    ensures
        probe_search(idx, key, left, right) is Err ==> probe_search(idx, key, left, right)
            == Err::<Option<u64>, StoreError>(StoreError::Io),
    decreases (if right > left {
        right - left
    } else {
        0
    }),
{
    if !(left < 0 || left >= right || right > idx.len()) {
        lemma_resync_bounds(idx, left + (right - left) / 2);
        let mid = resync(idx, left + (right - left) / 2);
        let ke = mid + 1 + idx[mid];
        if ke <= idx.len() {
            lemma_probe_error_is_io(idx, key, left, mid);
            if ke + 8 > left {
                lemma_probe_error_is_io(idx, key, ke + 8, right);
            }
        }
    }
}

proof fn lemma_resync_bounds(idx: Seq<u8>, p: int)
    requires
        p < idx.len(),
    ensures
        0 <= resync(idx, p),
        p <= 0 || resync(idx, p) <= p,
        resync(idx, p) < idx.len() || idx.len() == 0,
    decreases p,
{
    if p > 0 && !plausible_header(idx, p) {
        lemma_resync_bounds(idx, p - 1);
    }
}

/// The index image of a list of `(key, data offset)` entries.
pub open spec fn encode_index(recs: Seq<(Seq<u8>, u64)>) -> Seq<u8>
    decreases recs.len(),
{
    if recs.len() == 0 {
        Seq::empty()
    } else {
        encode_index(recs.drop_last()) + index_record(recs.last().0, recs.last().1)
    }
}

/// Where entry `i` starts in the image of `recs`.
pub open spec fn record_start(recs: Seq<(Seq<u8>, u64)>, i: int) -> int
    decreases i,
{
    if i <= 0 {
        0
    } else {
        record_start(recs, i - 1) + 9 + recs[i - 1].0.len()
    }
}

/// A key that the index format and its resynchronisation can carry: 1 to 255
/// ASCII letters or digits.
pub open spec fn index_key(k: Seq<u8>) -> bool {
    &&& 1 <= k.len() <= 255
    &&& forall|i: int| 0 <= i < k.len() ==> is_alnum(#[trigger] k[i])
}

/// Entry keys strictly ascending.
pub open spec fn entries_ascending(recs: Seq<(Seq<u8>, u64)>) -> bool {
    forall|i: int, j: int|
        0 <= i < j < recs.len() ==> bytes_lt(#[trigger] recs[i].0, #[trigger] recs[j].0)
}

/// Only true record starts look like record starts.
pub open spec fn headers_exact(idx: Seq<u8>, recs: Seq<(Seq<u8>, u64)>) -> bool {
    forall|p: int| #[trigger]
        plausible_header(idx, p) ==> exists|i: int|
            0 <= i < recs.len() && record_start(recs, i) == p
}

/// An index image that the probing search reads correctly: the image of
/// ascending entries with valid keys, in which no position inside a record
/// looks like a record start.
pub open spec fn well_formed_index(idx: Seq<u8>, recs: Seq<(Seq<u8>, u64)>) -> bool {
    &&& idx == encode_index(recs)
    &&& entries_ascending(recs)
    &&& forall|i: int| 0 <= i < recs.len() ==> index_key(#[trigger] recs[i].0)
    &&& headers_exact(idx, recs)
}

/// The data offset recorded for `key`, if any.
pub open spec fn index_lookup(recs: Seq<(Seq<u8>, u64)>, key: Seq<u8>) -> Option<u64> {
    if exists|i: int| 0 <= i < recs.len() && #[trigger] recs[i].0 == key {
        Some(recs[choose|i: int| 0 <= i < recs.len() && #[trigger] recs[i].0 == key].1)
    } else {
        None
    }
}

proof fn lemma_start_drop_last(recs: Seq<(Seq<u8>, u64)>, i: int)
    requires
        recs.len() > 0,
        0 <= i < recs.len(),
    ensures
        record_start(recs.drop_last(), i) == record_start(recs, i),
    decreases i,
{
    if i > 0 {
        lemma_start_drop_last(recs, i - 1);
    }
}

proof fn lemma_start_mono(recs: Seq<(Seq<u8>, u64)>, i: int, j: int)
    requires
        0 <= i < j,
    ensures
        0 <= record_start(recs, i) < record_start(recs, j),
    decreases j,
{
    if j - 1 > i {
        lemma_start_mono(recs, i, j - 1);
    } else {
        lemma_start_nonneg(recs, i);
    }
}

proof fn lemma_start_nonneg(recs: Seq<(Seq<u8>, u64)>, i: int)
    ensures
        0 <= record_start(recs, i),
    decreases i,
{
    if i > 0 {
        lemma_start_nonneg(recs, i - 1);
    }
}

/// The image of entries has the length of their starts, and entry `i` sits
/// at its start.
proof fn lemma_record_at(recs: Seq<(Seq<u8>, u64)>, i: int)
    requires
        0 <= i < recs.len(),
        forall|j: int| 0 <= j < recs.len() ==> (#[trigger] recs[j].0).len() <= 255,
    ensures
        encode_index(recs).len() == record_start(recs, recs.len() as int),
        ({
            let e = encode_index(recs);
            let st = record_start(recs, i);
            let kl = recs[i].0.len();
            &&& st + 9 + kl <= e.len()
            &&& e[st] == kl as u8
            &&& e.subrange(st + 1, st + 1 + kl) == recs[i].0
            &&& e.subrange(st + 1 + kl, st + 9 + kl) == spec_u64_to_le_bytes(recs[i].1)
        }),
    decreases recs.len(),
{
    vstd::bytes::lemma_auto_spec_u64_to_from_le_bytes();
    let n = recs.len() as int;
    let d = recs.drop_last();
    let e = encode_index(recs);
    lemma_encode_len(recs);
    assert(e == encode_index(d) + index_record(recs.last().0, recs.last().1));
    assert forall|j: int| 0 <= j < d.len() implies (#[trigger] d[j].0).len() <= 255 by {
        assert(d[j] == recs[j]);
    }
    if i < n - 1 {
        lemma_record_at(d, i);
        lemma_start_drop_last(recs, i);
        let st = record_start(recs, i);
        let kl = recs[i].0.len();
        assert(d[i] == recs[i]);
        assert(st + 9 + kl <= encode_index(d).len());
        lemma_start_nonneg(recs, i);
        assert(e.subrange(st + 1, st + 1 + kl) =~= encode_index(d).subrange(st + 1, st + 1 + kl));
        assert(e.subrange(st + 1 + kl, st + 9 + kl) =~= encode_index(d).subrange(
            st + 1 + kl,
            st + 9 + kl,
        ));
    } else {
        if n > 1 {
            lemma_encode_len(d);
            lemma_start_drop_last(recs, n - 1);
        }
        let st = record_start(recs, i);
        let kl = recs[i].0.len();
        assert(encode_index(d).len() == st) by {
            if n > 1 {
                assert(record_start(d, n - 1) == st);
            }
        }
        assert(e.subrange(st + 1, st + 1 + kl) =~= recs[i].0);
        assert(e.subrange(st + 1 + kl, st + 9 + kl) =~= spec_u64_to_le_bytes(recs[i].1));
    }
}

proof fn lemma_encode_len(recs: Seq<(Seq<u8>, u64)>)
    requires
        forall|j: int| 0 <= j < recs.len() ==> (#[trigger] recs[j].0).len() <= 255,
    ensures
        encode_index(recs).len() == record_start(recs, recs.len() as int),
    decreases recs.len(),
{
    vstd::bytes::lemma_auto_spec_u64_to_from_le_bytes();
    if recs.len() > 0 {
        let d = recs.drop_last();
        assert forall|j: int| 0 <= j < d.len() implies (#[trigger] d[j].0).len() <= 255 by {
            assert(d[j] == recs[j]);
        }
        lemma_encode_len(d);
        lemma_start_drop_last(recs, recs.len() - 1);
        assert(encode_index(recs) == encode_index(d) + index_record(recs.last().0, recs.last().1));
    }
}

proof fn lemma_resync_max(idx: Seq<u8>, p: int)
    requires
        0 <= p < idx.len(),
    ensures
        0 <= resync(idx, p) <= p,
        resync(idx, p) == 0 || plausible_header(idx, resync(idx, p)),
        forall|q: int| resync(idx, p) < q <= p ==> !#[trigger] plausible_header(idx, q),
    decreases p,
{
    if p > 0 && !plausible_header(idx, p) {
        lemma_resync_max(idx, p - 1);
    }
}

/// In a well-formed index, the search between the starts of entries `i` and
/// `j` finds exactly the entries in that range.
proof fn lemma_probe_range(
    idx: Seq<u8>,
    recs: Seq<(Seq<u8>, u64)>,
    key: Seq<u8>,
    i: int,
    j: int,
)
    requires
        well_formed_index(idx, recs),
        0 <= i <= j <= recs.len(),
        forall|t: int| 0 <= t < recs.len() && #[trigger] recs[t].0 == key ==> i <= t < j,
    ensures
        probe_search(idx, key, record_start(recs, i), record_start(recs, j)) == Ok::<
            Option<u64>,
            StoreError,
        >(index_lookup(recs, key)),
    decreases record_start(recs, j) - record_start(recs, i),
{
    let n = recs.len() as int;
    let left = record_start(recs, i);
    let right = record_start(recs, j);
    assert forall|t: int| 0 <= t < recs.len() implies (#[trigger] recs[t].0).len() <= 255 by {
        assert(index_key(recs[t].0));
    }
    lemma_encode_len(recs);
    lemma_start_nonneg(recs, i);
    if i == j {
        assert(!exists|t: int| 0 <= t < recs.len() && #[trigger] recs[t].0 == key);
        return;
    }
    lemma_start_mono(recs, i, j);
    if j < n {
        lemma_start_mono(recs, j, n);
    }
    assert(right <= idx.len());
    let probe = left + (right - left) / 2;
    lemma_resync_max(idx, probe);
    let mid = resync(idx, probe);
    // The probe lands on the start of some entry m with i <= m < j.
    let m: int = if mid == 0 {
        0
    } else {
        choose|m: int| 0 <= m < recs.len() && record_start(recs, m) == mid
    };
    assert(0 <= m < n && record_start(recs, m) == mid);
    lemma_record_at(recs, i);
    assert(index_key(recs[i].0));
    assert(plausible_header(idx, left)) by {
        assert forall|q: int| left + 1 <= q < left + 1 + idx[left] implies is_alnum(
            #[trigger] idx[q],
        ) by {
            let kk = recs[i].0;
            assert(idx.subrange(left + 1, left + 1 + kk.len())[q - left - 1] == idx[q]);
        }
    }
    assert(left <= mid);
    assert(i <= m) by {
        if m < i {
            lemma_start_mono(recs, m, i);
        }
    }
    assert(m < j) by {
        if m >= j {
            if m > j {
                lemma_start_mono(recs, j, m);
            }
        }
    }
    lemma_record_at(recs, m);
    let km = recs[m].0;
    let ke = mid + 1 + km.len();
    assert(idx[mid] as int == km.len());
    assert(idx.subrange(mid + 1, ke) == km);
    lemma_start_mono(recs, m, m + 1);
    assert(record_start(recs, m + 1) == ke + 8);
    if bytes_lt(key, km) {
        assert forall|t: int| 0 <= t < recs.len() && #[trigger] recs[t].0 == key implies i <= t
            < m by {
            if t > m {
                assert(bytes_lt(recs[m].0, recs[t].0));
            }
        }
        if i < m {
            lemma_start_mono(recs, i, m);
        }
        lemma_probe_range(idx, recs, key, i, m);
    } else if key == km {
        assert(ke + 8 <= idx.len()) by {
            if m + 1 < n {
                lemma_start_mono(recs, m + 1, n);
            }
        }
        assert(exists|t: int| 0 <= t < recs.len() && #[trigger] recs[t].0 == key);
        let c = choose|t: int| 0 <= t < recs.len() && #[trigger] recs[t].0 == key;
        assert(c == m) by {
            if c < m {
                assert(bytes_lt(recs[c].0, recs[m].0));
            } else if c > m {
                assert(bytes_lt(recs[m].0, recs[c].0));
            }
        }
        vstd::bytes::lemma_auto_spec_u64_to_from_le_bytes();
    } else {
        crate::keys::lemma_lt_total(key, km);
        assert forall|t: int| 0 <= t < recs.len() && #[trigger] recs[t].0 == key implies m + 1
            <= t < j by {
            if t < m {
                assert(bytes_lt(recs[t].0, recs[m].0));
                crate::keys::lemma_lt_asymmetric(key, km);
            }
        }
        assert(ke + 8 > left);
        lemma_start_mono(recs, i, m + 1);
        if m + 1 < j {
            lemma_start_mono(recs, m + 1, j);
        }
        lemma_probe_range(idx, recs, key, m + 1, j);
    }
}

/// No byte of an offset's encoding begins, inside that encoding, something
/// that looks like a record start.
pub open spec fn offset_clean(o: u64) -> bool {
    let b = spec_u64_to_le_bytes(o);
    forall|j: int|
        0 <= j < 8 && 1 <= #[trigger] b[j] && j + b[j] < 8 ==> !(forall|i: int|
            j < i <= j + b[j] ==> is_alnum(b[i]))
}

/// Offsets below 12289 are clean: only their two low bytes can be non-zero,
/// and the second reaches an ASCII digit only at 12288, whose low byte is 0.
pub proof fn lemma_small_offset_clean(o: u64)
    requires
        o < 12289,
    ensures
        offset_clean(o),
{
    vstd::bytes::spec_u64_to_le_bytes_to_open(o);
    assert(o < 12289 ==> (o >> 16) & 0xff == 0) by (bit_vector);
    assert(o < 12289 ==> (o >> 24) & 0xff == 0) by (bit_vector);
    assert(o < 12289 ==> (o >> 32) & 0xff == 0) by (bit_vector);
    assert(o < 12289 ==> (o >> 40) & 0xff == 0) by (bit_vector);
    assert(o < 12289 ==> (o >> 48) & 0xff == 0) by (bit_vector);
    assert(o < 12289 ==> (o >> 56) & 0xff == 0) by (bit_vector);
    assert(o < 12289 ==> (o >> 8) & 0xff <= 48) by (bit_vector);
    assert(o < 12289 && (o >> 8) & 0xff == 48 ==> o & 0xff == 0) by (bit_vector);
    let b = spec_u64_to_le_bytes(o);
    assert forall|j: int|
        0 <= j < 8 && 1 <= #[trigger] b[j] && j + b[j] < 8 implies !(forall|i: int|
        j < i <= j + b[j] ==> is_alnum(b[i])) by {
        if j == 0 {
            assert(!is_alnum(b[1]) || b[1] == 48);
        } else {
            assert(!is_alnum(b[j + 1]));
        }
    }
}

proof fn lemma_locate(recs: Seq<(Seq<u8>, u64)>, p: int, i: int)
    requires
        0 <= p < record_start(recs, i),
        0 <= i,
    ensures
        exists|t: int|
            0 <= t < i && record_start(recs, t) <= p < #[trigger] record_start(recs, t + 1),
    decreases i,
{
    if i > 0 {
        if p < record_start(recs, i - 1) {
            lemma_locate(recs, p, i - 1);
        } else {
            assert(record_start(recs, i - 1) <= p < record_start(recs, (i - 1) + 1));
        }
    }
}

proof fn lemma_no_false_header(recs: Seq<(Seq<u8>, u64)>, p: int, t: int)
    requires
        forall|k: int| 0 <= k < recs.len() ==> valid_key(#[trigger] recs[k].0),
        forall|k: int| 0 <= k < recs.len() ==> offset_clean(#[trigger] recs[k].1),
        0 <= t < recs.len(),
        record_start(recs, t) <= p < record_start(recs, t + 1),
        plausible_header(encode_index(recs), p),
    ensures
        p == record_start(recs, t),
{
    let e = encode_index(recs);
    let n = recs.len() as int;
    let s = record_start(recs, t);
    let key = recs[t].0;
    let kl = key.len() as int;
    let q = s + 9 + kl;
    assert forall|k: int| 0 <= k < recs.len() implies (#[trigger] recs[k].0).len() <= 255 by {
        assert(valid_key(recs[k].0));
    }
    lemma_record_at(recs, t);
    lemma_start_nonneg(recs, t);
    assert(valid_key(key));
    assert(q == record_start(recs, t + 1));
    if t + 1 < n {
        lemma_record_at(recs, t + 1);
        assert(valid_key(recs[t + 1].0));
        assert(!is_alnum(e[q]));
    } else {
        assert(q == e.len());
    }
    if p != s {
        if p <= s + kl {
            assert(e[p] == e.subrange(s + 1, s + 1 + kl)[p - s - 1]);
            assert(is_alnum(key[p - s - 1]));
            assert(e[p] >= 48);
            if t + 1 < n {
                assert(p < q <= p + e[p]);
                assert(is_alnum(e[q]));
            }
        } else {
            let j = p - s - kl - 1;
            let le = spec_u64_to_le_bytes(recs[t].1);
            assert(e[p] == e.subrange(s + 1 + kl, s + 9 + kl)[j]);
            assert(e[p] == le[j]);
            if j + le[j] < 8 {
                assert(offset_clean(recs[t].1));
                let i = choose|i: int| j < i <= j + le[j] && !is_alnum(le[i]);
                assert(e[s + 1 + kl + i] == e.subrange(s + 1 + kl, s + 9 + kl)[i]);
                assert(is_alnum(e[s + 1 + kl + i]));
            } else if t + 1 < n {
                assert(p < q <= p + e[p]);
                assert(is_alnum(e[q]));
            }
        }
    }
}

/// An index whose keys are valid and whose offsets are clean holds no false
/// record start: the probing search reads it correctly.
pub proof fn lemma_headers_exact(recs: Seq<(Seq<u8>, u64)>)
    requires
        forall|k: int| 0 <= k < recs.len() ==> valid_key(#[trigger] recs[k].0),
        forall|k: int| 0 <= k < recs.len() ==> offset_clean(#[trigger] recs[k].1),
    ensures
        headers_exact(encode_index(recs), recs),
{
    assert forall|k: int| 0 <= k < recs.len() implies (#[trigger] recs[k].0).len() <= 255 by {
        assert(valid_key(recs[k].0));
    }
    lemma_encode_len(recs);
    assert forall|p: int| #[trigger]
        plausible_header(encode_index(recs), p) implies exists|i: int|
        0 <= i < recs.len() && record_start(recs, i) == p by {
        lemma_locate(recs, p, recs.len() as int);
        let t = choose|t: int|
            0 <= t < recs.len() && record_start(recs, t) <= p < #[trigger] record_start(
                recs,
                t + 1,
            );
        lemma_no_false_header(recs, p, t);
    }
}

/// Search correctness: on a well-formed index the probing search returns
/// exactly the data offset recorded for the key, or absent.
pub proof fn lemma_find_offset_correct(idx: Seq<u8>, recs: Seq<(Seq<u8>, u64)>, key: Seq<u8>)
    requires
        well_formed_index(idx, recs),
    ensures
        probe_search(idx, key, 0, idx.len() as int) == Ok::<Option<u64>, StoreError>(
            index_lookup(recs, key),
        ),
{
    assert forall|t: int| 0 <= t < recs.len() implies (#[trigger] recs[t].0).len() <= 255 by {
        assert(index_key(recs[t].0));
    }
    lemma_encode_len(recs);
    lemma_probe_range(idx, recs, key, 0, recs.len() as int);
}

/// Where the last `/` of a path ends (0 if there is none).
pub open spec fn sep_end(p: Seq<char>) -> int
    decreases p.len(),
{
    if p.len() == 0 {
        0
    } else if p.last() == '/' {
        p.len() as int
    } else {
        sep_end(p.drop_last())
    }
}

proof fn lemma_sep_end_bounds(p: Seq<char>)
    ensures
        0 <= sep_end(p) <= p.len(),
        p.len() > 0 && p.last() != '/' ==> sep_end(p) < p.len(),
    decreases p.len(),
{
    if p.len() > 0 && p.last() != '/' {
        lemma_sep_end_bounds(p.drop_last());
    }
}

/// Where the file name of a path lies, as `Path::file_name` finds it: the
/// last component, skipping trailing separators and `.` components; none
/// where the path ends in `..` or has no component.
pub open spec fn file_name_span(p: Seq<char>) -> Option<(int, int)>
    decreases p.len(),
    via file_name_of_decreases
{
    if p.len() == 0 {
        None
    } else if p.last() == '/' {
        file_name_span(p.drop_last())
    } else {
        let c = sep_end(p);
        let seg = p.subrange(c, p.len() as int);
        if seg == seq!['.'] {
            if c == 0 {
                None
            } else {
                file_name_span(p.subrange(0, c))
            }
        } else if seg == seq!['.', '.'] {
            None
        } else {
            Some((c, p.len() as int))
        }
    }
}

/// The file name of a path, as `Path::file_name` gives it.
pub open spec fn file_name_of(p: Seq<char>) -> Option<Seq<char>> {
    match file_name_span(p) {
        None => None,
        Some((a, b)) => Some(p.subrange(a, b)),
    }
}

#[via_fn]
proof fn file_name_of_decreases(p: Seq<char>) {
    lemma_sep_end_bounds(p);
}

/// Where the last `.` of a name is (-1 if there is none).
pub open spec fn last_dot(name: Seq<char>) -> int
    decreases name.len(),
{
    if name.len() == 0 {
        -1
    } else if name.last() == '.' {
        name.len() - 1
    } else {
        last_dot(name.drop_last())
    }
}

/// The file stem of a file name, as `Path::file_stem` gives it: the name
/// up to its last `.`, or the whole name where that dot is first or absent.
pub open spec fn file_stem_of(name: Seq<char>) -> Seq<char> {
    let d = last_dot(name);
    if d <= 0 {
        name
    } else {
        name.subrange(0, d)
    }
}

/// The file stem of a path, if it has a file name.
pub open spec fn stem_of(p: Seq<char>) -> Option<Seq<char>> {
    match file_name_of(p) {
        None => None,
        Some(n) => Some(file_stem_of(n)),
    }
}

/// The data file beside an index file, as `Path::with_extension` builds
/// it: the path up to the end of its file stem, then `.sst`.
pub open spec fn sibling_data_path(p: Seq<char>) -> Option<Seq<char>> {
    match file_name_span(p) {
        None => None,
        Some((a, b)) => Some(
            p.subrange(0, a + file_stem_of(p.subrange(a, b)).len()) + ".sst"@,
        ),
    }
}

/// The character range of a path's file name.
fn file_name_bounds(p: &str) -> (r: Option<(usize, usize)>)
    ensures
        match file_name_span(p@) {
            None => r is None,
            Some(span) => r is Some && r.unwrap().0 <= r.unwrap().1 <= p@.len() && span == (
                r.unwrap().0 as int,
                r.unwrap().1 as int,
            ),
        },
{
    let n = p.unicode_len();
    let mut end = n;
    proof {
        assert(p@.subrange(0, n as int) =~= p@);
    }
    loop
        invariant
            end <= n,
            n == p@.len(),
            file_name_span(p@) == file_name_span(p@.subrange(0, end as int)),
        decreases end,
    {
        let ghost q = p@.subrange(0, end as int);
        if end == 0 {
            return None;
        }
        if p.get_char(end - 1) == '/' {
            proof {
                assert(q.drop_last() =~= p@.subrange(0, end - 1));
            }
            end = end - 1;
            continue;
        }
        let mut c = end;
        proof {
            assert(q.subrange(0, c as int) =~= q);
        }
        while c > 0 && p.get_char(c - 1) != '/'
            invariant
                c <= end <= n,
                n == p@.len(),
                q == p@.subrange(0, end as int),
                sep_end(q) == sep_end(p@.subrange(0, c as int)),
            decreases c,
        {
            proof {
                assert(p@.subrange(0, c as int).drop_last() =~= p@.subrange(0, c - 1));
            }
            c = c - 1;
        }
        proof {
            if c > 0 {
                assert(p@.subrange(0, c as int).last() == '/');
            }
            assert(q.subrange(c as int, end as int) =~= p@.subrange(c as int, end as int));
            assert(q.subrange(0, c as int) =~= p@.subrange(0, c as int));
        }
        let len = end - c;
        if len == 1 && p.get_char(c) == '.' {
            proof {
                assert(q.subrange(c as int, end as int) =~= seq!['.']);
            }
            if c == 0 {
                return None;
            }
            end = c;
            continue;
        }
        if len == 2 && p.get_char(c) == '.' && p.get_char(c + 1) == '.' {
            proof {
                assert(q.subrange(c as int, end as int) =~= seq!['.', '.']);
            }
            return None;
        }
        proof {
            let seg = q.subrange(c as int, end as int);
            if seg =~= seq!['.'] {
                assert(seg[0] == p@[c as int]);
            }
            if seg =~= seq!['.', '.'] {
                assert(seg[0] == p@[c as int]);
                assert(seg[1] == p@[c + 1]);
            }
        }
        return Some((c, end));
    }
}

/// A segment: its index file and its data file.
pub struct IDX {
    pub path: String,
    pub sst: SST,
}

/// A cursor over an index image, read one record at a time.
pub struct IDXIter {
    pub position: usize,
}

/// What `set_key` appended.
#[derive(Debug)]
pub struct IDXKey {
    pub key_len: u8,
    pub key: Vec<u8>,
    pub offset: u64,
}

/// An entry read back from a segment.
#[derive(Debug)]
pub struct IDXValue {
    pub key: Vec<u8>,
    pub value: Vec<u8>,
}

impl IDX {
    /// Appends an entry to a segment's images: the data record to the data
    /// image, then an index record pointing at it.
    pub fn append_entry(idx: &mut Vec<u8>, data: &mut Vec<u8>, key: &[u8], value: &[u8]) -> (r:
        Result<u64, StoreError>)
        ensures
            !valid_key(key@) ==> r == Err::<u64, StoreError>(StoreError::InvalidKey),
            valid_key(key@) && !record_fits(old(idx)@.len() as int, old(data)@.len() as int, value@)
                ==> r == Err::<u64, StoreError>(StoreError::Io),
            r is Err ==> final(idx)@ == old(idx)@ && final(data)@ == old(data)@,
            valid_key(key@) && record_fits(old(idx)@.len() as int, old(data)@.len() as int, value@)
                ==> {
                &&& r == Ok::<u64, StoreError>(old(data)@.len() as u64)
                &&& final(data)@ == old(data)@ + data_record(key@, value@)
                &&& final(idx)@ == old(idx)@ + index_record(key@, old(data)@.len() as u64)
            },
    {
        if key.len() == 0 || key.len() > crate::keys::MAX_KEY_LEN || !all_alnum(key) {
            return Err(StoreError::InvalidKey);
        }
        if value.len() > u32::MAX as usize || data.len() > usize::MAX - 15 || usize::MAX - 15
            - data.len() < value.len() || idx.len() > usize::MAX - 19 {
            return Err(StoreError::Io);
        }
        let offset = SST::set(data, key, value);
        let ghost start = idx@;
        idx.push(key.len() as u8);
        let mut k = slice_to_vec(key);
        idx.append(&mut k);
        let mut o = u64_to_le_bytes(offset);
        idx.append(&mut o);
        assert(idx@ =~= start + index_record(key@, offset));
        Ok(offset)
    }

    /// Appends `key` and `value` to a segment's images.
    pub fn set_key(idx: &mut Vec<u8>, data: &mut Vec<u8>, key: &str, value: &str) -> (r: Result<
        IDXKey,
        StoreError,
    >)
        ensures
            !valid_key(key.spec_bytes()) ==> r == Err::<IDXKey, StoreError>(StoreError::InvalidKey),
            valid_key(key.spec_bytes()) && !record_fits(
                old(idx)@.len() as int,
                old(data)@.len() as int,
                key_bytes(value@),
            ) ==> r == Err::<IDXKey, StoreError>(StoreError::Io),
            r is Err ==> final(idx)@ == old(idx)@ && final(data)@ == old(data)@,
            valid_key(key.spec_bytes()) && record_fits(
                old(idx)@.len() as int,
                old(data)@.len() as int,
                key_bytes(value@),
            ) ==> {
                &&& r is Ok
                &&& r.unwrap().key@ == key.spec_bytes()
                &&& r.unwrap().key_len as int == key.spec_bytes().len()
                &&& r.unwrap().offset as int == old(data)@.len()
                &&& final(data)@ == old(data)@ + data_record(key.spec_bytes(), key_bytes(value@))
                &&& final(idx)@ == old(idx)@ + index_record(
                    key.spec_bytes(),
                    old(data)@.len() as u64,
                )
            },
    {
        let kb = key.as_bytes();
        let vb = value.as_bytes();
        match Self::append_entry(idx, data, kb, vb) {
            Ok(offset) => Ok(IDXKey { key_len: kb.len() as u8, key: slice_to_vec(kb), offset }),
            Err(e) => Err(e),
        }
    }

    /// Writes entries, in order, as the images of a new segment.
    pub fn write_segment(es: &Vec<IDXValue>) -> (r: Result<Segment, StoreError>)
        ensures
            r is Ok <==> all_keys_valid(values_view(es@)) && all_records_fit(values_view(es@)),
            r is Ok ==> (r.unwrap().index@, r.unwrap().data@) == segment_images(
                values_view(es@),
            ),
    {
        let ghost vs = values_view(es@);
        let mut idx: Vec<u8> = Vec::new();
        let mut data: Vec<u8> = Vec::new();
        let mut i: usize = 0;
        while i < es.len()
            invariant
                i <= es@.len(),
                vs == values_view(es@),
                (idx@, data@) == segment_images(vs.take(i as int)),
                all_keys_valid(vs.take(i as int)),
                all_records_fit(vs.take(i as int)),
            decreases es@.len() - i,
        {
            let ghost before = (idx@, data@);
            proof {
                assert(vs[i as int] == (es@[i as int].key@, es@[i as int].value@));
            }
            match Self::append_entry(&mut idx, &mut data, es[i].key.as_slice(), es[i].value.as_slice()) {
                Ok(_) => {},
                Err(e) => {
                    proof {
                        if valid_key(vs[i as int].0) {
                            assert(!record_fits(before.0.len() as int, before.1.len() as int, vs[i as int].1));
                            assert(!all_records_fit(vs)) by {
                                assert(vs.take(i as int) == vs.take(i as int));
                            }
                        } else {
                            assert(!all_keys_valid(vs));
                        }
                    }
                    return Err(e);
                },
            }
            proof {
                let t = vs.take(i as int + 1);
                assert(t.drop_last() =~= vs.take(i as int));
                assert(t.last() == vs[i as int]);
                assert(all_keys_valid(t)) by {
                    assert forall|j: int| 0 <= j < t.len() implies valid_key(#[trigger] t[j].0) by {
                        if j < i {
                            assert(t[j] == vs.take(i as int)[j]);
                        }
                    }
                }
                assert(all_records_fit(t)) by {
                    assert forall|j: int| 0 <= j < t.len() implies record_fits(
                        (#[trigger] segment_images(t.take(j))).0.len() as int,
                        segment_images(t.take(j)).1.len() as int,
                        t[j].1,
                    ) by {
                        assert(t.take(j) =~= vs.take(j));
                        if j < i {
                            assert(vs.take(i as int).take(j) =~= vs.take(j));
                            assert(t[j] == vs.take(i as int)[j]);
                        } else {
                            assert(vs.take(j) =~= vs.take(i as int));
                        }
                    }
                }
            }
            i = i + 1;
        }
        proof {
            assert(vs.take(i as int) =~= vs);
        }
        Ok(Segment { index: idx, data })
    }

    /// Writes the memtable, in key order, as the images of a new segment.
    pub fn fill_from_avl(tree: &AVLTree) -> (r: Result<(Vec<u8>, Vec<u8>), StoreError>)
        requires
            tree.wf(),
        ensures
            r is Ok <==> all_keys_valid(entry_bytes(entries_of(tree.root))) && all_records_fit(
                entry_bytes(entries_of(tree.root)),
            ),
            r is Ok ==> (r.unwrap().0@, r.unwrap().1@) == segment_images(
                entry_bytes(entries_of(tree.root)),
            ),
            r is Err ==> r == Err::<(Vec<u8>, Vec<u8>), StoreError>(StoreError::InvalidKey) || r
                == Err::<(Vec<u8>, Vec<u8>), StoreError>(StoreError::Io),
    {
        let entries = tree.in_order();
        let ghost es = entry_bytes(entries_of(tree.root));
        let mut idx: Vec<u8> = Vec::new();
        let mut data: Vec<u8> = Vec::new();
        let mut i: usize = 0;
        while i < entries.len()
            invariant
                i <= entries@.len(),
                es.len() == entries@.len(),
                crate::avl::pairs_view(entries@) == entries_of(tree.root),
                es == entry_bytes(entries_of(tree.root)),
                (idx@, data@) == segment_images(es.take(i as int)),
                all_keys_valid(es.take(i as int)),
                all_records_fit(es.take(i as int)),
            decreases entries@.len() - i,
        {
            let ghost before = (idx@, data@);
            proof {
                assert(crate::avl::pairs_view(entries@)[i as int] == (entries@[i as int].0@, entries@[i as int].1@));
                assert(es[i as int] == (key_bytes(entries@[i as int].0@), key_bytes(entries@[i as int].1@)));
            }
            match Self::set_key(&mut idx, &mut data, entries[i].0.as_str(), entries[i].1.as_str()) {
                Ok(_) => {},
                Err(e) => {
                    proof {
                        if valid_key(es[i as int].0) {
                            assert(!record_fits(before.0.len() as int, before.1.len() as int, es[i as int].1));
                            assert(!all_records_fit(es)) by {
                                assert(es.take(i as int) == es.take(i as int));
                            }
                        } else {
                            assert(!all_keys_valid(es));
                        }
                    }
                    return Err(e);
                },
            }
            proof {
                let t = es.take(i as int + 1);
                assert(t.drop_last() =~= es.take(i as int));
                assert(t.last() == es[i as int]);
                assert(all_keys_valid(t)) by {
                    assert forall|j: int| 0 <= j < t.len() implies valid_key(#[trigger] t[j].0) by {
                        if j < i {
                            assert(t[j] == es.take(i as int)[j]);
                        }
                    }
                }
                assert(all_records_fit(t)) by {
                    assert forall|j: int| 0 <= j < t.len() implies record_fits(
                        (#[trigger] segment_images(t.take(j))).0.len() as int,
                        segment_images(t.take(j)).1.len() as int,
                        t[j].1,
                    ) by {
                        assert(t.take(j) =~= es.take(j));
                        if j < i {
                            assert(es.take(i as int).take(j) =~= es.take(j));
                            assert(t[j] == es.take(i as int)[j]);
                        } else {
                            assert(es.take(j) =~= es.take(i as int));
                        }
                    }
                }
            }
            i = i + 1;
        }
        proof {
            assert(es.take(i as int) =~= es);
        }
        Ok((idx, data))
    }

    /// Reads every record of an index image in file order, each with the
    /// value that its offset leads to in the data image.
    pub fn iter(idx: &[u8], data: &[u8]) -> (r: Result<Vec<IDXValue>, StoreError>)
        ensures
            match read_all(scan_from(idx@, 0), data@) {
                Ok(es) => r is Ok && values_view(r.unwrap()@) == es,
                Err(e) => r == Err::<Vec<IDXValue>, StoreError>(e),
            },
    {
        let len = idx.len();
        let mut out: Vec<IDXValue> = Vec::new();
        let mut it = IDXIter::new();
        let ghost mut seen: Seq<(Seq<u8>, u64)> = Seq::empty();
        proof {
            assert(values_view(out@) =~= Seq::<(Seq<u8>, Seq<u8>)>::empty());
            assert(scan_from(idx@, 0) =~= seen + scan_from(idx@, 0));
        }
        loop
            invariant
                it.position <= len,
                len == idx@.len(),
                scan_from(idx@, 0) == seen + scan_from(idx@, it.position as int),
                read_all(seen, data@) == Ok::<Seq<(Seq<u8>, Seq<u8>)>, StoreError>(
                    values_view(out@),
                ),
            decreases len - it.position,
        {
            let ghost before = it.position;
            let ghost rest = scan_from(idx@, before as int);
            match it.next(idx, data) {
                None => {
                    proof {
                        assert(seen + rest =~= seen);
                    }
                    return Ok(out);
                },
                Some(Ok(v)) => {
                    let ghost rec = rest[0];
                    let ghost prev = out@;
                    proof {
                        assert(seen + rest =~= seen.push(rec) + scan_from(idx@, it.position as int));
                        assert(seen.push(rec).drop_last() =~= seen);
                        let kl = idx@[before as int] as int;
                        assert(rec.0.len() == kl);
                    }
                    out.push(v);
                    proof {
                        assert(values_view(out@) =~= values_view(prev).push(
                            (rec.0, values_view(out@).last().1),
                        ));
                        seen = seen.push(rec);
                    }
                },
                Some(Err(e)) => {
                    proof {
                        let rec = rest[0];
                        assert(seen.push(rec).drop_last() =~= seen);
                        lemma_read_all_error(seen.push(rec), scan_from(idx@, it.position as int), data@);
                        assert(seen + rest =~= seen.push(rec) + scan_from(idx@, it.position as int));
                    }
                    return Err(e);
                },
            }
        }
    }

    /// Looks `key` up in one segment. Finding a stored key relies on the
    /// same condition as `find_offset`: no false record start in the index.
    pub fn get_value(idx: &[u8], data: &[u8], key: &str) -> (r: Result<IDXValue, StoreError>)
        ensures
            !valid_key(key.spec_bytes()) ==> r == Err::<IDXValue, StoreError>(
                StoreError::InvalidKey,
            ),
            valid_key(key.spec_bytes()) ==> match segment_get(idx@, data@, key.spec_bytes()) {
                Ok(Some(v)) => r is Ok && r.unwrap().key@ == key.spec_bytes() && r.unwrap().value@
                    == v,
                Ok(None) => r == Err::<IDXValue, StoreError>(StoreError::NotFound),
                Err(e) => r == Err::<IDXValue, StoreError>(e),
            },
    {
        if !is_valid_key(key) {
            return Err(StoreError::InvalidKey);
        }
        let kb = key.as_bytes();
        match Self::find_offset(idx, kb) {
            Err(e) => Err(e),
            Ok(None) => Err(StoreError::NotFound),
            Ok(Some(offset)) => match SST::get(data, kb, offset) {
                Ok(value) => Ok(IDXValue { key: slice_to_vec(kb), value }),
                Err(StoreError::Corruption) => Err(StoreError::NotFound),
                Err(e) => Err(e),
            },
        }
    }

    /// Looks `key` up in segments ordered newest first.
    pub fn search_key_in_all_files(segments: &Vec<Segment>, key: &str) -> (r: Result<
        IDXValue,
        StoreError,
    >)
        ensures
            !valid_key(key.spec_bytes()) ==> r == Err::<IDXValue, StoreError>(
                StoreError::InvalidKey,
            ),
            valid_key(key.spec_bytes()) ==> match segments_get(
                segments_view(segments@),
                key.spec_bytes(),
            ) {
                Ok(Some(v)) => r is Ok && r.unwrap().key@ == key.spec_bytes() && r.unwrap().value@
                    == v,
                Ok(None) => r == Err::<IDXValue, StoreError>(StoreError::NotFound),
                Err(e) => r == Err::<IDXValue, StoreError>(e),
            },
    {
        if !is_valid_key(key) {
            return Err(StoreError::InvalidKey);
        }
        let ghost kb = key.spec_bytes();
        let ghost all = segments_view(segments@);
        let mut i: usize = 0;
        proof {
            assert(all.skip(0) =~= all);
        }
        while i < segments.len()
            invariant
                i <= segments@.len(),
                all == segments_view(segments@),
                valid_key(kb),
                kb == key.spec_bytes(),
                segments_get(all, kb) == segments_get(all.skip(i as int), kb),
            decreases segments@.len() - i,
        {
            proof {
                assert(all[i as int] == (segments@[i as int].index@, segments@[i as int].data@));
                assert(all.skip(i as int)[0] == all[i as int]);
                assert(all.skip(i as int).len() > 0);
                assert(all.skip(i as int).drop_first() =~= all.skip(i as int + 1));
            }
            match Self::get_value(segments[i].index.as_slice(), segments[i].data.as_slice(), key) {
                Ok(v) => {
                    return Ok(v);
                },
                Err(StoreError::NotFound) => {
                    proof {
                        lemma_probe_error_is_io(all[i as int].0, kb, 0, all[i as int].0.len() as int);
                        assert(segment_get(all[i as int].0, all[i as int].1, kb) == Ok::<
                            Option<Seq<u8>>,
                            StoreError,
                        >(None));
                        assert(segments_get(all.skip(i as int), kb) == segments_get(
                            all.skip(i as int + 1),
                            kb,
                        ));
                    }
                },
                Err(e) => {
                    return Err(e);
                },
            }
            i = i + 1;
        }
        proof {
            assert(all.skip(i as int) =~= Seq::<(Seq<u8>, Seq<u8>)>::empty());
        }
        Err(StoreError::NotFound)
    }

    /// Merges two ascending entry lists into one ascending list; where both
    /// hold a key, the entry of `newer` is kept.
    pub fn merge_entries(older: &Vec<IDXValue>, newer: &Vec<IDXValue>) -> (r: Vec<IDXValue>)
        requires
            ascending(values_view(older@)),
            ascending(values_view(newer@)),
        ensures
            ascending(values_view(r@)),
            entries_map(values_view(r@)) == entries_map(values_view(older@)).union_prefer_right(
                entries_map(values_view(newer@)),
            ),
    {
        let ghost vo = values_view(older@);
        let ghost vn = values_view(newer@);
        let mut out: Vec<IDXValue> = Vec::new();
        let mut i: usize = 0;
        let mut j: usize = 0;
        proof {
            assert(vo.take(0) =~= Seq::<(Seq<u8>, Seq<u8>)>::empty());
            assert(vn.take(0) =~= Seq::<(Seq<u8>, Seq<u8>)>::empty());
            assert(values_view(out@) =~= Seq::<(Seq<u8>, Seq<u8>)>::empty());
            assert(entries_map(values_view(out@)) =~= entries_map(vo.take(0)).union_prefer_right(
                entries_map(vn.take(0)),
            ));
        }
        while i < older.len() || j < newer.len()
            invariant
                i <= vo.len(),
                j <= vn.len(),
                vo == values_view(older@),
                vn == values_view(newer@),
                ascending(vo),
                ascending(vn),
                merge_state(values_view(out@), vo, vn, i as int, j as int),
            decreases vo.len() + vn.len() - i - j,
        {
            let ghost before = values_view(out@);
            let take_older: bool;
            let take_newer: bool;
            if i < older.len() && j < newer.len() {
                proof {
                    assert(vo[i as int] == (older@[i as int].key@, older@[i as int].value@));
                    assert(vn[j as int] == (newer@[j as int].key@, newer@[j as int].value@));
                }
                match compare_bytes(older[i].key.as_slice(), newer[j].key.as_slice()) {
                    Ordering::Less => {
                        take_older = true;
                        take_newer = false;
                    },
                    Ordering::Equal => {
                        take_older = true;
                        take_newer = true;
                    },
                    Ordering::Greater => {
                        take_older = false;
                        take_newer = true;
                    },
                }
            } else if i < older.len() {
                take_older = true;
                take_newer = false;
            } else {
                take_older = false;
                take_newer = true;
            }
            let ghost x: (Seq<u8>, Seq<u8>);
            if take_newer {
                proof {
                    x = vn[j as int];
                    assert(vn[j as int] == (newer@[j as int].key@, newer@[j as int].value@));
                }
                out.push(
                    IDXValue {
                        key: slice_to_vec(newer[j].key.as_slice()),
                        value: slice_to_vec(newer[j].value.as_slice()),
                    },
                );
            } else {
                proof {
                    x = vo[i as int];
                    assert(vo[i as int] == (older@[i as int].key@, older@[i as int].value@));
                }
                out.push(
                    IDXValue {
                        key: slice_to_vec(older[i].key.as_slice()),
                        value: slice_to_vec(older[i].value.as_slice()),
                    },
                );
            }
            proof {
                assert(values_view(out@) =~= before.push(x));
                lemma_merge_step(before, vo, vn, i as int, j as int, take_older, take_newer, x);
            }
            if take_older {
                i = i + 1;
            }
            if take_newer {
                j = j + 1;
            }
        }
        proof {
            assert(vo.take(i as int) =~= vo);
            assert(vn.take(j as int) =~= vn);
        }
        out
    }

    /// Whether the keys of entries read back ascend strictly.
    pub fn is_ascending(es: &Vec<IDXValue>) -> (r: bool)
        ensures
            r == ascending(values_view(es@)),
    {
        let ghost vs = values_view(es@);
        if es.len() == 0 {
            return true;
        }
        let mut i: usize = 1;
        while i < es.len()
            invariant
                1 <= i <= es@.len(),
                vs == values_view(es@),
                ascending(vs.take(i as int)),
            decreases es@.len() - i,
        {
            proof {
                assert(vs[i as int - 1] == (es@[i as int - 1].key@, es@[i as int - 1].value@));
                assert(vs[i as int] == (es@[i as int].key@, es@[i as int].value@));
            }
            match compare_bytes(es[i - 1].key.as_slice(), es[i].key.as_slice()) {
                Ordering::Less => {},
                _ => {
                    proof {
                        assert(!bytes_lt(vs[i as int - 1].0, vs[i as int].0));
                    }
                    return false;
                },
            }
            proof {
                let t = vs.take(i as int + 1);
                assert forall|p: int, q: int| 0 <= p < q < t.len() implies bytes_lt(
                    #[trigger] t[p].0,
                    #[trigger] t[q].0,
                ) by {
                    if q == i {
                        if p < i - 1 {
                            assert(bytes_lt(vs.take(i as int)[p].0, vs.take(i as int)[i - 1].0));
                        }
                    } else {
                        assert(t[p] == vs.take(i as int)[p] && t[q] == vs.take(i as int)[q]);
                    }
                }
            }
            i = i + 1;
        }
        proof {
            assert(vs.take(i as int) =~= vs);
        }
        true
    }

    /// Merges two segments into the images of one: every entry of both, in
    /// ascending key order, the newer segment's winning on a shared key.
    pub fn compaction(older: &Segment, newer: &Segment) -> (r: Result<Segment, StoreError>)
        ensures
            ({
                let eo = segment_entries(older.index@, older.data@);
                let en = segment_entries(newer.index@, newer.data@);
                &&& r is Ok <==> {
                    &&& eo is Ok
                    &&& en is Ok
                    &&& ascending(eo->Ok_0)
                    &&& ascending(en->Ok_0)
                    &&& all_keys_valid(merge_of(eo->Ok_0, en->Ok_0))
                    &&& all_records_fit(merge_of(eo->Ok_0, en->Ok_0))
                }
                &&& r is Ok ==> {
                    &&& ascending(merge_of(eo->Ok_0, en->Ok_0))
                    &&& entries_map(merge_of(eo->Ok_0, en->Ok_0)) == entries_map(
                        eo->Ok_0,
                    ).union_prefer_right(entries_map(en->Ok_0))
                    &&& (r.unwrap().index@, r.unwrap().data@) == segment_images(
                        merge_of(eo->Ok_0, en->Ok_0),
                    )
                }
                &&& r is Err ==> r == Err::<Segment, StoreError>(StoreError::Io) || r == Err::<
                    Segment,
                    StoreError,
                >(StoreError::Corruption)
            }),
    {
        let a = match Self::iter(older.index.as_slice(), older.data.as_slice()) {
            Ok(v) => v,
            Err(StoreError::Io) => {
                return Err(StoreError::Io);
            },
            Err(_) => {
                return Err(StoreError::Corruption);
            },
        };
        let b = match Self::iter(newer.index.as_slice(), newer.data.as_slice()) {
            Ok(v) => v,
            Err(StoreError::Io) => {
                return Err(StoreError::Io);
            },
            Err(_) => {
                return Err(StoreError::Corruption);
            },
        };
        if !Self::is_ascending(&a) || !Self::is_ascending(&b) {
            return Err(StoreError::Corruption);
        }
        let merged = Self::merge_entries(&a, &b);
        proof {
            let m = values_view(merged@);
            let eo = values_view(a@);
            let en = values_view(b@);
            let c = merge_of(eo, en);
            assert(ascending(c) && entries_map(c) == entries_map(eo).union_prefer_right(
                entries_map(en),
            ));
            lemma_ascending_unique(m, c);
        }
        match Self::write_segment(&merged) {
            Ok(seg) => Ok(seg),
            Err(StoreError::Io) => Err(StoreError::Io),
            Err(_) => Err(StoreError::Corruption),
        }
    }

    /// The segment named by `stem`: `stem.idx` and `stem.sst`.
    pub fn new(stem: &str) -> (r: IDX)
        ensures
            r.path@ == stem@ + ".idx"@,
            r.sst.path@ == stem@ + ".sst"@,
    {
        let sst = SST::new(stem.to_owned().concat(".sst"));
        IDX { path: stem.to_owned().concat(".idx"), sst }
    }

    /// The segment whose index file is `idx_file`: its data file is the
    /// sibling with the same stem, `idx_file` with the extension of its
    /// file name replaced by `sst`. Fails only where the path has no file
    /// name.
    pub fn from(idx_file: &str) -> (r: Result<IDX, StoreError>)
        ensures
            r is Ok <==> stem_of(idx_file@) is Some,
            r is Ok ==> r.unwrap().path@ == idx_file@,
            r is Ok ==> r.unwrap().sst.path@ == sibling_data_path(idx_file@).unwrap(),
            r is Err ==> r == Err::<IDX, StoreError>(StoreError::Io),
    {
        match file_name_bounds(idx_file) {
            None => Err(StoreError::Io),
            Some((c, end)) => {
                let ghost seg = idx_file@.subrange(c as int, end as int);
                let mut d = end;
                proof {
                    assert(seg.subrange(0, (d - c) as int) =~= seg);
                }
                while d > c && idx_file.get_char(d - 1) != '.'
                    invariant
                        c <= d <= end <= idx_file@.len(),
                        seg == idx_file@.subrange(c as int, end as int),
                        last_dot(seg) == last_dot(seg.subrange(0, (d - c) as int)),
                    decreases d,
                {
                    proof {
                        assert(seg.subrange(0, (d - c) as int).drop_last() =~= seg.subrange(
                            0,
                            (d - 1 - c) as int,
                        ));
                    }
                    d = d - 1;
                }
                proof {
                    if d > c {
                        assert(seg.subrange(0, (d - c) as int).last() == '.');
                    } else {
                        assert(seg.subrange(0, 0) =~= Seq::<char>::empty());
                    }
                }
                let stem_end = if d - c > 1 {
                    d - 1
                } else {
                    end
                };
                let stem = idx_file.substring_char(0, stem_end);
                proof {
                    if d - c > 1 {
                        assert(file_stem_of(seg) =~= seg.subrange(0, (d - 1 - c) as int));
                    } else {
                        assert(file_stem_of(seg) == seg);
                    }
                    assert(stem_end == c + file_stem_of(seg).len());
                }
                Ok(IDX { path: idx_file.to_owned(), sst: SST::new(stem.to_owned().concat(".sst")) })
            },
        }
    }

    /// Tests whether the bytes at `p` look like the start of a record.
    fn is_plausible_header(idx: &[u8], p: usize) -> (r: bool)
        requires
            p < idx@.len(),
        ensures
            r == plausible_header(idx@, p as int),
    {
        let kl = idx[p] as usize;
        if kl < 1 || idx.len() - p - 1 < kl {
            return false;
        }
        let key = slice_subrange(idx, p + 1, p + 1 + kl);
        let r = all_alnum(key);
        proof {
            if r {
                assert forall|i: int| p + 1 <= i < p + 1 + kl implies is_alnum(
                    #[trigger] idx@[i],
                ) by {
                    assert(idx@[i] == key@[i - p - 1]);
                }
            } else {
                let j = choose|j: int| 0 <= j < key@.len() && !is_alnum(#[trigger] key@[j]);
                assert(idx@[p + 1 + j] == key@[j]);
            }
        }
        r
    }

    /// Walks back from `mid` to the nearest plausible record start, or 0.
    fn find_mid(idx: &[u8], mid: usize) -> (r: usize)
        requires
            mid < idx@.len(),
        ensures
            r as int == resync(idx@, mid as int),
    {
        let mut p = mid;
        while p > 0
            invariant
                p <= mid < idx@.len(),
                resync(idx@, p as int) == resync(idx@, mid as int),
            decreases p,
        {
            if Self::is_plausible_header(idx, p) {
                return p;
            }
            p = p - 1;
        }
        0
    }

    /// Finds the data offset recorded for `key` by bisecting byte positions.
    /// The result is exactly `probe_search`; it is the recorded offset where
    /// no position inside a record looks like a record start
    /// (`lemma_find_offset_correct`), which holds whenever every recorded
    /// offset is clean, in particular below 12289 (`lemma_headers_exact`,
    /// `lemma_small_offset_clean`). Larger data files can break that
    /// condition.
    pub fn find_offset(idx: &[u8], key: &[u8]) -> (r: Result<Option<u64>, StoreError>)
        ensures
            r == probe_search(idx@, key@, 0, idx@.len() as int),
    {
        let len = idx.len();
        let mut left: usize = 0;
        let mut right: usize = len;
        while left < right
            invariant
                left <= len,
                right <= len,
                len == idx@.len(),
                probe_search(idx@, key@, left as int, right as int) == probe_search(
                    idx@,
                    key@,
                    0,
                    len as int,
                ),
            decreases (if right > left {
                right - left
            } else {
                0
            }),
        {
            let probe = left + (right - left) / 2;
            let mid = Self::find_mid(idx, probe);
            proof {
                lemma_resync_bounds(idx@, probe as int);
            }
            let kl = idx[mid] as usize;
            if len - mid - 1 < kl {
                return Ok(None);
            }
            let ke = mid + 1 + kl;
            let found = slice_subrange(idx, mid + 1, ke);
            match compare_bytes(key, found) {
                Ordering::Less => {
                    right = mid;
                },
                Ordering::Equal => {
                    if len - ke < 8 {
                        return Err(StoreError::Io);
                    }
                    return Ok(Some(u64_from_le_bytes(slice_subrange(idx, ke, ke + 8))));
                },
                Ordering::Greater => {
                    if len - ke < 8 || ke + 8 <= left {
                        proof {
                            if ke + 8 > left {
                                assert(probe_search(idx@, key@, ke + 8, right as int) == Ok::<
                                    Option<u64>,
                                    StoreError,
                                >(None));
                            }
                        }
                        return Ok(None);
                    }
                    left = ke + 8;
                },
            }
        }
        Ok(None)
    }
}

impl IDXIter {
    /// A cursor at the start of an index image.
    pub fn new() -> (r: IDXIter)
        ensures
            r.position == 0,
    {
        IDXIter { position: 0 }
    }

    /// Reads the record at the cursor with its value and moves past it;
    /// `None` where no whole record is left.
    pub fn next(&mut self, idx: &[u8], data: &[u8]) -> (r: Option<Result<IDXValue, StoreError>>)
        ensures
            scan_from(idx@, old(self).position as int).len() == 0 ==> r is None
                && final(self).position == old(self).position,
            scan_from(idx@, old(self).position as int).len() > 0 ==> ({
                let rec = scan_from(idx@, old(self).position as int)[0];
                &&& r is Some
                &&& final(self).position == old(self).position + 9 + rec.0.len()
                &&& scan_from(idx@, old(self).position as int) == seq![rec] + scan_from(
                    idx@,
                    final(self).position as int,
                )
                &&& match read_data(data@, rec.0, rec.1 as int) {
                    Ok(v) => r.unwrap() is Ok && r.unwrap().unwrap().key@ == rec.0
                        && r.unwrap().unwrap().value@ == v,
                    Err(e) => r.unwrap() == Err::<IDXValue, StoreError>(e),
                }
            }),
    {
        let len = idx.len();
        let p = self.position;
        if p >= len {
            return None;
        }
        let kl = idx[p] as usize;
        if len - p - 1 < kl || len - p - 1 - kl < 8 {
            return None;
        }
        let ke = p + 1 + kl;
        let key = slice_subrange(idx, p + 1, ke);
        let offset = u64_from_le_bytes(slice_subrange(idx, ke, ke + 8));
        self.position = ke + 8;
        match SST::get(data, key, offset) {
            Ok(value) => Some(Ok(IDXValue { key: slice_to_vec(key), value })),
            Err(e) => Some(Err(e)),
        }
    }
}

} // verus!
