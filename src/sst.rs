//! Segment data files: `(key_len: u8, key, value_len: u32 LE, value)`
//! records, addressed by the offset of their first byte.
use crate::error::StoreError;
use crate::keys::compare_bytes;
use std::cmp::Ordering;
use vstd::bytes::{
    lemma_auto_spec_u32_to_from_le_bytes, spec_u32_from_le_bytes, spec_u32_to_le_bytes,
    u32_from_le_bytes, u32_to_le_bytes,
};
use vstd::prelude::*;
use vstd::slice::{slice_subrange, slice_to_vec};

verus! {

/// The encoding of one data record.
pub open spec fn data_record(key: Seq<u8>, value: Seq<u8>) -> Seq<u8> {
    seq![key.len() as u8] + key + spec_u32_to_le_bytes(value.len() as u32) + value
}

/// What reading the record at `offset` for `key` gives: its value, `Io`
/// where the bytes end before the record does, `Corruption` where the record
/// holds another key (checked before the value is read).
pub open spec fn read_data(data: Seq<u8>, key: Seq<u8>, offset: int) -> Result<
    Seq<u8>,
    StoreError,
> {
    if offset < 0 || offset + 1 > data.len() {
        Err(StoreError::Io)
    } else {
        let ke = offset + 1 + data[offset] as int;
        if ke > data.len() {
            Err(StoreError::Io)
        } else if data.subrange(offset + 1, ke) != key {
            Err(StoreError::Corruption)
        } else if ke + 4 > data.len() {
            Err(StoreError::Io)
        } else {
            let ve = ke + 4 + spec_u32_from_le_bytes(data.subrange(ke, ke + 4)) as int;
            if ve > data.len() {
                Err(StoreError::Io)
            } else {
                Ok(data.subrange(ke + 4, ve))
            }
        }
    }
}

/// A record appended after any bytes reads back whole.
pub proof fn lemma_read_data_record(pre: Seq<u8>, key: Seq<u8>, value: Seq<u8>, post: Seq<u8>)
    requires
        key.len() <= 255,
        value.len() <= u32::MAX,
    ensures
        read_data(pre + data_record(key, value) + post, key, pre.len() as int) == Ok::<
            Seq<u8>,
            StoreError,
        >(value),
{
    lemma_auto_spec_u32_to_from_le_bytes();
    let d = pre + data_record(key, value) + post;
    let o = pre.len() as int;
    let ke = o + 1 + key.len();
    let lenb = spec_u32_to_le_bytes(value.len() as u32);
    assert(d[o] == key.len() as u8);
    assert(d.subrange(o + 1, ke) =~= key);
    assert(d.subrange(ke, ke + 4) =~= lenb);
    assert(d.subrange(ke + 4, ke + 4 + value.len()) =~= value);
}

/// A segment's data file.
pub struct SST {
    pub path: String,
}

impl SST {
    /// The data file at `path`.
    pub fn new(path: String) -> (r: SST)
        ensures
            r.path == path,
    {
        SST { path }
    }

    /// Appends a record to a data file image and returns the offset at which
    /// it starts.
    pub fn set(data: &mut Vec<u8>, key: &[u8], value: &[u8]) -> (r: u64)
        requires
            key@.len() <= 255,
            value@.len() <= u32::MAX,
            old(data)@.len() + 5 + key@.len() + value@.len() <= usize::MAX,
        ensures
            r as int == old(data)@.len(),
            final(data)@ == old(data)@ + data_record(key@, value@),
    {
        let offset = data.len() as u64;
        let ghost start = data@;
        data.push(key.len() as u8);
        let mut k = slice_to_vec(key);
        data.append(&mut k);
        let mut vl = u32_to_le_bytes(value.len() as u32);
        data.append(&mut vl);
        let mut v = slice_to_vec(value);
        data.append(&mut v);
        assert(data@ =~= start + data_record(key@, value@));
        offset
    }

    /// Reads the value of the record at `offset`, after checking that the
    /// record holds `key`.
    pub fn get(data: &[u8], key: &[u8], offset: u64) -> (r: Result<Vec<u8>, StoreError>)
        ensures
            crate::error::bytes_result(r) == read_data(data@, key@, offset as int),
    {
        let len = data.len();
        if offset >= len as u64 {
            return Err(StoreError::Io);
        }
        let o = offset as usize;
        let kl = data[o] as usize;
        if len - o - 1 < kl {
            return Err(StoreError::Io);
        }
        let ke = o + 1 + kl;
        let found = slice_subrange(data, o + 1, ke);
        match compare_bytes(found, key) {
            Ordering::Equal => {},
            _ => {
                return Err(StoreError::Corruption);
            },
        }
        if len - ke < 4 {
            return Err(StoreError::Io);
        }
        let vl = u32_from_le_bytes(slice_subrange(data, ke, ke + 4)) as usize;
        if len - ke - 4 < vl {
            return Err(StoreError::Io);
        }
        Ok(slice_to_vec(slice_subrange(data, ke + 4, ke + 4 + vl)))
    }
}

} // verus!
