//! The request surface: set, get and delete on plain request values, with
//! the key rule enforced.
use crate::avl::{key_bytes, size_of, AVLTree};
use crate::error::StoreError;
use crate::idx::IDX;
use crate::segment::{segments_get, segments_view, Segment};
use crate::keys::{is_valid_key, valid_key};
use vstd::prelude::*;
use vstd::slice::slice_to_vec;

verus! {

/// A reply: the value read or written, or why there is none.
pub struct Message {
    pub value: Option<Vec<u8>>,
    pub error: Option<String>,
}

/// Store a value under a key.
pub struct SetRequest {
    pub key: String,
    pub value: String,
}

/// Read the value of a key.
pub struct GetRequest {
    pub key: String,
}

/// Remove a key.
pub struct DeleteRequest {
    pub key: String,
}

/// Stores `request.value` under `request.key` in the memtable.
pub fn set(request: &SetRequest, tree: &mut AVLTree) -> (r: Result<Message, StoreError>)
    requires
        old(tree).wf(),
        size_of(old(tree).root) < usize::MAX,
    ensures
        final(tree).wf(),
        !valid_key(key_bytes(request.key@)) ==> r == Err::<Message, StoreError>(
            StoreError::InvalidKey,
        ) && final(tree)@ == old(tree)@,
        valid_key(key_bytes(request.key@)) ==> {
            &&& r is Ok
            &&& r.unwrap().value is Some
            &&& r.unwrap().value.unwrap()@ == key_bytes(request.value@)
            &&& r.unwrap().error is None
            &&& final(tree)@ == old(tree)@.insert(key_bytes(request.key@), request.value@)
        },
{
    if !is_valid_key(request.key.as_str()) {
        return Err(StoreError::InvalidKey);
    }
    tree.set(request.key.as_str(), request.value.as_str());
    Ok(Message { value: Some(slice_to_vec(request.value.as_str().as_bytes())), error: None })
}

/// Reads `request.key`: the memtable first, then the segments, newest first.
pub fn get(request: &GetRequest, tree: &AVLTree, segments: &Vec<Segment>) -> (r: Result<
    Message,
    StoreError,
>)
    requires
        tree.wf(),
    ensures
        ({
            let k = key_bytes(request.key@);
            if !valid_key(k) {
                r == Err::<Message, StoreError>(StoreError::InvalidKey)
            } else if tree@.contains_key(k) {
                &&& r is Ok
                &&& r.unwrap().value is Some
                &&& r.unwrap().value.unwrap()@ == key_bytes(tree@[k])
                &&& r.unwrap().error is None
            } else {
                match segments_get(segments_view(segments@), k) {
                    Ok(Some(v)) => {
                        &&& r is Ok
                        &&& r.unwrap().value is Some
                        &&& r.unwrap().value.unwrap()@ == v
                        &&& r.unwrap().error is None
                    },
                    Ok(None) => {
                        &&& r is Ok
                        &&& r.unwrap().value is None
                        &&& r.unwrap().error is Some
                        &&& r.unwrap().error.unwrap()@ == "Key not found"@
                    },
                    Err(e) => r == Err::<Message, StoreError>(e),
                }
            }
        }),
{
    let key = request.key.as_str();
    if !is_valid_key(key) {
        return Err(StoreError::InvalidKey);
    }
    match tree.get(key) {
        Some(node) => {
            return Ok(
                Message { value: Some(slice_to_vec(node.value.as_str().as_bytes())), error: None },
            );
        },
        None => {},
    }
    proof {
        crate::segment::lemma_segments_get_error_is_io(
            segments_view(segments@),
            key_bytes(request.key@),
        );
    }
    match IDX::search_key_in_all_files(segments, key) {
        Ok(found) => Ok(Message { value: Some(found.value), error: None }),
        Err(StoreError::NotFound) => {
            let text = "Key not found".to_owned();
            Ok(Message { value: None, error: Some(text) })
        },
        Err(e) => Err(e),
    }
}

/// Removes `request.key` from the memtable.
pub fn delete(request: &DeleteRequest, tree: &mut AVLTree) -> (r: Result<Message, StoreError>)
    requires
        old(tree).wf(),
    ensures
        final(tree).wf(),
        !valid_key(key_bytes(request.key@)) ==> r == Err::<Message, StoreError>(
            StoreError::InvalidKey,
        ) && final(tree)@ == old(tree)@,
        valid_key(key_bytes(request.key@)) ==> {
            &&& r is Ok
            &&& r.unwrap().value is None
            &&& r.unwrap().error is None
            &&& final(tree)@ == old(tree)@.remove(key_bytes(request.key@))
        },
{
    if !is_valid_key(request.key.as_str()) {
        return Err(StoreError::InvalidKey);
    }
    tree.unset(request.key.as_str());
    Ok(Message { value: None, error: None })
}

} // verus!
