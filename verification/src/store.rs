//! Framing of the serialized configuration kept in the kernel (the
//! `CFG` byte array and its `CFG_LEN` length).

use crate::error::{EfenseError, ErrorKind};
use crate::policy::CFG_BLOB_LEN;
use crate::text::{decimal, push_decimal};
use vstd::prelude::*;

verus! {

/// The `CFG` array holding `json`: its bytes, then zeros up to
/// [`CFG_BLOB_LEN`].
pub open spec fn spec_cfg_blob(json: Seq<u8>) -> Seq<u8> {
    json + Seq::new((CFG_BLOB_LEN - json.len()) as nat, |i: int| 0u8)
}

/// The content of the `CFG` array for a serialized configuration: the
/// bytes, then zeros up to [`CFG_BLOB_LEN`] (so a stale tail cannot
/// surprise a reader that ignores the length), with the length to store
/// in `CFG_LEN`. A configuration longer than the array is refused.
pub fn cfg_blob(json: &Vec<u8>) -> (r: Result<(Vec<u8>, u32), EfenseError>)
    ensures
        json@.len() > CFG_BLOB_LEN ==> (r matches Err(e) && e.kind == ErrorKind::Bug && e.msg@
            == "serialized config is "@ + decimal(json@.len()) + " bytes, exceeds max "@ + decimal(
            CFG_BLOB_LEN as nat,
        )),
        json@.len() <= CFG_BLOB_LEN ==> (r matches Ok((blob, len)) && len == json@.len()
            && blob@ == spec_cfg_blob(json@)),
{
    if json.len() > CFG_BLOB_LEN {
        let mut m = String::from_str("serialized config is ");
        push_decimal(&mut m, json.len() as u64);
        m.append(" bytes, exceeds max ");
        push_decimal(&mut m, CFG_BLOB_LEN as u64);
        return Err(EfenseError { kind: ErrorKind::Bug, msg: m });
    }
    let mut blob: Vec<u8> = Vec::new();
    let mut i: usize = 0;
    while i < CFG_BLOB_LEN
        invariant
            i <= CFG_BLOB_LEN,
            json@.len() <= CFG_BLOB_LEN,
            blob@.len() == i,
            forall|j: int| 0 <= j < i ==> #[trigger] blob@[j] == (if j < json@.len() {
                json@[j]
            } else {
                0u8
            }),
        decreases CFG_BLOB_LEN - i,
    {
        if i < json.len() {
            blob.push(json[i]);
        } else {
            blob.push(0u8);
        }
        i = i + 1;
    }
    assert(blob@ =~= json@ + Seq::new((CFG_BLOB_LEN - json@.len()) as nat, |i: int| 0u8));
    Ok((blob, json.len() as u32))
}

/// The meaningful length of the stored configuration read from
/// `CFG_LEN`: `None` when nothing is stored (length zero), an error
/// when it exceeds the array.
pub fn stored_config_len(len: u32) -> (r: Result<Option<usize>, EfenseError>)
    ensures
        len == 0 ==> r matches Ok(None),
        0 < len <= CFG_BLOB_LEN ==> (r matches Ok(Some(n)) && n == len),
        len > CFG_BLOB_LEN ==> (r matches Err(e) && e.kind == ErrorKind::Bug && e.msg@
            == "stored config length "@ + decimal(len as nat) + " exceeds max "@ + decimal(
            CFG_BLOB_LEN as nat,
        )),
{
    if len == 0 {
        return Ok(None);
    }
    if len as usize > CFG_BLOB_LEN {
        let mut m = String::from_str("stored config length ");
        push_decimal(&mut m, len as u64);
        m.append(" exceeds max ");
        push_decimal(&mut m, CFG_BLOB_LEN as u64);
        return Err(EfenseError { kind: ErrorKind::Bug, msg: m });
    }
    Ok(Some(len as usize))
}

/// Storage law, what a read gives back of a write: for a serialized
/// configuration that fits, the length stored in `CFG_LEN` is one that
/// [`stored_config_len`] reads back as that length, and the first that
/// many bytes of the stored array are the configuration's bytes.
pub proof fn law_cfg_blob_read_back(json: Seq<u8>)
    requires
        0 < json.len() <= CFG_BLOB_LEN,
    ensures
        0 < json.len() as u32 <= CFG_BLOB_LEN,
        json.len() as u32 as nat == json.len(),
        spec_cfg_blob(json).len() == CFG_BLOB_LEN,
        spec_cfg_blob(json).take(json.len() as int) == json,
{
    assert(spec_cfg_blob(json).take(json.len() as int) =~= json);
}

} // verus!
