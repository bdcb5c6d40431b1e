//! The PPMd coder that the model of GIF files rests on.

use std::io::{Read, Write};
use vstd::prelude::*;

verus! {

/// What the PPMd7 coder makes of a byte string, with contexts of up to `order` bytes and a memory of
/// two to the power of `log` bytes, an end marker included in it.
pub uninterp spec fn squeezed(data: Seq<u8>, order: int, log: int) -> Result<Seq<u8>, Seq<char>>;

/// What comes of reading at most `limit` bytes of what a PPMd7 stream holds: the bytes, and the number of
/// input bytes left unread.
pub uninterp spec fn swelled(data: Seq<u8>, order: int, log: int, limit: int) -> Result<
    (Seq<u8>, int),
    Seq<char>,
>;

/// Writes `data` to a `ppmd_rust::Ppmd7Encoder` and finishes it with an end marker. What comes of it depends
/// on the arguments alone, as long as there is memory. That the decoder gives the data back is not stated.
#[verifier::external_body]
pub(crate) fn squeeze(data: &[u8], order: u32, log: u32) -> (r: Result<Vec<u8>, String>)
    requires
        log <= 31,
    ensures
        crate::wire::bytes_of(r) == squeezed(data@, order as int, log as int),
{
    let coder = ppmd_rust::Ppmd7Encoder::new(Vec::new(), order, 1u32 << log);
    let mut coder = coder.map_err(|e| e.to_string())?;
    coder.write_all(data).map_err(|e| e.to_string())?;
    coder.finish(true).map_err(|e| e.to_string())
}

/// Reads up to `limit` bytes from a `ppmd_rust::Ppmd7Decoder`, and counts the input that its
/// `into_inner` hands back. What comes of it depends on the arguments alone, as long as there is memory.
#[verifier::external_body]
pub(crate) fn swell(data: &[u8], order: u32, log: u32, limit: u64) -> (r: Result<(Vec<u8>, usize), String>)
    requires
        log <= 31,
    ensures
        crate::compression::unpacked_outcome(r) == swelled(
            data@,
            order as int,
            log as int,
            limit as int,
        ),
        r matches Ok((bytes, rest)) ==> bytes@.len() <= limit && rest <= data@.len(),
{
    let coder = ppmd_rust::Ppmd7Decoder::new(data, order, 1u32 << log);
    let mut coder = coder.map_err(|e| e.to_string())?;
    let mut bytes = Vec::new();
    coder.by_ref().take(limit).read_to_end(&mut bytes).map_err(|e| e.to_string())?;
    Ok((bytes, coder.into_inner().len()))
}

}
