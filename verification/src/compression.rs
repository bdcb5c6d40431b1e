//! The general-purpose compressor and the checksum that the formats rest on.

use std::io::Read;
use vstd::prelude::*;

verus! {

/// What Zstandard makes of a byte string at a compression level.
pub uninterp spec fn packed(data: Seq<u8>, level: int) -> Result<Seq<u8>, Seq<char>>;

/// What comes of reading at most `limit` bytes of the Zstandard frame at the start of a byte string, whose
/// window may take two to the power of `window` bytes: the bytes, and the number of input bytes left unread.
pub uninterp spec fn unpacked(data: Seq<u8>, limit: int, window: int) -> Result<(Seq<u8>, int), Seq<char>>;

/// What comes of reading at most so many bytes of what the Zstandard frames in a byte string hold.
pub uninterp spec fn streamed(data: Seq<u8>, limit: int) -> Result<Seq<u8>, Seq<char>>;

/// What comes of expanding the Zstandard frames in a byte string into at most so many bytes.
pub uninterp spec fn inflated(data: Seq<u8>, capacity: int) -> Result<Seq<u8>, Seq<char>>;

/// The BLAKE3 checksum of a byte string.
pub uninterp spec fn checksum(data: Seq<u8>) -> Seq<u8>;

/// The widest window that a frame may ask for is two to the power of this many bytes.
pub const WINDOW: u32 = 27;

/// Whether a frame gives data back: read with a limit beyond their length, streamed with any limit, or
/// expanded into a buffer that has room for them.
pub open spec fn gives_back(frame: Seq<u8>, data: Seq<u8>) -> bool {
    &&& forall|limit: int|
        data.len() < limit <= u64::MAX ==> #[trigger] unpacked(frame, limit, WINDOW as int) == Ok::<
            (Seq<u8>, int),
            Seq<char>,
        >((data, 0int))
    &&& forall|limit: int|
        0 <= limit <= u64::MAX ==> #[trigger] streamed(frame, limit) == Ok::<Seq<u8>, Seq<char>>(
            if data.len() <= limit {
                data
            } else {
                data.take(limit)
            },
        )
    &&& forall|capacity: int|
        1 <= capacity && data.len() <= capacity <= 0x4000_0000 ==> #[trigger] inflated(frame, capacity) == Ok::<
            Seq<u8>,
            Seq<char>,
        >(data)
}

pub open spec fn unpacked_outcome(r: Result<(Vec<u8>, usize), String>) -> crate::wire::Outcome<
    (Seq<u8>, int),
> {
    match r {
        Ok((bytes, rest)) => Ok((bytes@, rest as int)),
        Err(e) => Err(e@),
    }
}

/// Calls `zstd::bulk::compress`. What comes of it depends on the data and the level alone, as long as there
/// is memory. It is one frame, no longer than the worst case that `ZSTD_compressBound` gives: the data, a
/// 256th of it, and 64 bytes. No level asks for a window of more than two to the power of 27 bytes, so the
/// decoders below give the data back.
#[verifier::external_body]
pub(crate) fn pack(data: &[u8], level: i32) -> (r: Result<Vec<u8>, String>)
    ensures
        crate::wire::bytes_of(r) == packed(data@, level as int),
        r matches Ok(bytes) ==> 1 <= bytes@.len() <= data@.len() + data@.len() as int / 256 + 64,
        r matches Ok(bytes) ==> gives_back(bytes@, data@),
{
    zstd::bulk::compress(data, level).map_err(|e| e.to_string())
}

/// Reads up to `limit` bytes from a `zstd::stream::read::Decoder` that stops after one frame and
/// refuses windows over two to the power of `window` bytes, and counts the input that `finish` hands
/// back. What comes of it depends on the arguments alone, as long as there is memory.
#[verifier::external_body]
pub(crate) fn unpack(data: &[u8], limit: u64, window: u32) -> (r: Result<(Vec<u8>, usize), String>)
    ensures
        unpacked_outcome(r) == unpacked(data@, limit as int, window as int),
        r matches Ok((bytes, rest)) ==> bytes@.len() <= limit && rest <= data@.len(),
{
    let decoder = zstd::stream::read::Decoder::with_buffer(data).map_err(|e| e.to_string())?;
    let mut decoder = decoder.single_frame();
    decoder.window_log_max(window).map_err(|e| e.to_string())?;
    let mut bytes = Vec::new();
    decoder.by_ref().take(limit).read_to_end(&mut bytes).map_err(|e| e.to_string())?;
    Ok((bytes, decoder.finish().len()))
}

/// Reads up to `limit` bytes from a `zstd::stream::read::Decoder`, which goes on from frame to frame.
/// What comes of it depends on the data and the limit alone, as long as there is memory.
#[verifier::external_body]
pub(crate) fn stream(data: &[u8], limit: u64) -> (r: Result<Vec<u8>, String>)
    ensures
        crate::wire::bytes_of(r) == streamed(data@, limit as int),
        r matches Ok(bytes) ==> bytes@.len() <= limit,
{
    let mut decoder = zstd::stream::read::Decoder::new(data).map_err(|e| e.to_string())?;
    let mut bytes = Vec::new();
    decoder.by_ref().take(limit).read_to_end(&mut bytes).map_err(|e| e.to_string())?;
    Ok(bytes)
}

/// Calls `zstd::bulk::decompress`, which expands whole frames into at most `capacity` bytes. What comes
/// of it depends on the data and the capacity alone, as long as there is memory. A capacity that no vector
/// can have would make it panic.
#[verifier::external_body]
pub(crate) fn inflate(data: &[u8], capacity: usize) -> (r: Result<Vec<u8>, String>)
    requires
        capacity <= 0x4000_0000,
    ensures
        crate::wire::bytes_of(r) == inflated(data@, capacity as int),
        r matches Ok(bytes) ==> bytes@.len() <= capacity,
{
    zstd::bulk::decompress(data, capacity).map_err(|e| e.to_string())
}

/// Calls `blake3::hash`, whose result depends on the data alone.
#[verifier::external_body]
pub(crate) fn hash(data: &[u8]) -> (r: [u8; 32])
    ensures
        r@ == checksum(data@),
{
    *blake3::hash(data).as_bytes()
}

}
