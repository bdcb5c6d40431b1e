//! GIF files whose exact form is squeezed by a context model.

use crate::compression::hash;
use crate::monitor::{Monitor, Unwatched};
use crate::ppmd::{squeeze, swell};
use crate::wire::{fail, put_le, read_le64, same, Outcome};
use vstd::prelude::*;

verus! {

pub const MAGIC: [u8; 8] = [83, 80, 71, 80, 77, 1, 0, 0];

/// The length of the header of a record.
pub const HEADER: usize = 92;

/// The longest record, and the longest exact form.
pub const LIMIT: usize = 0x2000_0000;

pub const MEMORY_LOG: u8 = 25;

pub const ORDER: u8 = 8;

/// A record: the lengths and checksums of an exact form and of its stream, and the stream.
pub open spec fn record(sgif: Seq<u8>, packed: Seq<u8>) -> Seq<u8> {
    MAGIC@ + crate::wire::le_bytes(sgif.len() as int, 8) + seq![ORDER, MEMORY_LOG, 0u8, 0u8]
        + crate::wire::le_bytes(packed.len() as int, 8) + crate::compression::checksum(sgif)
        + crate::compression::checksum(packed) + packed
}

/// The stream of a record.
pub open spec fn stream(encoded: Seq<u8>) -> Seq<u8> {
    encoded.subrange(HEADER as int, encoded.len() as int)
}

/// Whether the parameters of a record are within limits.
pub open spec fn acceptable(encoded: Seq<u8>) -> bool {
    let plain = crate::wire::le64(encoded, 8);
    &&& 9 <= plain <= LIMIT
    &&& crate::wire::le64(encoded, 20) == encoded.len() - HEADER
    &&& 2 <= encoded[16] <= 16
    &&& encoded[17] == MEMORY_LOG
    &&& encoded[18] == 0
    &&& encoded[19] == 0
}

/// The exact form that a record holds, where `read` came out of its stream.
pub open spec fn unmodelled(encoded: Seq<u8>, read: Outcome<(Seq<u8>, int)>) -> Outcome<Seq<u8>> {
    let plain = crate::wire::le64(encoded, 8);
    if encoded.len() < HEADER || encoded.len() > LIMIT || encoded.take(8) != MAGIC@ {
        Err("Invalid GIF probability-model header"@)
    } else if !acceptable(encoded) {
        Err("GIF probability-model parameters exceed limits"@)
    } else if crate::compression::checksum(stream(encoded)) != encoded.subrange(60, 92) {
        Err("GIF probability-model payload checksum mismatch"@)
    } else {
        match read {
            Err(e) => Err(e),
            Ok((bytes, rest)) => if bytes.len() < plain {
                Err("Truncated GIF probability-model output"@)
            } else if bytes.len() > plain {
                Err("GIF probability-model output exceeds declared length"@)
            } else if rest != 0 || crate::compression::checksum(bytes) != encoded.subrange(28, 60) {
                Err("GIF probability-model length or checksum mismatch"@)
            } else {
                Ok(bytes)
            },
        }
    }
}

/// What comes of reading the stream of a record: at most one byte more than the record declares.
pub open spec fn read_of(encoded: Seq<u8>) -> Outcome<(Seq<u8>, int)> {
    crate::ppmd::swelled(
        stream(encoded),
        encoded[16] as int,
        MEMORY_LOG as int,
        crate::wire::le64(encoded, 8) + 1,
    )
}

/// What came of the outside calls of an encoder: the stream, and what was read of it again.
pub struct Outside {
    pub packed: Outcome<Seq<u8>>,
    pub read: Outcome<(Seq<u8>, int)>,
}

/// The record of an exact form.
pub open spec fn modelled(sgif: Seq<u8>, o: Outside) -> Outcome<Seq<u8>> {
    if sgif.len() > LIMIT || sgif.len() < 8 || sgif.take(8) != crate::gif_exact::MAGIC@ {
        Err("Invalid or excessive SGIF model input"@)
    } else {
        match o.packed {
            Err(e) => Err(e),
            Ok(packed) => if packed.len() > LIMIT - HEADER {
                Err("GIF model output exceeds limit"@)
            } else {
                let out = record(sgif, packed);
                match unmodelled(out, o.read) {
                    Err(e) => Err(e),
                    Ok(again) => if again == sgif {
                        Ok(out)
                    } else {
                        Err("GIF probability-model self-check failed"@)
                    },
                }
            },
        }
    }
}

/// What comes of the outside calls for an exact form.
pub open spec fn outside(sgif: Seq<u8>) -> Outside {
    let packed = crate::ppmd::squeezed(sgif, ORDER as int, MEMORY_LOG as int);
    Outside { packed, read: read_of(record(sgif, packed->Ok_0)) }
}

/// What is wrong with a record before its stream is read.
pub open spec fn faulty(encoded: Seq<u8>) -> Option<Seq<char>> {
    if encoded.len() < HEADER || encoded.len() > LIMIT || encoded.take(8) != MAGIC@ {
        Some("Invalid GIF probability-model header"@)
    } else if !acceptable(encoded) {
        Some("GIF probability-model parameters exceed limits"@)
    } else if crate::compression::checksum(stream(encoded)) != encoded.subrange(60, 92) {
        Some("GIF probability-model payload checksum mismatch"@)
    } else {
        None
    }
}

/// Checks a record before its stream is read.
pub fn check_head(encoded: &[u8]) -> (r: Result<(), String>)
    ensures
        crate::scan::unit_of(r) == (match faulty(encoded@) {
            Some(e) => Err::<(), Seq<char>>(e),
            None => Ok(()),
        }),
{
    assert(encoded@.len() >= 8 ==> encoded@.subrange(0, 8) =~= encoded@.take(8));
    if encoded.len() < HEADER || encoded.len() > LIMIT || !same(&encoded[0..8], &MAGIC) {
        return Err(fail("Invalid GIF probability-model header"));
    }
    let plain: u64 = read_le64(encoded, 8);
    let packed_len: u64 = read_le64(encoded, 20);
    if plain < 9 || plain > LIMIT as u64 || packed_len != (encoded.len() - HEADER) as u64
        || encoded[16] < 2 || encoded[16] > 16 || encoded[17] != MEMORY_LOG || encoded[18] != 0
        || encoded[19] != 0 {
        return Err(fail("GIF probability-model parameters exceed limits"));
    }
    if !same(&hash(&encoded[HEADER..encoded.len()]), &encoded[60..92]) {
        return Err(fail("GIF probability-model payload checksum mismatch"));
    }
    Ok(())
}

/// The exact form that a record holds, by what came out of its stream.
pub fn check_read(encoded: &[u8], read: Result<(Vec<u8>, usize), String>) -> (r: Result<Vec<u8>, String>)
    ensures
        crate::wire::bytes_of(r) == unmodelled(encoded@, crate::compression::unpacked_outcome(read)),
{
    check_head(encoded)?;
    let plain: u64 = read_le64(encoded, 8);
    let (bytes, rest) = read?;
    if (bytes.len() as u64) < plain {
        return Err(fail("Truncated GIF probability-model output"));
    }
    if (bytes.len() as u64) > plain {
        return Err(fail("GIF probability-model output exceeds declared length"));
    }
    if rest != 0 || !same(&hash(&bytes), &encoded[28..60]) {
        return Err(fail("GIF probability-model length or checksum mismatch"));
    }
    Ok(bytes)
}

/// How many bytes are worked on between two reports.
pub const CHUNK: u64 = 0x1_0000;

/// Reports that `n` bytes are done, one chunk after the other. Reports count from `base`, out of `whole`.
fn report_chunks<M: Monitor>(n: u64, base: u64, whole: u64, progress: &mut M) -> (go: bool)
    requires
        !old(progress).stopped(),
        n <= LIMIT,
        base + n <= whole,
    ensures
        final(progress).stopped() == !go,
        crate::monitor::chunks_told(*old(progress), n as int, CHUNK as int, base as int, whole, *final(progress)),
        go && n > 0 ==> crate::monitor::last_told(*final(progress), (base + n) as u64, whole),
{
    let mut done: u64 = 0;
    proof {
        crate::monitor::lemma_no_chunks(*progress, n as int, CHUNK as int, base as int, whole);
    }
    while done < n
        invariant
            done <= n <= LIMIT,
            base + n <= whole,
            !progress.stopped(),
            crate::monitor::chunks_agreed(
                *old(progress),
                n as int,
                CHUNK as int,
                base as int,
                whole,
                done as int,
                *progress,
            ),
            done > 0 ==> crate::monitor::last_told(*progress, (base + done) as u64, whole),
        decreases n - done,
    {
        let next: u64 = if n - done > CHUNK {
            done + CHUNK
        } else {
            n
        };
        let ghost before = *progress;
        if !progress.report(base + next, whole) {
            return false;
        }
        assert(before.told((base + next) as u64, whole, true, progress));
        proof {
            crate::monitor::lemma_one_more_chunk(
                *old(progress),
                n as int,
                CHUNK as int,
                base as int,
                whole,
                done as int,
                before,
                *progress,
            );
        }
        done = next;
    }
    true
}

/// Whether the first `n` bytes that a stream is to hold can be read from it.
pub open spec fn opens_with(packed: Seq<u8>, order: int, n: int) -> bool {
    n <= 0 || (crate::ppmd::swelled(packed, order, MEMORY_LOG as int, n) matches Ok((bytes, _)) && bytes.len() == n)
}

/// Whether a stream that is to hold `plain` bytes can be read in chunks up to `n` bytes, and not up to the chunk
/// behind them.
pub open spec fn breaks_at(packed: Seq<u8>, order: int, plain: int, n: int) -> bool {
    &&& 0 <= n <= plain
    &&& n == plain || n % CHUNK as int == 0
    &&& opens_with(packed, order, n)
    &&& n == plain || !opens_with(packed, order, crate::monitor::next_mark(plain, CHUNK as int, n))
}

/// Whether the first `n` bytes that a stream is to hold can be read from it.
fn can_read(packed: &[u8], order: u8, n: u64) -> (r: bool)
    ensures
        r == opens_with(packed@, order as int, n as int),
{
    n == 0 || match swell(packed, order as u32, MEMORY_LOG as u32, n) {
        Ok((bytes, _)) => bytes.len() as u64 == n,
        Err(_) => false,
    }
}

/// Finds out how far a broken stream can be read in chunks.
fn readable(packed: &[u8], order: u8, plain: u64) -> (n: u64)
    requires
        plain <= LIMIT,
    ensures
        breaks_at(packed@, order as int, plain as int, n as int),
{
    let chunks: u64 = (plain + (CHUNK - 1)) / CHUNK;
    let mut low: u64 = 0;
    let mut high: u64 = chunks + 1;
    while high - low > 1
        invariant
            plain <= LIMIT,
            chunks == (plain + (CHUNK - 1)) / CHUNK as int,
            low < high <= chunks + 1,
            opens_with(packed@, order as int, upto(plain as int, low as int)),
            high <= chunks ==> !opens_with(packed@, order as int, upto(plain as int, high as int)),
        decreases high - low,
    {
        let mid: u64 = low + (high - low) / 2;
        let n: u64 = if mid * CHUNK < plain {
            mid * CHUNK
        } else {
            plain
        };
        if can_read(packed, order, n) {
            low = mid;
        } else {
            high = mid;
        }
    }
    if low * CHUNK < plain {
        low * CHUNK
    } else {
        plain
    }
}

/// Where chunk number `k` of `plain` bytes begins.
spec fn upto(plain: int, k: int) -> int {
    if k * CHUNK < plain {
        k * CHUNK
    } else {
        plain
    }
}

/// Expands `packed`, which is to hold `plain` bytes, and reports before it, and behind it each chunk of as
/// many bytes as are to come, or as can be read where the stream is broken. Reports count from `base`, out of `whole`.
fn read_stream<M: Monitor>(
    packed: &[u8],
    order: u8,
    plain: u64,
    base: u64,
    whole: u64,
    progress: &mut M,
) -> (r: Result<Result<(Vec<u8>, usize), String>, String>)
    requires
        !old(progress).stopped(),
        plain <= LIMIT,
        base + plain <= whole,
    ensures
        match r {
            Ok(read) => {
                &&& !final(progress).stopped()
                &&& crate::compression::unpacked_outcome(read) == crate::ppmd::swelled(
                    packed@,
                    order as int,
                    MEMORY_LOG as int,
                    plain + 1,
                )
                &&& read matches Ok((bytes, _)) ==> bytes@.len() == plain ==> plain > 0
                    ==> crate::monitor::last_told(*final(progress), (base + plain) as u64, whole)
                    && crate::monitor::in_chunks(
                    *old(progress),
                    plain as int,
                    CHUNK as int,
                    base as int,
                    whole,
                    *final(progress),
                )
                &&& read is Err ==> exists|n: int| #[trigger]
                    breaks_at(packed@, order as int, plain as int, n) && crate::monitor::in_chunks(
                        *old(progress),
                        n,
                        CHUNK as int,
                        base as int,
                        whole,
                        *final(progress),
                    )
            },
            Err(e) => final(progress).stopped() && e@ == "error.cancelled"@,
        },
        crate::monitor::refuses(*old(progress)) ==> r is Err,
{
    if !progress.report(base, whole) {
        return Err(fail("error.cancelled"));
    }
    proof {
        crate::monitor::lemma_agreed(*old(progress), base, whole, *progress);
    }
    let read = swell(packed, order as u32, MEMORY_LOG as u32, plain + 1);
    let n: u64 = match &read {
        Ok((bytes, _)) => if (bytes.len() as u64) < plain {
            bytes.len() as u64
        } else {
            plain
        },
        Err(_) => readable(packed, order, plain),
    };
    if !report_chunks(n, base, whole, progress) {
        return Err(fail("error.cancelled"));
    }
    Ok(read)
}

/// Reads the exact form out of a record.
pub fn decode_transform<M: Monitor>(encoded: &[u8], progress: &mut M) -> (r: Result<Vec<u8>, String>)
    requires
        !old(progress).stopped(),
    ensures
        crate::wire::bytes_of(r) == crate::wire::unless(
            final(progress).stopped(),
            unmodelled(encoded@, read_of(encoded@)),
        ),
        crate::monitor::refuses(*old(progress)) ==> crate::wire::bytes_of(r) == Err::<Seq<u8>, Seq<char>>(
            match faulty(encoded@) {
                Some(e) => e,
                None => "error.cancelled"@,
            },
        ),
        r matches Ok(v) ==> crate::monitor::last_told(*final(progress), v.len() as u64, v.len() as u64)
            && crate::monitor::in_chunks(
            *old(progress),
            v@.len() as int,
            CHUNK as int,
            0,
            v.len() as u64,
            *final(progress),
        ),
        !final(progress).stopped() && faulty(encoded@) is None && read_of(encoded@) is Err ==> exists|n: int|
            #[trigger] breaks_at(
                stream(encoded@),
                encoded@[16] as int,
                crate::wire::le64(encoded@, 8),
                n,
            ) && crate::monitor::in_chunks(
                *old(progress),
                n,
                CHUNK as int,
                0,
                crate::wire::le64(encoded@, 8) as u64,
                *final(progress),
            ),
{
    check_head(encoded)?;
    let plain: u64 = read_le64(encoded, 8);
    let read = read_stream(&encoded[HEADER..encoded.len()], encoded[16], plain, 0, plain, progress)?;
    check_read(encoded, read)
}

/// Writes a record.
fn write_record(sgif: &[u8], packed: &[u8]) -> (out: Vec<u8>)
    requires
        packed.len() <= LIMIT - HEADER,
    ensures
        out@ == record(sgif@, packed@),
{
    let mut out: Vec<u8> = Vec::with_capacity(HEADER + packed.len());
    out.extend_from_slice(&MAGIC);
    put_le(sgif.len() as u64, 8, &mut out);
    out.push(ORDER);
    out.push(MEMORY_LOG);
    out.push(0);
    out.push(0);
    let ghost head = MAGIC@ + crate::wire::le_bytes(sgif@.len() as int, 8) + seq![
        ORDER,
        MEMORY_LOG,
        0u8,
        0u8,
    ];
    assert(out@ =~= head);
    put_le(packed.len() as u64, 8, &mut out);
    out.extend_from_slice(&hash(sgif));
    out.extend_from_slice(&hash(packed));
    out.extend_from_slice(packed);
    assert(out@ =~= record(sgif@, packed@));
    out
}

proof fn lemma_record(sgif: Seq<u8>, packed: Seq<u8>)
    requires
        sgif.len() <= u64::MAX,
        crate::compression::checksum(sgif).len() == 32,
        crate::compression::checksum(packed).len() == 32,
    ensures
        stream(record(sgif, packed)) == packed,
        record(sgif, packed)[16] == ORDER,
        crate::wire::le64(record(sgif, packed), 8) == sgif.len(),
{
    let b = record(sgif, packed);
    crate::wire::lemma_lengths(sgif.len() as int);
    crate::wire::lemma_lengths(packed.len() as int);
    assert(b.subrange(8, 16) =~= crate::wire::le_bytes(sgif.len() as int, 8));
    crate::wire::lemma_le64_at(b, 8, sgif.len() as int);
    assert(stream(b) =~= packed);
}

/// Whether something can be squeezed as an exact form.
pub open spec fn squeezable(sgif: Seq<u8>) -> bool {
    8 <= sgif.len() <= LIMIT && sgif.take(8) == crate::gif_exact::MAGIC@
}

/// The record of an exact form, by what squeezing it yielded, and by what came out of that again.
pub fn check_record(
    sgif: &[u8],
    packed: Result<Vec<u8>, String>,
    read: Result<(Vec<u8>, usize), String>,
) -> (r: Result<Vec<u8>, String>)
    ensures
        crate::wire::bytes_of(r) == modelled(
            sgif@,
            (Outside {
                packed: crate::wire::bytes_of(packed),
                read: crate::compression::unpacked_outcome(read),
            }),
        ),
{
    assert(sgif@.len() >= 8 ==> sgif@.subrange(0, 8) =~= sgif@.take(8));
    if sgif.len() > LIMIT || sgif.len() < 8 || !same(&sgif[0..8], &crate::gif_exact::MAGIC) {
        return Err(fail("Invalid or excessive SGIF model input"));
    }
    let packed = packed?;
    if packed.len() > LIMIT - HEADER {
        return Err(fail("GIF model output exceeds limit"));
    }
    let out = write_record(sgif, &packed);
    let again = check_read(&out, read)?;
    if !same(&again, sgif) {
        return Err(fail("GIF probability-model self-check failed"));
    }
    Ok(out)
}

/// Squeezes an exact form into a record.
pub fn encode_transformed_with_progress<M: Monitor>(sgif: &[u8], progress: &mut M) -> (r: Result<
    Vec<u8>,
    String,
>)
    requires
        !old(progress).stopped(),
    ensures
        crate::wire::bytes_of(r) == crate::wire::unless(
            final(progress).stopped(),
            modelled(sgif@, outside(sgif@)),
        ),
        crate::monitor::refuses(*old(progress)) ==> crate::wire::bytes_of(r) == Err::<Seq<u8>, Seq<char>>(
            if squeezable(sgif@) {
                "error.cancelled"@
            } else {
                "Invalid or excessive SGIF model input"@
            },
        ),
        r is Ok ==> crate::monitor::last_told(
            *final(progress),
            (2 * sgif.len()) as u64,
            (2 * sgif.len()) as u64,
        ),
{
    assert(sgif@.len() >= 8 ==> sgif@.subrange(0, 8) =~= sgif@.take(8));
    if sgif.len() > LIMIT || sgif.len() < 8 || !same(&sgif[0..8], &crate::gif_exact::MAGIC) {
        return Err(fail("Invalid or excessive SGIF model input"));
    }
    let half: u64 = sgif.len() as u64;
    let total: u64 = half * 2;
    if !progress.report(0, total) {
        return Err(fail("error.cancelled"));
    }
    proof {
        crate::monitor::lemma_agreed(*old(progress), 0, total, *progress);
    }
    let packed = squeeze(sgif, ORDER as u32, MEMORY_LOG as u32);
    let mut read: Result<(Vec<u8>, usize), String> = Err(String::new());
    if let Ok(p) = &packed {
        if !report_chunks(half, 0, total, progress) {
            return Err(fail("error.cancelled"));
        }
        if p.len() <= LIMIT - HEADER {
            let sums = (hash(sgif), hash(p));
            proof {
                assert(sums.0@.len() == 32 && sums.1@.len() == 32);
                lemma_record(sgif@, p@);
            }
            if half >= 9 {
                read = read_stream(p, ORDER, half, half, total, progress)?;
            }
        }
    }
    let ghost o = Outside {
        packed: crate::wire::bytes_of(packed),
        read: crate::compression::unpacked_outcome(read),
    };
    assert(modelled(sgif@, o) == modelled(sgif@, outside(sgif@)));
    check_record(sgif, packed, read)
}

/// Squeezes an exact form into a record.
pub fn encode_transformed(sgif: &[u8]) -> (r: Result<Vec<u8>, String>)
    ensures
        crate::wire::bytes_of(r) == modelled(sgif@, outside(sgif@)),
{
    let mut nobody = Unwatched;
    encode_transformed_with_progress(sgif, &mut nobody)
}

/// The record of a GIF file.
pub open spec fn encoded(raw: Seq<u8>) -> Outcome<Seq<u8>> {
    match crate::gif_exact::encoded(raw) {
        Err(e) => Err(e),
        Ok(sgif) => modelled(sgif, outside(sgif)),
    }
}

/// Squeezes a GIF file into a record.
pub fn encode(raw: &[u8]) -> (r: Result<Vec<u8>, String>)
    ensures
        crate::wire::bytes_of(r) == encoded(raw@),
{
    encode_transformed(&crate::gif_exact::encode(raw)?)
}

/// The GIF file that a record holds, where `read` came out of its stream.
pub open spec fn restored(encoded: Seq<u8>, read: Outcome<(Seq<u8>, int)>) -> Outcome<Seq<u8>> {
    match unmodelled(encoded, read) {
        Err(e) => Err(e),
        Ok(sgif) => crate::gif_exact::restored(sgif),
    }
}

/// A record that was cut off, or to which bytes were added, is refused, whatever its stream yields.
pub proof fn law_records_have_one_length(encoded: Seq<u8>, other: Seq<u8>, read: Outcome<(Seq<u8>, int)>)
    requires
        faulty(encoded) is None,
        other.len() != encoded.len(),
        other.is_prefix_of(encoded) || encoded.is_prefix_of(other),
    ensures
        faulty(other) is Some,
        unmodelled(other, read) is Err,
        restored(other, read) is Err,
{
    if other.len() >= HEADER {
        assert forall|i: int| 0 <= i < HEADER implies #[trigger] other[i] == encoded[i] by {
            if other.len() < encoded.len() {
                assert(encoded.subrange(0, other.len() as int)[i] == other[i]);
            } else {
                assert(other.subrange(0, encoded.len() as int)[i] == encoded[i]);
            }
        }
        assert(crate::wire::le64(other, 20) == crate::wire::le64(encoded, 20));
    }
}

/// Reads a GIF file out of a record.
pub fn decode_with_progress<M: Monitor>(encoded: &[u8], progress: &mut M) -> (r: Result<Vec<u8>, String>)
    requires
        !old(progress).stopped(),
    ensures
        crate::wire::bytes_of(r) == crate::wire::unless(
            final(progress).stopped(),
            restored(encoded@, read_of(encoded@)),
        ),
        crate::monitor::refuses(*old(progress)) ==> crate::wire::bytes_of(r) == Err::<Seq<u8>, Seq<char>>(
            match faulty(encoded@) {
                Some(e) => e,
                None => "error.cancelled"@,
            },
        ),
        r is Ok ==> crate::monitor::told_all(*final(progress)),
{
    let sgif = decode_transform(encoded, progress);
    crate::gif_exact::decode(&sgif?)
}

/// Reads a GIF file out of a record.
pub fn decode(encoded: &[u8]) -> (r: Result<Vec<u8>, String>)
    ensures
        crate::wire::bytes_of(r) == restored(encoded@, read_of(encoded@)),
{
    let mut nobody = Unwatched;
    decode_with_progress(encoded, &mut nobody)
}

/// A record that is accepted is refused with another mark, another length of what it holds or of its stream,
/// another memory size, other fill bytes or another checksum in its head, whatever came out of its stream.
pub proof fn law_changed_heads_are_refused(a: Seq<u8>, b: Seq<u8>, read: Outcome<(Seq<u8>, int)>)
    requires
        unmodelled(a, read) is Ok,
        a.len() == b.len(),
        stream(a) == stream(b),
        a.take(8) != b.take(8) || crate::wire::le64(a, 8) != crate::wire::le64(b, 8) || a[17] != b[17] || a[18]
            != b[18] || a[19] != b[19] || crate::wire::le64(a, 20) != crate::wire::le64(b, 20)
            || a.subrange(28, 60) != b.subrange(28, 60) || a.subrange(60, 92) != b.subrange(60, 92),
    ensures
        unmodelled(b, read) is Err,
{
}

/// What a record holds does not depend on the rest of its head.
pub proof fn law_same_heads_hold_the_same(a: Seq<u8>, b: Seq<u8>, read: Outcome<(Seq<u8>, int)>)
    requires
        unmodelled(a, read) is Ok,
        unmodelled(b, read) is Ok,
    ensures
        unmodelled(a, read) == unmodelled(b, read),
{
}

/// Where a GIF file could be squeezed, reading its record gives it back.
pub proof fn law_decode_undoes_encode(raw: Seq<u8>)
    ensures
        encoded(raw) matches Ok(out) ==> restored(out, read_of(out)) == Ok::<Seq<u8>, Seq<char>>(raw),
{
    crate::gif_exact::law_decode_undoes_encode(raw);
}

}
