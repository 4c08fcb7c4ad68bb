use vstd::prelude::*;
use crate::bytes::{be_bytes_u32, be_u32_at, extend, lemma_u32_bits, push_u32_be, read_u32_be, set_u32_be};
use crate::codec::{
    compress, decoded_payload, decompress, encoded_payload, method_known, method_of, tag_of,
    AnvilCompression,
};
use crate::linear::{lemma_grid_view_wf, linear_records, parse_records, view_wf};
use crate::error::{ChunkError, FormatError};
use crate::region::{payload_ok, grid_view, slot_ok, Chunk, Region, SlotView, REGION_DIMENSION, REGION_SIZE};

verus! {

/// Bytes in one sector of an Anvil file.
pub const SECTOR_SIZE: usize = 4096;

/// Bytes in the header: the location table and the timestamp table.
pub const ANVIL_HEADER_SIZE: usize = 8192;

/// The most sectors one record can span: the width of the count field.
pub const MAX_SECTORS: usize = 255;

/// Bit of a compression tag that marks a payload stored in a sibling file.
pub const EXTERNAL_FLAG: u8 = 0x80;

/// What the header and body of an Anvil file say of one slot.
pub enum AnvilRecord {
    Absent,
    /// The location or length points outside the file.
    Corrupt,
    /// The payload lies in a sibling file.
    External { tag: u8, timestamp: u32 },
    Stored { tag: u8, timestamp: u32, data: Seq<u8> },
}

/// The location entry of slot `i`: sector offset in the high three bytes,
/// sector count in the low byte.
pub open spec fn location_entry(b: Seq<u8>, i: int) -> u32 {
    be_u32_at(b, 4 * i)
}

/// The timestamp entry of slot `i`.
pub open spec fn timestamp_entry(b: Seq<u8>, i: int) -> u32 {
    be_u32_at(b, SECTOR_SIZE + 4 * i)
}

/// Where the record of slot `i` starts.
pub open spec fn record_start(b: Seq<u8>, i: int) -> int {
    (location_entry(b, i) >> 8u32) as int * SECTOR_SIZE
}

/// The record of slot `i` of an Anvil file whose header is complete.
pub open spec fn anvil_record(b: Seq<u8>, i: int) -> AnvilRecord {
    let st = record_start(b, i);
    if location_entry(b, i) == 0 {
        AnvilRecord::Absent
    } else if st + 4 > b.len() {
        AnvilRecord::Corrupt
    } else if be_u32_at(b, st) == 0 {
        AnvilRecord::Absent
    } else if st + 4 + be_u32_at(b, st) > b.len() {
        AnvilRecord::Corrupt
    } else if b[st + 4] & EXTERNAL_FLAG != 0 {
        AnvilRecord::External { tag: b[st + 4], timestamp: timestamp_entry(b, i) }
    } else {
        AnvilRecord::Stored {
            tag: b[st + 4],
            timestamp: timestamp_entry(b, i),
            data: b.subrange(st + 5, st + 4 + be_u32_at(b, st)),
        }
    }
}

/// The payload a record with tag `tag` and data `data` yields, or why it yields none.
pub open spec fn stored_payload(tag: u8, data: Seq<u8>) -> Result<Seq<u8>, ChunkError> {
    if !method_known(tag) {
        Err(ChunkError::UnsupportedCompression(tag))
    } else {
        match decoded_payload(tag, data) {
            None => Err(ChunkError::CorruptPayload),
            Some(p) => if p.len() == 0 {
                Err(ChunkError::EmptyPayload)
            } else if p.len() > u32::MAX {
                Err(ChunkError::OversizedPayload)
            } else {
                Ok(p)
            },
        }
    }
}

/// The chunk that slot `i` of `b` yields.
pub open spec fn anvil_slot(b: Seq<u8>, i: int) -> SlotView {
    match anvil_record(b, i) {
        AnvilRecord::Stored { tag, timestamp, data } => match stored_payload(tag, data) {
            Ok(p) => Some((timestamp, p)),
            Err(_) => None,
        },
        _ => None,
    }
}

/// The error that slot `i` of `b` gives, if any.
pub open spec fn anvil_slot_error(b: Seq<u8>, i: int) -> Option<ChunkError> {
    match anvil_record(b, i) {
        AnvilRecord::Corrupt => Some(ChunkError::CorruptLength),
        AnvilRecord::Stored { tag, timestamp, data } => match stored_payload(tag, data) {
            Ok(_) => None,
            Err(e) => Some(e),
        },
        _ => None,
    }
}

/// Decodes the data of one record, and refuses a payload that a slot cannot hold.
pub fn decode_payload(tag: u8, data: &[u8]) -> (r: Result<Vec<u8>, ChunkError>)
    ensures
        match stored_payload(tag, data@) {
            Ok(p) => r matches Ok(v) && v@ == p,
            Err(e) => r == Err::<Vec<u8>, ChunkError>(e),
        },
{
    match decompress(tag, data) {
        Err(e) => Err(e),
        Ok(p) => {
            if p.len() == 0 {
                Err(ChunkError::EmptyPayload)
            } else if p.len() > u32::MAX as usize {
                Err(ChunkError::OversizedPayload)
            } else {
                Ok(p)
            }
        },
    }
}

/// What an Anvil file held: the region, the slots whose payload lies in a sibling
/// file (with their timestamps), and the slots that were dropped, with why.
pub struct AnvilRead {
    pub region: Region,
    pub external: Vec<(usize, u32)>,
    pub errors: Vec<(usize, ChunkError)>,
}

/// What reading Anvil file `b` of the region at (`region_x`, `region_z`) gives: an
/// error for a file shorter than its header; else the region of the slots that
/// read, the slots in sibling files, and the dropped slots with their errors.
pub open spec fn anvil_read_spec(region_x: i32, region_z: i32, last_modified: u64, b: Seq<u8>, r: Result<AnvilRead, FormatError>) -> bool {
    &&& (b.len() < ANVIL_HEADER_SIZE <==> r is Err)
    &&& (r is Err ==> r == Err::<AnvilRead, FormatError>(FormatError::Truncated))
    &&& (r matches Ok(a) ==> {
            &&& a.region.wf()
            &&& a.region.region_x == region_x
            &&& a.region.region_z == region_z
            &&& a.region.last_modified == last_modified
            &&& forall|s: int| 0 <= s < REGION_SIZE ==> #[trigger] a.region.grid()[s] == anvil_slot(b, s)
            &&& forall|k: int|
                0 <= k < a.errors@.len() ==> #[trigger] a.errors@[k].0 < REGION_SIZE
                    && anvil_slot_error(b, a.errors@[k].0 as int) == Some(a.errors@[k].1)
            &&& forall|s: int|
                0 <= s < REGION_SIZE && #[trigger] anvil_slot_error(b, s) is Some ==> exists|k: int|
                    0 <= k < a.errors@.len() && #[trigger] a.errors@[k].0 == s
            &&& forall|k: int|
                0 <= k < a.external@.len() ==> #[trigger] a.external@[k].0 < REGION_SIZE
                    && anvil_record(b, a.external@[k].0 as int) is External
                    && a.external@[k].1 == timestamp_entry(b, a.external@[k].0 as int)
            &&& forall|s: int|
                0 <= s < REGION_SIZE && #[trigger] anvil_record(b, s) is External ==> exists|k: int|
                    0 <= k < a.external@.len() && #[trigger] a.external@[k].0 == s
        })
}

/// Reads an Anvil file of the region at (`region_x`, `region_z`). A file shorter
/// than its header is refused; a slot that cannot be read is dropped and listed,
/// and the others are read all the same.
pub fn read_anvil(region_x: i32, region_z: i32, last_modified: u64, b: &[u8]) -> (r: Result<
    AnvilRead,
    FormatError,
>)
    ensures
        anvil_read_spec(region_x, region_z, last_modified, b@, r),
{
    let len = b.len();
    if len < ANVIL_HEADER_SIZE {
        return Err(FormatError::Truncated);
    }
    let mut slots: Vec<Option<Chunk>> = Vec::new();
    let mut external: Vec<(usize, u32)> = Vec::new();
    let mut errors: Vec<(usize, ChunkError)> = Vec::new();
    while slots.len() < REGION_SIZE
        invariant
            len == b@.len(),
            len >= ANVIL_HEADER_SIZE,
            slots@.len() <= REGION_SIZE,
            forall|s: int| 0 <= s < slots@.len() ==> #[trigger] slot_ok(slots@, s),
            forall|s: int| 0 <= s < slots@.len() ==> #[trigger] grid_view(slots@)[s] == anvil_slot(b@, s),
            forall|k: int|
                0 <= k < errors@.len() ==> #[trigger] errors@[k].0 < slots@.len()
                    && anvil_slot_error(b@, errors@[k].0 as int) == Some(errors@[k].1),
            forall|s: int|
                0 <= s < slots@.len() && #[trigger] anvil_slot_error(b@, s) is Some ==> exists|k: int|
                    0 <= k < errors@.len() && #[trigger] errors@[k].0 == s,
            forall|k: int|
                0 <= k < external@.len() ==> #[trigger] external@[k].0 < slots@.len()
                    && anvil_record(b@, external@[k].0 as int) is External
                    && external@[k].1 == timestamp_entry(b@, external@[k].0 as int),
            forall|s: int|
                0 <= s < slots@.len() && #[trigger] anvil_record(b@, s) is External ==> exists|k: int|
                    0 <= k < external@.len() && external@[k].0 == s,
        decreases REGION_SIZE - slots@.len(),
    {
        let i = slots.len();
        let ghost prev = slots@;
        let ghost prev_err = errors@;
        let ghost prev_ext = external@;
        let loc = read_u32_be(b, 4 * i);
        let ts = read_u32_be(b, SECTOR_SIZE + 4 * i);
        assert(loc >> 8u32 <= 0xffffffu32) by (bit_vector);
        let start64 = (loc >> 8u32) as u64 * 4096;
        let mut chunk: Option<Chunk> = None;
        if loc == 0 {
        } else if start64 > (len - 4) as u64 {
            errors.push((i, ChunkError::CorruptLength));
        } else {
            let start = start64 as usize;
            let l = read_u32_be(b, start);
            if l == 0 {
            } else if l as usize > len - start - 4 {
                errors.push((i, ChunkError::CorruptLength));
            } else {
                let tag = b[start + 4];
                if tag & EXTERNAL_FLAG != 0 {
                    external.push((i, ts));
                } else {
                    let data = vstd::slice::slice_subrange(b, start + 5, start + 4 + l as usize);
                    match decode_payload(tag, data) {
                        Ok(p) => {
                            chunk = Some(Chunk::new(i % REGION_DIMENSION, i / REGION_DIMENSION, ts, p, Some(tag)));
                        },
                        Err(e) => {
                            errors.push((i, e));
                        },
                    }
                }
            }
        }
        slots.push(chunk);
        proof {
            assert(grid_view(slots@)[i as int] == anvil_slot(b@, i as int));
            assert forall|s: int| 0 <= s < slots@.len() implies #[trigger] slot_ok(slots@, s) by {
                if s < i {
                    assert(slot_ok(prev, s));
                }
            }
            assert forall|s: int| 0 <= s < slots@.len() implies #[trigger] grid_view(slots@)[s] == anvil_slot(b@, s) by {
                if s < i {
                    assert(grid_view(prev)[s] == anvil_slot(b@, s));
                }
            }
            assert forall|s: int|
                0 <= s < slots@.len() && #[trigger] anvil_slot_error(b@, s) is Some implies exists|k: int|
                    0 <= k < errors@.len() && #[trigger] errors@[k].0 == s by {
                if s < i {
                    let k = choose|k: int| 0 <= k < prev_err.len() && #[trigger] prev_err[k].0 == s;
                    assert(errors@[k] == prev_err[k]);
                } else {
                    assert(errors@[errors@.len() - 1].0 == s);
                }
            }
            assert forall|s: int|
                0 <= s < slots@.len() && #[trigger] anvil_record(b@, s) is External implies exists|k: int|
                    0 <= k < external@.len() && external@[k].0 == s by {
                if s < i {
                    let k = choose|k: int| 0 <= k < prev_ext.len() && #[trigger] prev_ext[k].0 == s;
                    assert(external@[k] == prev_ext[k]);
                } else {
                    assert(external@[external@.len() - 1].0 == s);
                }
            }
        }
    }
    let region = Region { region_x, region_z, last_modified, slots };
    Ok(AnvilRead { region, external, errors })
}

/// Replaces slot `slot` of `region` with the chunk held in a sibling file whose
/// bytes are `file`: a compression tag, then the encoded payload. On an error the
/// region is left as it was.
pub fn read_external(region: &mut Region, slot: usize, timestamp: u32, file: &[u8]) -> (r: Result<
    (),
    ChunkError,
>)
    requires
        old(region).wf(),
        slot < REGION_SIZE,
    ensures
        file@.len() == 0 ==> r == Err::<(), ChunkError>(ChunkError::CorruptLength) && *final(region)
            == *old(region),
        file@.len() > 0 ==> match stored_payload(file@[0], file@.skip(1)) {
            Ok(p) => r is Ok && final(region).grid() == old(region).grid().update(
                slot as int,
                Some((timestamp, p)),
            ),
            Err(e) => r == Err::<(), ChunkError>(e) && *final(region) == *old(region),
        },
        final(region).wf(),
        final(region).region_x == old(region).region_x,
        final(region).region_z == old(region).region_z,
        final(region).last_modified == old(region).last_modified,
{
    if file.len() == 0 {
        return Err(ChunkError::CorruptLength);
    }
    let tag = file[0];
    let data = vstd::slice::slice_subrange(file, 1, file.len());
    assert(data@ =~= file@.skip(1));
    match decode_payload(tag, data) {
        Err(e) => Err(e),
        Ok(p) => {
            let ghost prev = region.slots@;
            let c = Chunk::new(slot % REGION_DIMENSION, slot / REGION_DIMENSION, timestamp, p, Some(tag));
            region.slots.set(slot, Some(c));
            assert forall|t: int| 0 <= t < REGION_SIZE implies #[trigger] slot_ok(region.slots@, t) by {
                if t != slot {
                    assert(slot_ok(prev, t));
                }
            }
            assert(grid_view(region.slots@) =~= grid_view(prev).update(slot as int, Some((timestamp, p@))));
            Ok(())
        },
    }
}

/// The world coordinates of the chunk in slot `slot` of the region at
/// (`region_x`, `region_z`): the numbers in its sibling file's name.
pub fn external_chunk_coords(region_x: i32, region_z: i32, slot: usize) -> (r: (i64, i64))
    requires
        slot < REGION_SIZE,
    ensures
        r.0 == region_x * 32 + slot % 32,
        r.1 == region_z * 32 + slot / 32,
{
    (region_x as i64 * 32 + (slot % REGION_DIMENSION) as i64, region_z as i64 * 32 + (slot
        / REGION_DIMENSION) as i64)
}

/// An Anvil file as written: the region file's bytes and, for each payload too
/// large for its record, the slot and the bytes of its sibling file.
pub struct AnvilWritten {
    pub bytes: Vec<u8>,
    pub external: Vec<(usize, Vec<u8>)>,
}

/// Whether an encoded payload of `n` bytes fits a record of at most 255 sectors
/// together with its length field and tag.
pub open spec fn fits_in_record(n: int) -> bool {
    5 + n <= MAX_SECTORS * SECTOR_SIZE
}

/// Slot `s` of grid `g` holds a payload too large for a record under method `m`.
pub open spec fn goes_external(g: Seq<SlotView>, s: int, m: AnvilCompression) -> bool {
    g[s] matches Some((ts, p)) && !fits_in_record(encoded_payload(m, p).len() as int)
}

/// Slot `s` of the written file `b` holds `v` as the writer lays it out under
/// method `m`.
pub open spec fn written_slot(b: Seq<u8>, s: int, v: SlotView, m: AnvilCompression) -> bool {
    match v {
        None => location_entry(b, s) == 0 && timestamp_entry(b, s) == 0,
        Some((ts, p)) => {
            &&& timestamp_entry(b, s) == ts
            &&& record_start(b, s) >= ANVIL_HEADER_SIZE
            &&& if fits_in_record(encoded_payload(m, p).len() as int) {
                anvil_record(b, s) == AnvilRecord::Stored {
                    tag: tag_of(m),
                    timestamp: ts,
                    data: encoded_payload(m, p),
                }
            } else {
                anvil_record(b, s) == AnvilRecord::External {
                    tag: tag_of(m) | EXTERNAL_FLAG,
                    timestamp: ts,
                }
            }
        },
    }
}

proof fn lemma_be_u32_pointwise(b: Seq<u8>, i: int, n: u32)
    requires
        0 <= i,
        i + 4 <= b.len(),
        forall|k: int| 0 <= k < 4 ==> #[trigger] b[i + k] == be_bytes_u32(n)[k],
    ensures
        be_u32_at(b, i) == n,
{
    assert(b[i + 0] == be_bytes_u32(n)[0]);
    assert(b[i + 1] == be_bytes_u32(n)[1]);
    assert(b[i + 2] == be_bytes_u32(n)[2]);
    assert(b[i + 3] == be_bytes_u32(n)[3]);
    lemma_u32_bits(n);
}

/// Two files that agree on the first `a.len()` bytes but the header entries of
/// slot `i` say the same of every other slot whose record lies in those bytes.
proof fn lemma_slot_stable(a: Seq<u8>, b: Seq<u8>, j: int, i: int, v: SlotView, m: AnvilCompression)
    requires
        ANVIL_HEADER_SIZE <= a.len() <= b.len(),
        0 <= i < REGION_SIZE,
        0 <= j < REGION_SIZE,
        i != j,
        written_slot(a, j, v, m),
        forall|k: int|
            0 <= k < a.len() && !(4 * i <= k < 4 * i + 4) && !(SECTOR_SIZE + 4 * i <= k < SECTOR_SIZE
                + 4 * i + 4) ==> #[trigger] b[k] == a[k],
    ensures
        written_slot(b, j, v, m),
{
    assert(b[4 * j] == a[4 * j]);
    assert(b[4 * j + 1] == a[4 * j + 1]);
    assert(b[4 * j + 2] == a[4 * j + 2]);
    assert(b[4 * j + 3] == a[4 * j + 3]);
    assert(b[SECTOR_SIZE + 4 * j] == a[SECTOR_SIZE + 4 * j]);
    assert(b[SECTOR_SIZE + 4 * j + 1] == a[SECTOR_SIZE + 4 * j + 1]);
    assert(b[SECTOR_SIZE + 4 * j + 2] == a[SECTOR_SIZE + 4 * j + 2]);
    assert(b[SECTOR_SIZE + 4 * j + 3] == a[SECTOR_SIZE + 4 * j + 3]);
    assert(location_entry(b, j) == location_entry(a, j));
    assert(timestamp_entry(b, j) == timestamp_entry(a, j));
    if v is Some {
        let st = record_start(a, j);
        assert(b[st] == a[st]);
        assert(b[st + 1] == a[st + 1]);
        assert(b[st + 2] == a[st + 2]);
        assert(b[st + 3] == a[st + 3]);
        assert(b[st + 4] == a[st + 4]);
        let l = be_u32_at(a, st) as int;
        assert(b.subrange(st + 5, st + 4 + l) =~= a.subrange(st + 5, st + 4 + l));
    }
}

/// What the Anvil writer hands back for grid `g` under method `m`: a header
/// followed by whole sectors, every slot laid out as `written_slot` says, and one
/// sibling file for each payload too large for its record, holding the tag with
/// the external bit and the encoded payload.
pub open spec fn anvil_output(g: Seq<SlotView>, m: AnvilCompression, w: AnvilWritten) -> bool {
            &&& w.bytes@.len() >= ANVIL_HEADER_SIZE
            &&& w.bytes@.len() as int % 4096 == 0
            &&& (forall|s: int| 0 <= s < REGION_SIZE ==> #[trigger] g[s] is None) ==> w.bytes@
                == Seq::new(ANVIL_HEADER_SIZE as nat, |k: int| 0u8)
            &&& forall|s: int| 0 <= s < REGION_SIZE ==> #[trigger] written_slot(w.bytes@, s, g[s], m)
            &&& forall|k: int| 0 <= k < w.external@.len() ==> {
                &&& #[trigger] w.external@[k].0 < REGION_SIZE
                &&& g[w.external@[k].0 as int] matches Some((ts, p))
                &&& w.external@[k].1@ == seq![tag_of(m) | EXTERNAL_FLAG] + encoded_payload(m, p)
                &&& !fits_in_record(encoded_payload(m, p).len() as int)
            }
            &&& forall|s: int| 0 <= s < REGION_SIZE && #[trigger] goes_external(g, s, m) ==> exists|k: int|
                0 <= k < w.external@.len() && w.external@[k].0 == s
}

/// Reading `b` (and the sibling files `ext`) gives grid `g` back: each slot that
/// was empty reads as empty, each chunk in a record reads as itself, each chunk
/// too large for a record is an external entry whose sibling file decodes to it.
pub open spec fn reads_back(b: Seq<u8>, ext: Seq<(usize, Vec<u8>)>, g: Seq<SlotView>, m: AnvilCompression) -> bool {
    &&& forall|s: int|
        0 <= s < REGION_SIZE ==> match #[trigger] g[s] {
            Some((ts, p)) => if fits_in_record(encoded_payload(m, p).len() as int) {
                anvil_slot(b, s) == g[s]
            } else {
                anvil_record(b, s) is External && timestamp_entry(b, s) == ts
            },
            None => anvil_slot(b, s) is None && anvil_slot_error(b, s) is None && !(anvil_record(
                b,
                s,
            ) is External),
        }
    &&& forall|k: int|
        0 <= k < ext.len() ==> #[trigger] ext[k].0 < REGION_SIZE && match g[ext[k].0 as int] {
            Some((ts, p)) => ext[k].1@.len() > 0 && stored_payload(ext[k].1@[0], ext[k].1@.skip(1))
                == Ok::<Seq<u8>, ChunkError>(p),
            None => false,
        }
}

/// Slot `s` of `g` holds a payload that decoding by `m`'s tag recovers from its
/// encoding.
pub open spec fn codec_ok(g: Seq<SlotView>, s: int, m: AnvilCompression) -> bool {
    match g[s] {
        Some((ts, p)) => decoded_payload(tag_of(m), encoded_payload(m, p)) == Some(p),
        None => true,
    }
}

/// Writes a region as an Anvil file, encoding each payload with `m`. Records follow
/// the header in slot order, each from a fresh sector and padded with zeros to a
/// whole number of sectors; a payload too large for 255 sectors goes to a sibling
/// file. `None` only where the compressor failed.
#[verifier::rlimit(60)]
#[verifier::spinoff_prover]
pub fn write_anvil(region: &Region, m: AnvilCompression) -> (r: Option<AnvilWritten>)
    requires
        region.wf(),
    ensures
        r is Some,
        r matches Some(w) ==> anvil_output(region.grid(), m, w),
        r matches Some(w) ==> reads_back(w.bytes@, w.external@, region.grid(), m),
{
    let mut out: Vec<u8> = Vec::new();
    while out.len() < ANVIL_HEADER_SIZE
        invariant
            out@.len() <= ANVIL_HEADER_SIZE,
            forall|k: int| 0 <= k < out@.len() ==> #[trigger] out@[k] == 0,
        decreases ANVIL_HEADER_SIZE - out@.len(),
    {
        out.push(0);
    }
    let mut external: Vec<(usize, Vec<u8>)> = Vec::new();
    let mut i: usize = 0;
    assert(out@ =~= Seq::new(ANVIL_HEADER_SIZE as nat, |k: int| 0u8));
    while i < REGION_SIZE
        invariant
            region.wf(),
            i <= REGION_SIZE,
            ANVIL_HEADER_SIZE <= out@.len() <= ANVIL_HEADER_SIZE + i * MAX_SECTORS * SECTOR_SIZE,
            out@.len() as int % 4096 == 0,
            (forall|s: int| 0 <= s < i ==> #[trigger] region.grid()[s] is None) ==> out@ == Seq::new(
                ANVIL_HEADER_SIZE as nat,
                |k: int| 0u8,
            ),
            forall|k: int| 4 * i <= k < SECTOR_SIZE ==> #[trigger] out@[k] == 0,
            forall|k: int| SECTOR_SIZE + 4 * i <= k < ANVIL_HEADER_SIZE ==> #[trigger] out@[k] == 0,
            forall|s: int| 0 <= s < i ==> #[trigger] written_slot(out@, s, region.grid()[s], m),
            forall|s: int| 0 <= s < i ==> #[trigger] codec_ok(region.grid(), s, m),
            forall|k: int| 0 <= k < external@.len() ==> {
                &&& #[trigger] external@[k].0 < i
                &&& region.grid()[external@[k].0 as int] matches Some((ts, p))
                &&& external@[k].1@ == seq![tag_of(m) | EXTERNAL_FLAG] + encoded_payload(m, p)
                &&& !fits_in_record(encoded_payload(m, p).len() as int)
            },
            forall|s: int| 0 <= s < i && #[trigger] goes_external(region.grid(), s, m) ==> exists|k: int|
                0 <= k < external@.len() && external@[k].0 == s,
        decreases REGION_SIZE - i,
    {
        let ghost before = out@;
        let ghost prev_ext = external@;
        assert(slot_ok(region.slots@, i as int));
        match &region.slots[i] {
            None => {
                proof {
                    assert forall|k: int| 0 <= k < 4 implies #[trigger] out@[4 * i + k] == be_bytes_u32(0)[k] by {
                        assert((0u32 >> 24u32) == 0u32 && (0u32 >> 16u32) == 0u32 && (0u32 >> 8u32) == 0u32) by (bit_vector);
                        assert(out@[4 * i + k] == 0);
                    }
                    lemma_be_u32_pointwise(out@, 4 * i, 0);
                    assert forall|k: int| 0 <= k < 4 implies #[trigger] out@[SECTOR_SIZE + 4 * i + k] == be_bytes_u32(0)[k] by {
                        assert((0u32 >> 24u32) == 0u32 && (0u32 >> 16u32) == 0u32 && (0u32 >> 8u32) == 0u32) by (bit_vector);
                        assert(out@[SECTOR_SIZE + 4 * i + k] == 0);
                    }
                    lemma_be_u32_pointwise(out@, SECTOR_SIZE + 4 * i, 0);
                }
            },
            Some(c) => {
                let data = match compress(m, c.payload.as_slice()) {
                    Some(d) => d,
                    None => return None,
                };
                let ts = c.timestamp;
                let base_tag: u8 = match m {
                    AnvilCompression::Zlib => 2,
                    AnvilCompression::Uncompressed => 3,
                };
                let fits = data.len() <= MAX_SECTORS * SECTOR_SIZE - 5;
                let old_len = out.len();
                let offset = old_len / SECTOR_SIZE;
                let tag: u8;
                let l: u32;
                if fits {
                    tag = base_tag;
                    l = (data.len() + 1) as u32;
                    push_u32_be(&mut out, l);
                    out.push(tag);
                    extend(&mut out, data.as_slice());
                } else {
                    tag = base_tag | EXTERNAL_FLAG;
                    l = 1;
                    push_u32_be(&mut out, l);
                    out.push(tag);
                    let mut file: Vec<u8> = Vec::new();
                    file.push(tag);
                    extend(&mut file, data.as_slice());
                    external.push((i, file));
                }
                let ghost rec = out@;
                let rec_len = out.len() - old_len;
                let sectors = (rec_len + SECTOR_SIZE - 1) / SECTOR_SIZE;
                assert(rec_len <= 255 * 4096);
                assert(sectors as int * 4096 >= rec_len as int && 1 <= sectors as int <= 255) by (nonlinear_arith)
                    requires
                        sectors as int == (rec_len as int + 4095) / 4096,
                        1 <= rec_len as int <= 255 * 4096,
                ;
                let target = old_len + sectors * SECTOR_SIZE;
                while out.len() < target
                    invariant
                        rec.len() <= out@.len() <= target,
                        forall|k: int| 0 <= k < rec.len() ==> #[trigger] out@[k] == rec[k],
                    decreases target - out@.len(),
                {
                    out.push(0);
                }
                assert(offset * SECTOR_SIZE == old_len);
                assert(offset < 0x1000000);
                let off32 = offset as u32;
                let sec32 = sectors as u32;
                let loc = (off32 << 8u32) | sec32;
                assert((loc >> 8u32) == off32 && loc != 0) by (bit_vector)
                    requires
                        loc == (off32 << 8u32) | sec32,
                        off32 < 0x1000000u32,
                        off32 >= 2,
                        sec32 < 256u32,
                ;
                let ghost padded = out@;
                set_u32_be(&mut out, 4 * i, loc);
                let ghost mid = out@;
                set_u32_be(&mut out, SECTOR_SIZE + 4 * i, ts);
                proof {
                    assert forall|k: int| 0 <= k < 4 implies #[trigger] out@[4 * i + k] == be_bytes_u32(loc)[k] by {
                        assert(out@[4 * i + k] == mid[4 * i + k]);
                    }
                    lemma_be_u32_pointwise(out@, 4 * i, loc);
                    lemma_be_u32_pointwise(out@, SECTOR_SIZE + 4 * i, ts);
                    assert forall|k: int| 0 <= k < 4 implies #[trigger] out@[old_len + k] == be_bytes_u32(l)[k] by {
                        assert(out@[old_len + k] == rec[old_len + k]);
                    }
                    lemma_be_u32_pointwise(out@, old_len as int, l);
                    assert(out@[old_len + 4] == rec[old_len + 4]);
                    assert((2u8 & 0x80u8) == 0u8 && (3u8 & 0x80u8) == 0u8) by (bit_vector);
                    assert(((2u8 | 0x80u8) & 0x80u8) != 0u8 && ((3u8 | 0x80u8) & 0x80u8) != 0u8) by (bit_vector);
                    assert(record_start(out@, i as int) == old_len);
                    if fits {
                        assert(out@.subrange(old_len + 5, old_len + 4 + l) =~= data@) by {
                            assert forall|k: int| 0 <= k < data@.len() implies out@.subrange(old_len + 5, old_len + 4 + l)[k] == data@[k] by {
                                assert(out@[old_len + 5 + k] == rec[old_len + 5 + k]);
                            }
                        }
                    }
                }
            },
        }
        proof {
            if forall|s: int| 0 <= s < i + 1 ==> #[trigger] region.grid()[s] is None {
                assert(region.grid()[i as int] is None);
                assert(out@ == before);
            }
            assert forall|s: int| 0 <= s < i + 1 implies #[trigger] codec_ok(region.grid(), s, m) by {
            }
            assert forall|s: int| 0 <= s < i implies #[trigger] written_slot(out@, s, region.grid()[s], m) by {
                assert(written_slot(before, s, region.grid()[s], m));
                lemma_slot_stable(before, out@, s, i as int, region.grid()[s], m);
            }
            assert forall|s: int| 0 <= s < i + 1 && #[trigger] goes_external(region.grid(), s, m) implies exists|k: int|
                0 <= k < external@.len() && external@[k].0 == s by {
                if s < i {
                    let k = choose|k: int| 0 <= k < prev_ext.len() && #[trigger] prev_ext[k].0 == s;
                    assert(external@[k] == prev_ext[k]);
                } else {
                    assert(external@[external@.len() - 1].0 == s);
                }
            }
        }
        i = i + 1;
    }
    let w = AnvilWritten { bytes: out, external };
    proof {
        let g = region.grid();
        lemma_grid_view_wf(region.slots@);
        lemma_anvil_round_trip(w.bytes@, g, m);
        assert forall|s: int| 0 <= s < REGION_SIZE implies match #[trigger] g[s] {
            Some((ts, p)) => if fits_in_record(encoded_payload(m, p).len() as int) {
                anvil_slot(w.bytes@, s) == g[s]
            } else {
                anvil_record(w.bytes@, s) is External && timestamp_entry(w.bytes@, s) == ts
            },
            None => anvil_slot(w.bytes@, s) is None && anvil_slot_error(w.bytes@, s) is None && !(anvil_record(
                w.bytes@,
                s,
            ) is External),
        } by {
            assert(codec_ok(g, s, m));
            assert(written_slot(w.bytes@, s, g[s], m));
        }
        assert forall|k: int| 0 <= k < w.external@.len() implies #[trigger] w.external@[k].0 < REGION_SIZE && match g[w.external@[k].0 as int] {
            Some((ts, p)) => w.external@[k].1@.len() > 0 && stored_payload(w.external@[k].1@[0], w.external@[k].1@.skip(1))
                == Ok::<Seq<u8>, ChunkError>(p),
            None => false,
        } by {
            let s = w.external@[k].0 as int;
            assert(codec_ok(g, s, m));
            let f = w.external@[k].1@;
            match g[s] {
                Some((ts, p)) => {
                    assert(f.skip(1) =~= encoded_payload(m, p));
                },
                None => {},
            }
        }
    }
    Some(w)
}

/// Every slot the writer laid out reads back as it was written: an empty slot
/// as empty and without error; a chunk in a record as its timestamp and payload,
/// wherever its method decodes what it encoded (always, for stored payloads); and
/// a chunk in a sibling file as an external record, whose file decodes to it.
pub proof fn lemma_anvil_round_trip(b: Seq<u8>, g: Seq<SlotView>, m: AnvilCompression)
    requires
        view_wf(g),
        forall|s: int| 0 <= s < REGION_SIZE ==> #[trigger] written_slot(b, s, g[s], m),
    ensures
        forall|s: int|
            0 <= s < REGION_SIZE && #[trigger] g[s] is None ==> anvil_slot(b, s) is None
                && anvil_slot_error(b, s) is None && !(anvil_record(b, s) is External),
        forall|s: int|
            0 <= s < REGION_SIZE ==> match #[trigger] g[s] {
                Some((ts, p)) => decoded_payload(tag_of(m), encoded_payload(m, p)) == Some(p) ==> if fits_in_record(
                    encoded_payload(m, p).len() as int,
                ) {
                    anvil_slot(b, s) == g[s]
                } else {
                    anvil_record(b, s) is External && stored_payload(
                        tag_of(m) | EXTERNAL_FLAG,
                        encoded_payload(m, p),
                    ) == Ok::<Seq<u8>, ChunkError>(p)
                },
                None => true,
            },
        m == AnvilCompression::Uncompressed ==> forall|s: int|
            0 <= s < REGION_SIZE ==> match #[trigger] g[s] {
                Some((ts, p)) => fits_in_record(p.len() as int) ==> anvil_slot(b, s) == g[s],
                None => true,
            },
{
    assert(method_of(2u8 | 0x80u8) == 2u8 && method_of(3u8 | 0x80u8) == 3u8) by (bit_vector);
    assert(method_of(2u8) == 2u8 && method_of(3u8) == 3u8) by (bit_vector);
    assert forall|s: int|
        0 <= s < REGION_SIZE && #[trigger] g[s] is None implies anvil_slot(b, s) is None
            && anvil_slot_error(b, s) is None && !(anvil_record(b, s) is External) by {
        assert(written_slot(b, s, g[s], m));
    }
    assert forall|s: int|
        0 <= s < REGION_SIZE implies match #[trigger] g[s] {
            Some((ts, p)) => decoded_payload(tag_of(m), encoded_payload(m, p)) == Some(p) ==> if fits_in_record(
                encoded_payload(m, p).len() as int,
            ) {
                anvil_slot(b, s) == g[s]
            } else {
                anvil_record(b, s) is External && stored_payload(
                    tag_of(m) | EXTERNAL_FLAG,
                    encoded_payload(m, p),
                ) == Ok::<Seq<u8>, ChunkError>(p)
            },
            None => true,
        } by {
        assert(written_slot(b, s, g[s], m));
        match g[s] {
            Some((ts, p)) => {
                assert(payload_ok(p));
            },
            None => {},
        }
    }
    assert forall|s: int|
        0 <= s < REGION_SIZE && m == AnvilCompression::Uncompressed implies match #[trigger] g[s] {
            Some((ts, p)) => fits_in_record(p.len() as int) ==> anvil_slot(b, s) == g[s],
            None => true,
        } by {
        assert(written_slot(b, s, g[s], m));
        match g[s] {
            Some((ts, p)) => {
                assert(payload_ok(p));
            },
            None => {},
        }
    }
}

/// A stored record whose tag names no known method yields no chunk and the
/// error that names the tag; every other slot reads by its own record alone.
pub proof fn lemma_unsupported_tag_dropped(b: Seq<u8>, s: int)
    requires
        anvil_record(b, s) matches AnvilRecord::Stored { tag, timestamp, data } && !method_known(tag),
    ensures
        anvil_slot(b, s) is None,
        anvil_record(b, s) matches AnvilRecord::Stored { tag, timestamp, data } && anvil_slot_error(b, s)
            == Some(ChunkError::UnsupportedCompression(tag)),
{
}

/// What an Anvil file holds, slot by slot.
pub open spec fn anvil_grid(a: Seq<u8>) -> Seq<SlotView> {
    Seq::new(REGION_SIZE as nat, |i: int| anvil_slot(a, i))
}

/// Converting an Anvil file to Linear and back keeps every chunk it held: the
/// Linear records of its grid parse back to that grid, and an Anvil file that
/// reads back that grid (as the writer's output does) yields in each slot the
/// chunk of the first file, in its record or in its sibling file.
pub proof fn lemma_anvil_linear_anvil(
    a: Seq<u8>,
    b: Seq<u8>,
    ext: Seq<(usize, Vec<u8>)>,
    m: AnvilCompression,
)
    requires
        a.len() >= ANVIL_HEADER_SIZE,
        reads_back(b, ext, anvil_grid(a), m),
    ensures
        parse_records(linear_records(anvil_grid(a)), 0) == Some(anvil_grid(a)),
        forall|s: int|
            0 <= s < REGION_SIZE ==> match #[trigger] anvil_slot(a, s) {
                Some((ts, p)) => if fits_in_record(encoded_payload(m, p).len() as int) {
                    anvil_slot(b, s) == anvil_slot(a, s)
                } else {
                    anvil_record(b, s) is External && timestamp_entry(b, s) == ts
                },
                None => anvil_slot(b, s) is None,
            },
        forall|k: int|
            0 <= k < ext.len() ==> (#[trigger] ext[k]).0 < REGION_SIZE && (anvil_slot(a, ext[k].0 as int)
                matches Some((ts, p)) && ext[k].1@.len() > 0 && stored_payload(ext[k].1@[0], ext[k].1@.skip(1))
                == Ok::<Seq<u8>, ChunkError>(p)),
{
    let g = anvil_grid(a);
    assert forall|s: int| 0 <= s < REGION_SIZE implies match #[trigger] g[s] {
        Some((ts, p)) => payload_ok(p),
        None => true,
    } by {
        assert(g[s] == anvil_slot(a, s));
    }
    crate::linear::lemma_linear_records_round_trip(g);
    assert forall|s: int| 0 <= s < REGION_SIZE implies match #[trigger] anvil_slot(a, s) {
        Some((ts, p)) => if fits_in_record(encoded_payload(m, p).len() as int) {
            anvil_slot(b, s) == anvil_slot(a, s)
        } else {
            anvil_record(b, s) is External && timestamp_entry(b, s) == ts
        },
        None => anvil_slot(b, s) is None,
    } by {
        assert(g[s] == anvil_slot(a, s));
    }
    assert forall|k: int| 0 <= k < ext.len() implies (#[trigger] ext[k]).0 < REGION_SIZE && (anvil_slot(a, ext[k].0 as int)
        matches Some((ts, p)) && ext[k].1@.len() > 0 && stored_payload(ext[k].1@[0], ext[k].1@.skip(1))
        == Ok::<Seq<u8>, ChunkError>(p)) by {
        assert(ext[k].0 < REGION_SIZE);
        assert(g[ext[k].0 as int] == anvil_slot(a, ext[k].0 as int));
    }
}

/// An Anvil file that is nothing but a zeroed header holds no chunks, no
/// sibling-file entries and no errors.
pub proof fn lemma_empty_anvil_reads_empty(s: int)
    requires
        0 <= s < REGION_SIZE,
    ensures
        anvil_record(Seq::new(ANVIL_HEADER_SIZE as nat, |k: int| 0u8), s) is Absent,
        anvil_slot(Seq::new(ANVIL_HEADER_SIZE as nat, |k: int| 0u8), s) is None,
        anvil_slot_error(Seq::new(ANVIL_HEADER_SIZE as nat, |k: int| 0u8), s) is None,
{
    let b = Seq::new(ANVIL_HEADER_SIZE as nat, |k: int| 0u8);
    assert(b[4 * s] == 0 && b[4 * s + 1] == 0 && b[4 * s + 2] == 0 && b[4 * s + 3] == 0);
    assert(((0u8 as u32) << 24u32) | ((0u8 as u32) << 16u32) | ((0u8 as u32) << 8u32) | (0u8 as u32)
        == 0u32) by (bit_vector);
    assert(location_entry(b, s) == 0);
}

/// A chunk dropped for an unknown compression tag leaves the file reading as if
/// its slot were empty: with that slot's location entry zeroed, every slot reads
/// the same chunk and every other slot the same error, provided the other records
/// lie past the header.
pub proof fn lemma_unsupported_as_absent(b: Seq<u8>, b2: Seq<u8>, i: int)
    requires
        0 <= i < REGION_SIZE,
        b.len() >= ANVIL_HEADER_SIZE,
        b2.len() == b.len(),
        anvil_record(b, i) matches AnvilRecord::Stored { tag, timestamp, data } && !method_known(tag),
        forall|k: int| 4 * i <= k < 4 * i + 4 ==> #[trigger] b2[k] == 0,
        forall|k: int| 0 <= k < b.len() && !(4 * i <= k < 4 * i + 4) ==> #[trigger] b2[k] == b[k],
        forall|s: int|
            0 <= s < REGION_SIZE && s != i && #[trigger] location_entry(b, s) != 0 ==> record_start(b, s)
                >= ANVIL_HEADER_SIZE,
    ensures
        anvil_grid(b) == anvil_grid(b2),
        forall|s: int| 0 <= s < REGION_SIZE && s != i ==> #[trigger] anvil_slot_error(b2, s) == anvil_slot_error(b, s),
        anvil_slot_error(b2, i) is None,
{
    assert(b2[4 * i] == 0 && b2[4 * i + 1] == 0 && b2[4 * i + 2] == 0 && b2[4 * i + 3] == 0);
    assert(((0u8 as u32) << 24u32) | ((0u8 as u32) << 16u32) | ((0u8 as u32) << 8u32) | (0u8 as u32)
        == 0u32) by (bit_vector);
    assert(location_entry(b2, i) == 0);
    assert forall|s: int| 0 <= s < REGION_SIZE && s != i implies anvil_record(b2, s) == anvil_record(b, s) by {
        assert(b2[4 * s] == b[4 * s]);
        assert(b2[4 * s + 1] == b[4 * s + 1]);
        assert(b2[4 * s + 2] == b[4 * s + 2]);
        assert(b2[4 * s + 3] == b[4 * s + 3]);
        assert(b2[SECTOR_SIZE + 4 * s] == b[SECTOR_SIZE + 4 * s]);
        assert(b2[SECTOR_SIZE + 4 * s + 1] == b[SECTOR_SIZE + 4 * s + 1]);
        assert(b2[SECTOR_SIZE + 4 * s + 2] == b[SECTOR_SIZE + 4 * s + 2]);
        assert(b2[SECTOR_SIZE + 4 * s + 3] == b[SECTOR_SIZE + 4 * s + 3]);
        assert(location_entry(b2, s) == location_entry(b, s));
        assert(timestamp_entry(b2, s) == timestamp_entry(b, s));
        if location_entry(b, s) != 0 {
            let st = record_start(b, s);
            if st + 4 <= b.len() {
                assert(b2[st] == b[st]);
                assert(b2[st + 1] == b[st + 1]);
                assert(b2[st + 2] == b[st + 2]);
                assert(b2[st + 3] == b[st + 3]);
                let l = be_u32_at(b, st) as int;
                if l != 0 && st + 4 + l <= b.len() {
                    assert(b2[st + 4] == b[st + 4]);
                    assert(b2.subrange(st + 5, st + 4 + l) =~= b.subrange(st + 5, st + 4 + l));
                }
            }
        }
    }
    assert(anvil_grid(b) =~= anvil_grid(b2));
}

} // verus!
