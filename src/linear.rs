use vstd::prelude::*;
use crate::bytes::{
    be_bytes_u32, be_bytes_u64, be_u32_at, be_u64_at, lemma_be_u32_round_trip,
    lemma_be_u64_round_trip, extend, push_u32_be, push_u64_be, read_u32_be, read_u64_be,
};
use crate::error::FormatError;
use crate::codec::{zstd_compress, zstd_decompress, zstd_decoded, zstd_encoded};
use crate::region::{
    count_occupied, newest_upto, grid_view, grid_wf, payload_ok, slot_ok, Chunk, Region, SlotView,
    REGION_DIMENSION, REGION_SIZE,
};

verus! {

/// The Linear format version this writer emits.
pub const LINEAR_VERSION: u8 = 1;

/// Bytes before the compressed body: signature, version, level, timestamp, count.
pub const LINEAR_HEADER_SIZE: usize = 22;

/// The eight signature bytes that open and close a Linear file.
pub open spec fn linear_signature() -> Seq<u8> {
    seq![0xc3u8, 0xffu8, 0x13u8, 0x18u8, 0x3cu8, 0xcau8, 0x9du8, 0x9au8]
}

/// Versions the reader accepts.
pub open spec fn version_supported(v: u8) -> bool {
    v == 1 || v == 2
}

/// The record of one slot in the decompressed body: a zero length for an empty
/// slot, else the length, the timestamp and the payload.
pub open spec fn slot_record(v: SlotView) -> Seq<u8> {
    match v {
        None => be_bytes_u32(0),
        Some((ts, p)) => be_bytes_u32(p.len() as u32) + be_bytes_u32(ts) + p,
    }
}

/// The records of slots `s` up to the end of the grid.
pub open spec fn records_from(g: Seq<SlotView>, s: int) -> Seq<u8>
    decreases REGION_SIZE - s,
{
    if s >= REGION_SIZE {
        seq![]
    } else {
        slot_record(g[s]) + records_from(g, s + 1)
    }
}

/// The records of the first `n` slots.
pub open spec fn records_upto(g: Seq<SlotView>, n: int) -> Seq<u8>
    decreases n,
{
    if n <= 0 {
        seq![]
    } else {
        records_upto(g, n - 1) + slot_record(g[n - 1])
    }
}

/// The decompressed body of a Linear file holding grid `g`.
pub open spec fn linear_records(g: Seq<SlotView>) -> Seq<u8> {
    records_from(g, 0)
}

pub open spec fn prepend(x: SlotView, rest: Option<Seq<SlotView>>) -> Option<Seq<SlotView>> {
    match rest {
        Some(r) => Some(seq![x] + r),
        None => None,
    }
}

pub open spec fn prepend_all(xs: Seq<SlotView>, rest: Option<Seq<SlotView>>) -> Option<
    Seq<SlotView>,
> {
    match rest {
        Some(r) => Some(xs + r),
        None => None,
    }
}

/// The slots `s..1024` that the record bytes `b` hold, or `None` where `b` is cut
/// short or runs on past the last slot.
pub open spec fn parse_records(b: Seq<u8>, s: int) -> Option<Seq<SlotView>>
    decreases REGION_SIZE - s,
{
    if s >= REGION_SIZE {
        if b.len() == 0 {
            Some(seq![])
        } else {
            None
        }
    } else if b.len() < 4 {
        None
    } else if be_u32_at(b, 0) == 0 {
        prepend(None, parse_records(b.skip(4), s + 1))
    } else if b.len() < 8 + be_u32_at(b, 0) {
        None
    } else {
        let l = be_u32_at(b, 0) as int;
        prepend(Some((be_u32_at(b, 4), b.subrange(8, 8 + l))), parse_records(b.skip(8 + l), s + 1))
    }
}

/// Every chunk of a grid view has a payload a record can hold.
pub open spec fn view_wf(g: Seq<SlotView>) -> bool {
    &&& g.len() == REGION_SIZE
    &&& forall|s: int| 0 <= s < REGION_SIZE ==> match #[trigger] g[s] {
        Some((ts, p)) => payload_ok(p),
        None => true,
    }
}

/// The view of a well-formed grid has payloads that records can hold.
pub proof fn lemma_grid_view_wf(slots: Seq<Option<Chunk>>)
    requires
        grid_wf(slots),
    ensures
        view_wf(grid_view(slots)),
{
    assert forall|s: int| 0 <= s < REGION_SIZE implies match #[trigger] grid_view(slots)[s] {
        Some((ts, p)) => payload_ok(p),
        None => true,
    } by {
        assert(slot_ok(slots, s));
    }
}

proof fn lemma_records_split(g: Seq<SlotView>, n: int)
    requires
        0 <= n <= REGION_SIZE,
    ensures
        records_upto(g, n) + records_from(g, n) == linear_records(g),
    decreases n,
{
    if n > 0 {
        lemma_records_split(g, n - 1);
        assert(records_from(g, n - 1) == slot_record(g[n - 1]) + records_from(g, n));
        assert(records_upto(g, n) + records_from(g, n) =~= records_upto(g, n - 1) + records_from(
            g,
            n - 1,
        ));
    }
}

proof fn lemma_parse_records_from(g: Seq<SlotView>, s: int)
    requires
        view_wf(g),
        0 <= s <= REGION_SIZE,
    ensures
        parse_records(records_from(g, s), s) == Some(g.skip(s)),
    decreases REGION_SIZE - s,
{
    if s < REGION_SIZE {
        let b = records_from(g, s);
        let rest = records_from(g, s + 1);
        lemma_parse_records_from(g, s + 1);
        assert(g.skip(s) =~= seq![g[s]] + g.skip(s + 1));
        match g[s] {
            None => {
                assert(b =~= seq![] + be_bytes_u32(0) + rest);
                lemma_be_u32_round_trip(0, seq![], rest);
                assert(b.skip(4) =~= rest);
            },
            Some((ts, p)) => {
                assert(payload_ok(p));
                let l = p.len() as u32;
                assert(b =~= seq![] + be_bytes_u32(l) + (be_bytes_u32(ts) + p + rest));
                lemma_be_u32_round_trip(l, seq![], be_bytes_u32(ts) + p + rest);
                assert(b =~= be_bytes_u32(l) + be_bytes_u32(ts) + (p + rest));
                lemma_be_u32_round_trip(ts, be_bytes_u32(l), p + rest);
                assert(b.subrange(8, 8 + p.len() as int) =~= p);
                assert(b.skip(8 + p.len() as int) =~= rest);
            },
        }
    } else {
        assert(g.skip(s) =~= seq![]);
    }
}

/// Parsing the records written for a grid gives back every slot: the same
/// timestamps and payloads at the same positions, and nothing where there was
/// nothing.
pub proof fn lemma_linear_records_round_trip(g: Seq<SlotView>)
    requires
        view_wf(g),
    ensures
        parse_records(linear_records(g), 0) == Some(g),
{
    lemma_parse_records_from(g, 0);
    assert(g.skip(0) =~= g);
}

/// Reads the slot records of a decompressed Linear body into a grid.
pub fn parse_linear_records(body: &[u8]) -> (r: Option<Vec<Option<Chunk>>>)
    ensures
        r is Some <==> parse_records(body@, 0) is Some,
        r matches Some(v) ==> grid_wf(v@) && parse_records(body@, 0) == Some(grid_view(v@)),
        r matches Some(v) ==> forall|s: int|
            0 <= s < REGION_SIZE && (#[trigger] v@[s]) is Some ==> v@[s]->Some_0.source_compression is None,
{
    let mut slots: Vec<Option<Chunk>> = Vec::new();
    let mut pos: usize = 0;
    let len = body.len();
    proof {
        assert(body@.skip(0) =~= body@);
        assert(grid_view(slots@) =~= seq![]);
        match parse_records(body@, 0) {
            Some(r) => assert(seq![] + r =~= r),
            None => {},
        }
    }
    while slots.len() < REGION_SIZE
        invariant
            len == body@.len(),
            pos <= len,
            slots@.len() <= REGION_SIZE,
            forall|s: int| 0 <= s < slots@.len() ==> #[trigger] slot_ok(slots@, s),
            forall|s: int|
                0 <= s < slots@.len() && (#[trigger] slots@[s]) is Some ==> slots@[s]->Some_0.source_compression is None,
            parse_records(body@, 0) == prepend_all(
                grid_view(slots@),
                parse_records(body@.skip(pos as int), slots@.len() as int),
            ),
        decreases REGION_SIZE - slots@.len(),
    {
        let ghost rest = body@.skip(pos as int);
        let ghost s = slots@.len() as int;
        if len - pos < 4 {
            return None;
        }
        let l = read_u32_be(body, pos);
        assert(be_u32_at(rest, 0) == l);
        let ghost prev = slots@;
        if l == 0 {
            slots.push(None);
            assert(rest.skip(4) =~= body@.skip(pos + 4));
            pos = pos + 4;
        } else {
            if ((len - pos) as u64) < 8 + l as u64 {
                return None;
            }
            let ts = read_u32_be(body, pos + 4);
            assert(be_u32_at(rest, 4) == ts);
            let end = pos + 8 + l as usize;
            let payload = vstd::slice::slice_to_vec(vstd::slice::slice_subrange(body, pos + 8, end));
            assert(payload@ =~= rest.subrange(8, 8 + l as int));
            let x = slots.len() % REGION_DIMENSION;
            let z = slots.len() / REGION_DIMENSION;
            slots.push(Some(Chunk::from_nbt(x, z, ts, payload)));
            assert(rest.skip(8 + l as int) =~= body@.skip(end as int));
            pos = end;
        }
        assert(grid_view(slots@) =~= grid_view(prev) + seq![grid_view(slots@)[s]]);
        assert forall|t: int| 0 <= t < slots@.len() implies #[trigger] slot_ok(slots@, t) by {
            if t < s {
                assert(slot_ok(prev, t));
            }
        }
    }
    assert(body@.skip(pos as int).len() == len - pos);
    if pos < len {
        return None;
    }
    assert(grid_view(slots@) + seq![] =~= grid_view(slots@));
    Some(slots)
}

/// Writes the slot records of a region's grid, uncompressed.
pub fn linear_body(region: &Region) -> (r: Vec<u8>)
    requires
        region.wf(),
    ensures
        r@ == linear_records(region.grid()),
{
    let mut out: Vec<u8> = Vec::new();
    let mut i: usize = 0;
    while i < REGION_SIZE
        invariant
            region.wf(),
            i <= REGION_SIZE,
            out@ == records_upto(region.grid(), i as int),
        decreases REGION_SIZE - i,
    {
        assert(slot_ok(region.slots@, i as int));
        match &region.slots[i] {
            None => {
                push_u32_be(&mut out, 0);
            },
            Some(c) => {
                push_u32_be(&mut out, c.payload.len() as u32);
                push_u32_be(&mut out, c.timestamp);
                extend(&mut out, &c.payload);
            },
        }
        i = i + 1;
    }
    proof {
        lemma_records_split(region.grid(), REGION_SIZE as int);
        assert(records_from(region.grid(), REGION_SIZE as int) =~= seq![]);
        assert(out@ + seq![] =~= out@);
    }
    out
}

/// The fixed fields of a Linear file.
#[derive(Clone, Copy, Debug, PartialEq, Eq, Structural)]
pub struct LinearHeader {
    pub version: u8,
    pub level: u8,
    pub timestamp: u64,
    pub chunk_count: u32,
}

/// The eight bytes at `i` are the signature.
pub open spec fn signature_at(b: Seq<u8>, i: int) -> bool {
    b.subrange(i, i + 8) == linear_signature()
}

/// The error that the frame of `b` gives, if any: length, then the signatures,
/// then the version.
pub open spec fn linear_frame_error(b: Seq<u8>) -> Option<FormatError> {
    if b.len() < LINEAR_HEADER_SIZE + 8 {
        Some(FormatError::Truncated)
    } else if !signature_at(b, 0) || !signature_at(b, b.len() - 8) {
        Some(FormatError::BadSignature)
    } else if !version_supported(b[8]) {
        Some(FormatError::UnsupportedVersion(b[8]))
    } else {
        None
    }
}

/// The compressed body of a Linear file: what lies between header and trailer.
pub open spec fn linear_body_of(b: Seq<u8>) -> Seq<u8> {
    b.subrange(LINEAR_HEADER_SIZE as int, b.len() - 8)
}

/// The bytes of a Linear file with the given fields and compressed body.
pub open spec fn linear_file(level: u8, timestamp: u64, count: u32, compressed: Seq<u8>) -> Seq<
    u8,
> {
    linear_signature() + seq![LINEAR_VERSION, level] + be_bytes_u64(timestamp) + be_bytes_u32(count)
        + compressed + linear_signature()
}

fn check_signature(b: &[u8], i: usize) -> (r: bool)
    requires
        i + 8 <= b@.len(),
    ensures
        r == signature_at(b@, i as int),
{
    let r = b[i] == 0xc3 && b[i + 1] == 0xff && b[i + 2] == 0x13 && b[i + 3] == 0x18 && b[i + 4]
        == 0x3c && b[i + 5] == 0xca && b[i + 6] == 0x9d && b[i + 7] == 0x9a;
    proof {
        if r {
            assert(b@.subrange(i as int, i + 8) =~= linear_signature());
        } else {
            if signature_at(b@, i as int) {
                assert(b@.subrange(i as int, i + 8)[0] == b@[i as int]);
                assert(b@.subrange(i as int, i + 8)[1] == b@[i + 1]);
                assert(b@.subrange(i as int, i + 8)[2] == b@[i + 2]);
                assert(b@.subrange(i as int, i + 8)[3] == b@[i + 3]);
                assert(b@.subrange(i as int, i + 8)[4] == b@[i + 4]);
                assert(b@.subrange(i as int, i + 8)[5] == b@[i + 5]);
                assert(b@.subrange(i as int, i + 8)[6] == b@[i + 6]);
                assert(b@.subrange(i as int, i + 8)[7] == b@[i + 7]);
            }
        }
    }
    r
}

/// Checks the frame of a Linear file and reads its fixed fields.
pub fn parse_linear_header(b: &[u8]) -> (r: Result<LinearHeader, FormatError>)
    ensures
        match linear_frame_error(b@) {
            Some(e) => r == Err::<LinearHeader, FormatError>(e),
            None => r == Ok::<LinearHeader, FormatError>(
                LinearHeader {
                    version: b@[8],
                    level: b@[9],
                    timestamp: be_u64_at(b@, 10),
                    chunk_count: be_u32_at(b@, 18),
                },
            ),
        },
{
    let len = b.len();
    if len < LINEAR_HEADER_SIZE + 8 {
        return Err(FormatError::Truncated);
    }
    if !check_signature(b, 0) || !check_signature(b, len - 8) {
        return Err(FormatError::BadSignature);
    }
    let version = b[8];
    if !(version == 1 || version == 2) {
        return Err(FormatError::UnsupportedVersion(version));
    }
    Ok(
        LinearHeader {
            version,
            level: b[9],
            timestamp: read_u64_be(b, 10),
            chunk_count: read_u32_be(b, 18),
        },
    )
}

/// A region from the decompressed body of a Linear file.
pub fn region_from_linear_records(region_x: i32, region_z: i32, timestamp: u64, records: &[u8]) -> (r:
    Result<Region, FormatError>)
    ensures
        match parse_records(records@, 0) {
            None => r == Err::<Region, FormatError>(FormatError::CorruptBody),
            Some(g) => r matches Ok(reg) && reg.wf() && reg.grid() == g && reg.region_x == region_x
                && reg.region_z == region_z && reg.last_modified == timestamp,
        },
{
    match parse_linear_records(records) {
        None => Err(FormatError::CorruptBody),
        Some(slots) => Ok(Region { region_x, region_z, last_modified: timestamp, slots }),
    }
}

/// What reading Linear file `b` of the region at (`region_x`, `region_z`) gives:
/// the frame's error, if any; else an error where the body does not decompress or
/// its records do not fit the grid; else the region they hold.
pub open spec fn linear_read_spec(region_x: i32, region_z: i32, b: Seq<u8>, r: Result<Region, FormatError>) -> bool {
    match linear_frame_error(b) {
        Some(e) => r == Err::<Region, FormatError>(e),
        None => match zstd_decoded(linear_body_of(b)) {
            None => r == Err::<Region, FormatError>(FormatError::CorruptBody),
            Some(d) => match parse_records(d, 0) {
                None => r == Err::<Region, FormatError>(FormatError::CorruptBody),
                Some(g) => r matches Ok(reg) && reg.wf() && reg.grid() == g && reg.region_x
                    == region_x && reg.region_z == region_z && reg.last_modified == be_u64_at(b, 10),
            },
        },
    }
}

/// Reads a Linear file of the region at (`region_x`, `region_z`).
pub fn read_linear(region_x: i32, region_z: i32, b: &[u8]) -> (r: Result<Region, FormatError>)
    ensures
        linear_read_spec(region_x, region_z, b@, r),
{
    let header = match parse_linear_header(b) {
        Ok(h) => h,
        Err(e) => return Err(e),
    };
    let body = vstd::slice::slice_subrange(b, LINEAR_HEADER_SIZE, b.len() - 8);
    match zstd_decompress(body) {
        None => Err(FormatError::CorruptBody),
        Some(d) => region_from_linear_records(region_x, region_z, header.timestamp, d.as_slice()),
    }
}

/// Writes a region as a Linear file whose body is compressed at `level`, stamped
/// with the newest chunk timestamp.
/// `None` only where the compressor failed.
pub fn write_linear(region: &Region, level: u8) -> (r: Option<Vec<u8>>)
    requires
        region.wf(),
        1 <= level <= 22,
    ensures
        r matches Some(out) ==> out@ == linear_file(
            level,
            newest_upto(region.grid(), REGION_SIZE as int) as u64,
            count_occupied(region.grid(), REGION_SIZE as int) as u32,
            zstd_encoded(linear_records(region.grid()), level as i32),
        ),
        r is Some,
        r matches Some(out) ==> forall|x: i32, z: i32, rr: Result<Region, FormatError>|
            #[trigger] linear_read_spec(x, z, out@, rr) ==> (rr matches Ok(reg) && reg.grid()
                == region.grid() && reg.last_modified == newest_upto(region.grid(), REGION_SIZE as int) as u64),
{
    let records = linear_body(region);
    let compressed = match zstd_compress(records.as_slice(), level as i32) {
        Some(c) => c,
        None => return None,
    };
    let mut out: Vec<u8> = Vec::new();
    push_signature(&mut out);
    out.push(LINEAR_VERSION);
    out.push(level);
    push_u64_be(&mut out, region.newest_timestamp() as u64);
    push_u32_be(&mut out, region.chunk_count());
    extend(&mut out, compressed.as_slice());
    push_signature(&mut out);
    assert(out@ =~= linear_file(
        level,
        newest_upto(region.grid(), REGION_SIZE as int) as u64,
        count_occupied(region.grid(), REGION_SIZE as int) as u32,
        compressed@,
    ));
    proof {
        lemma_grid_view_wf(region.slots@);
        assert forall|x: i32, z: i32, rr: Result<Region, FormatError>|
            #[trigger] linear_read_spec(x, z, out@, rr) implies (rr matches Ok(reg) && reg.grid()
                == region.grid() && reg.last_modified == newest_upto(region.grid(), REGION_SIZE as int) as u64) by {
            lemma_linear_round_trip(
                x,
                z,
                region.grid(),
                level,
                newest_upto(region.grid(), REGION_SIZE as int) as u64,
                count_occupied(region.grid(), REGION_SIZE as int) as u32,
                compressed@,
                rr,
            );
        }
    }
    Some(out)
}

fn push_signature(out: &mut Vec<u8>)
    ensures
        final(out)@ == old(out)@ + linear_signature(),
{
    out.push(0xc3);
    out.push(0xff);
    out.push(0x13);
    out.push(0x18);
    out.push(0x3c);
    out.push(0xca);
    out.push(0x9d);
    out.push(0x9a);
    assert(final(out)@ =~= old(out)@ + linear_signature());
}

/// A written Linear file passes the reader's frame check, and the reader finds
/// in it the timestamp and the compressed body it was written with.
pub proof fn lemma_linear_frame_round_trip(level: u8, timestamp: u64, count: u32, compressed: Seq<u8>)
    ensures
        linear_frame_error(linear_file(level, timestamp, count, compressed)) is None,
        linear_body_of(linear_file(level, timestamp, count, compressed)) == compressed,
        be_u64_at(linear_file(level, timestamp, count, compressed), 10) == timestamp,
        be_u32_at(linear_file(level, timestamp, count, compressed), 18) == count,
{
    let f = linear_file(level, timestamp, count, compressed);
    let pre = linear_signature() + seq![LINEAR_VERSION, level];
    assert(f =~= pre + be_bytes_u64(timestamp) + (be_bytes_u32(count) + compressed
        + linear_signature()));
    lemma_be_u64_round_trip(timestamp, pre, be_bytes_u32(count) + compressed + linear_signature());
    assert(f =~= (pre + be_bytes_u64(timestamp)) + be_bytes_u32(count) + (compressed
        + linear_signature()));
    lemma_be_u32_round_trip(count, pre + be_bytes_u64(timestamp), compressed + linear_signature());
    assert(f.subrange(0, 8) =~= linear_signature());
    assert(f.subrange(f.len() - 8, f.len() as int) =~= linear_signature());
    assert(f[8] == LINEAR_VERSION);
    assert(linear_body_of(f) =~= compressed);
}

/// Cutting the last byte off a well-framed Linear file breaks its frame: the
/// reader rejects it.
pub proof fn lemma_truncated_linear_rejected(b: Seq<u8>)
    requires
        linear_frame_error(b) is None,
    ensures
        linear_frame_error(b.take(b.len() - 1)) is Some,
{
    let t = b.take(b.len() - 1);
    assert(b.subrange(b.len() - 8, b.len() as int)[6] == b[b.len() - 2]);
    if t.len() >= LINEAR_HEADER_SIZE + 8 && signature_at(t, t.len() - 8) {
        assert(t.subrange(t.len() - 8, t.len() as int)[7] == t[t.len() - 1]);
        assert(t[t.len() - 1] == b[b.len() - 2]);
    }
}

/// A region without chunks is written as 1024 zero lengths and a count of zero,
/// and reads back without chunks.
pub proof fn lemma_empty_region_linear(g: Seq<SlotView>)
    requires
        g.len() == REGION_SIZE,
        forall|s: int| 0 <= s < REGION_SIZE ==> #[trigger] g[s] is None,
    ensures
        linear_records(g) == Seq::new(4 * REGION_SIZE as nat, |i: int| 0u8),
        count_occupied(g, REGION_SIZE as int) == 0,
        parse_records(linear_records(g), 0) == Some(g),
{
    lemma_zero_records(g, REGION_SIZE as int);
    lemma_records_split(g, REGION_SIZE as int);
    assert(records_from(g, REGION_SIZE as int) =~= seq![]);
    assert(records_upto(g, REGION_SIZE as int) + seq![] =~= records_upto(g, REGION_SIZE as int));
    assert forall|s: int| 0 <= s < REGION_SIZE implies match #[trigger] g[s] {
        Some((ts, p)) => payload_ok(p),
        None => true,
    } by {}
    lemma_linear_records_round_trip(g);
}

proof fn lemma_zero_records(g: Seq<SlotView>, n: int)
    requires
        0 <= n <= REGION_SIZE,
        g.len() == REGION_SIZE,
        forall|s: int| 0 <= s < REGION_SIZE ==> #[trigger] g[s] is None,
    ensures
        records_upto(g, n) == Seq::new(4 * n as nat, |i: int| 0u8),
        count_occupied(g, n) == 0,
    decreases n,
{
    if n > 0 {
        lemma_zero_records(g, n - 1);
        assert(g[n - 1] is None);
        assert((0u32 >> 24u32) == 0u32 && (0u32 >> 16u32) == 0u32 && (0u32 >> 8u32) == 0u32) by (bit_vector);
        assert(be_bytes_u32(0) =~= seq![0u8, 0u8, 0u8, 0u8]);
        assert(records_upto(g, n) =~= Seq::new(4 * n as nat, |i: int| 0u8));
    }
}

/// A region written as Linear reads back with the same chunks in the same slots
/// and with the timestamp it was stamped with, wherever the body decompresses to
/// the records it was compressed from.
pub proof fn lemma_linear_round_trip(
    region_x: i32,
    region_z: i32,
    g: Seq<SlotView>,
    level: u8,
    timestamp: u64,
    count: u32,
    compressed: Seq<u8>,
    r: Result<Region, FormatError>,
)
    requires
        view_wf(g),
        zstd_decoded(compressed) == Some(linear_records(g)),
        linear_read_spec(region_x, region_z, linear_file(level, timestamp, count, compressed), r),
    ensures
        r matches Ok(reg) && reg.wf() && reg.grid() == g && reg.region_x == region_x && reg.region_z
            == region_z && reg.last_modified == timestamp,
{
    lemma_linear_frame_round_trip(level, timestamp, count, compressed);
    lemma_linear_records_round_trip(g);
}

} // verus!
