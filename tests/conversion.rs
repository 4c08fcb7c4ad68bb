use linear_tools::anvil::{read_anvil, read_external, write_anvil, external_chunk_coords};
use linear_tools::codec::{decompress, AnvilCompression};
use linear_tools::error::{ChunkError, FormatError};
use linear_tools::converter::{AnvilConverter, ConvertError, LinearConverter};
use linear_tools::coords::extract_region_coords;
use linear_tools::linear::{
    linear_body, parse_linear_header, parse_linear_records, read_linear, region_from_linear_records,
    write_linear,
};
use linear_tools::region::{Chunk, Region};
use std::io::Write;

fn region_of(chunks: Vec<Chunk>) -> Region {
    Region::new(chunks, 3, -1, 1_700_000_000).expect("placeable chunks")
}

fn payload(seed: u8, len: usize) -> Vec<u8> {
    (0..len).map(|i| (i as u8).wrapping_mul(31).wrapping_add(seed)).collect()
}

fn same_chunks(a: &Region, b: &Region) {
    for z in 0..32 {
        for x in 0..32 {
            match (a.chunk_at(x, z), b.chunk_at(x, z)) {
                (None, None) => {}
                (Some(p), Some(q)) => {
                    assert_eq!(p.local_x, q.local_x);
                    assert_eq!(p.local_z, q.local_z);
                    assert_eq!(p.timestamp, q.timestamp);
                    assert_eq!(p.payload, q.payload);
                }
                _ => panic!("slot ({}, {}) differs", x, z),
            }
        }
    }
}

#[test]
fn coordinates_from_file_names() {
    assert_eq!(extract_region_coords("r.3.-1.mca"), Some((3, -1)));
    assert_eq!(extract_region_coords("r.-12.40.linear"), Some((-12, 40)));
    assert_eq!(extract_region_coords("r.3.mca"), None);
    assert_eq!(extract_region_coords("r.3.-1.mca.bak"), None);
    assert_eq!(extract_region_coords("r.x.1.mca"), None);
    assert_eq!(extract_region_coords("r.1.99999999999.mca"), None);
}

#[test]
fn region_refuses_duplicate_and_empty_chunks() {
    let a = Chunk::from_nbt(1, 2, 5, vec![1]);
    let b = Chunk::from_nbt(1, 2, 6, vec![2]);
    assert!(Region::new(vec![a, b], 0, 0, 0).is_none());
    assert!(Region::new(vec![Chunk::from_nbt(0, 0, 0, vec![])], 0, 0, 0).is_none());
    assert!(Region::new(vec![Chunk::from_nbt(32, 0, 0, vec![1])], 0, 0, 0).is_none());
    let r = Region::new(vec![Chunk::from_nbt(4, 7, 9, vec![1, 2])], 0, 0, 0).unwrap();
    assert_eq!(r.chunk_count(), 1);
    assert_eq!(r.chunk_at(4, 7).unwrap().as_nbt(), &vec![1, 2]);
    assert!(r.chunk_at(7, 4).is_none());
}

#[test]
fn linear_round_trip() {
    let chunks = vec![
        Chunk::from_nbt(0, 0, 10, payload(1, 100)),
        Chunk::from_nbt(31, 0, 11, payload(2, 5000)),
        Chunk::from_nbt(5, 17, 12, payload(3, 1)),
        Chunk::from_nbt(31, 31, 13, payload(4, 70_000)),
    ];
    let region = region_of(chunks);
    let bytes = write_linear(&region, 6).unwrap();
    let back = read_linear(3, -1, &bytes).unwrap();
    same_chunks(&region, &back);
    assert_eq!(back.chunk_count(), 4);
    assert_eq!(back.last_modified, 13);
    assert_eq!(region.newest_timestamp(), 13);
    let header = parse_linear_header(&bytes).unwrap();
    assert_eq!(header.version, 1);
    assert_eq!(header.level, 6);
    assert_eq!(header.chunk_count, 4);
}

#[test]
fn linear_full_region_round_trip() {
    let mut chunks = Vec::new();
    for z in 0..32 {
        for x in 0..32 {
            chunks.push(Chunk::from_nbt(x, z, (x * 100 + z) as u32, payload((x + z) as u8, 1 + x * 3 + z)));
        }
    }
    let region = region_of(chunks);
    let bytes = write_linear(&region, 3).unwrap();
    let back = read_linear(3, -1, &bytes).unwrap();
    assert_eq!(back.chunk_count(), 1024);
    same_chunks(&region, &back);
}

#[test]
fn empty_region_linear() {
    let region = region_of(vec![]);
    let bytes = write_linear(&region, 1).unwrap();
    let header = parse_linear_header(&bytes).unwrap();
    assert_eq!(header.chunk_count, 0);
    let body = zstd::stream::decode_all(&bytes[22..bytes.len() - 8]).unwrap();
    assert_eq!(body, vec![0u8; 4096]);
    let back = read_linear(3, -1, &bytes).unwrap();
    assert_eq!(back.chunk_count(), 0);
}

#[test]
fn empty_region_anvil() {
    let region = region_of(vec![]);
    let written = write_anvil(&region, AnvilCompression::Zlib).unwrap();
    assert_eq!(written.bytes, vec![0u8; 8192]);
    assert!(written.external.is_empty());
    let back = read_anvil(3, -1, 0, &written.bytes).unwrap();
    assert_eq!(back.region.chunk_count(), 0);
    assert!(back.errors.is_empty());
}

#[test]
fn truncated_linear_is_rejected() {
    let region = region_of(vec![Chunk::from_nbt(2, 2, 1, vec![9, 9, 9])]);
    let bytes = write_linear(&region, 6).unwrap();
    let cut = &bytes[..bytes.len() - 1];
    assert_eq!(read_linear(3, -1, cut).err(), Some(FormatError::BadSignature));
    assert_eq!(read_linear(3, -1, &bytes[..20]).err(), Some(FormatError::Truncated));
    let mut bad = bytes.clone();
    bad[8] = 7;
    assert_eq!(read_linear(3, -1, &bad).err(), Some(FormatError::UnsupportedVersion(7)));
    let mut body = bytes.clone();
    body[25] ^= 0xff;
    assert_eq!(read_linear(3, -1, &body).err(), Some(FormatError::CorruptBody));
}

#[test]
fn anvil_round_trip_zlib_and_stored() {
    let chunks = vec![
        Chunk::from_nbt(0, 0, 10, payload(1, 100)),
        Chunk::from_nbt(3, 0, 11, payload(2, 9000)),
        Chunk::from_nbt(9, 30, 12, payload(3, 1)),
    ];
    let region = region_of(chunks);
    for m in [AnvilCompression::Zlib, AnvilCompression::Uncompressed] {
        let written = write_anvil(&region, m).unwrap();
        assert_eq!(written.bytes.len() % 4096, 0);
        let back = read_anvil(3, -1, 42, &written.bytes).unwrap();
        assert!(back.errors.is_empty());
        assert!(back.external.is_empty());
        same_chunks(&region, &back.region);
        assert_eq!(back.region.last_modified, 42);
    }
}

#[test]
fn anvil_location_and_timestamp_tables() {
    let region = region_of(vec![Chunk::from_nbt(1, 0, 0x01020304, vec![7; 10])]);
    let written = write_anvil(&region, AnvilCompression::Uncompressed).unwrap();
    let b = &written.bytes;
    assert_eq!(&b[4..8], &[0, 0, 2, 1]);
    assert_eq!(&b[4096 + 4..4096 + 8], &[1, 2, 3, 4]);
    assert_eq!(&b[8192..8197], &[0, 0, 0, 11, 3]);
    assert_eq!(&b[8197..8207], &[7; 10]);
    assert_eq!(b.len(), 8192 + 4096);
}

#[test]
fn oversized_payload_goes_to_sibling_file() {
    let big = payload(7, 1_200_000);
    let region = region_of(vec![Chunk::from_nbt(2, 1, 77, big.clone()), Chunk::from_nbt(0, 0, 5, vec![1])]);
    let written = write_anvil(&region, AnvilCompression::Uncompressed).unwrap();
    assert_eq!(written.external.len(), 1);
    assert_eq!(written.external[0].0, 34);
    assert_eq!(written.external[0].1[0], 3 | 0x80);
    let mut back = read_anvil(3, -1, 0, &written.bytes).unwrap();
    assert_eq!(back.external, vec![(34usize, 77u32)]);
    assert!(back.region.chunk_at(2, 1).is_none());
    assert_eq!(external_chunk_coords(3, -1, 34), (98, -31));
    read_external(&mut back.region, 34, 77, &written.external[0].1).unwrap();
    same_chunks(&region, &back.region);
    assert_eq!(read_external(&mut back.region, 34, 77, &[]), Err(ChunkError::CorruptLength));
}

fn anvil_with_records(records: &[(usize, u8, Vec<u8>)]) -> Vec<u8> {
    let mut b = vec![0u8; 8192];
    for (slot, tag, data) in records {
        let sector = b.len() / 4096;
        let len = (data.len() + 1) as u32;
        b.extend_from_slice(&len.to_be_bytes());
        b.push(*tag);
        b.extend_from_slice(data);
        while b.len() % 4096 != 0 {
            b.push(0);
        }
        let count = (b.len() / 4096 - sector) as u32;
        let loc = ((sector as u32) << 8) | count;
        b[4 * slot..4 * slot + 4].copy_from_slice(&loc.to_be_bytes());
        b[4096 + 4 * slot..4096 + 4 * slot + 4].copy_from_slice(&1234u32.to_be_bytes());
    }
    b
}

#[test]
fn unsupported_compression_drops_one_chunk() {
    let b = anvil_with_records(&[(0, 3, vec![1, 2, 3]), (1, 5, vec![4, 5]), (2, 3, vec![6])]);
    let back = read_anvil(0, 0, 0, &b).unwrap();
    assert_eq!(back.errors, vec![(1usize, ChunkError::UnsupportedCompression(5))]);
    assert_eq!(back.region.chunk_count(), 2);
    assert_eq!(back.region.chunk_at(0, 0).unwrap().payload, vec![1, 2, 3]);
    assert_eq!(back.region.chunk_at(2, 0).unwrap().payload, vec![6]);
    assert_eq!(back.region.chunk_at(0, 0).unwrap().timestamp, 1234);
    let linear = write_linear(&back.region, 6).unwrap();
    let again = read_linear(0, 0, &linear).unwrap();
    same_chunks(&back.region, &again);
    let mut zeroed = b.clone();
    zeroed[4..8].copy_from_slice(&[0, 0, 0, 0]);
    let without = read_anvil(0, 0, 0, &zeroed).unwrap();
    assert!(without.errors.is_empty());
    same_chunks(&back.region, &without.region);
}

#[test]
fn corrupt_anvil_records() {
    let mut b = anvil_with_records(&[(0, 3, vec![1, 2, 3])]);
    b[4..8].copy_from_slice(&[0, 0, 9, 1]);
    let back = read_anvil(0, 0, 0, &b).unwrap();
    assert_eq!(back.errors, vec![(1usize, ChunkError::CorruptLength)]);
    assert_eq!(back.region.chunk_count(), 1);
    assert_eq!(read_anvil(0, 0, 0, &b[..8000]).err(), Some(FormatError::Truncated));
    let e = anvil_with_records(&[(4, 3, vec![])]);
    assert_eq!(read_anvil(0, 0, 0, &e).unwrap().errors, vec![(4usize, ChunkError::EmptyPayload)]);
    let z = anvil_with_records(&[(0, 2, vec![1, 2, 3])]);
    assert_eq!(read_anvil(0, 0, 0, &z).unwrap().errors, vec![(0usize, ChunkError::CorruptPayload)]);
}

#[test]
fn codecs_decode_real_streams() {
    let text = b"hello hello hello hello".to_vec();
    let mut gz = flate2::write::GzEncoder::new(Vec::new(), flate2::Compression::default());
    gz.write_all(&text).unwrap();
    let gz = gz.finish().unwrap();
    assert_eq!(decompress(1, &gz).unwrap(), text);
    let mut zl = flate2::write::ZlibEncoder::new(Vec::new(), flate2::Compression::default());
    zl.write_all(&text).unwrap();
    let zl = zl.finish().unwrap();
    assert_eq!(decompress(2, &zl).unwrap(), text);
    assert_eq!(decompress(0x82, &zl).unwrap(), text);
    assert_eq!(decompress(3, &text).unwrap(), text);
    assert_eq!(decompress(5, &text), Err(ChunkError::UnsupportedCompression(5)));
    assert_eq!(decompress(2, &text), Err(ChunkError::CorruptPayload));
    let b = anvil_with_records(&[(0, 1, gz.clone()), (1, 2, zl.clone())]);
    let back = read_anvil(0, 0, 0, &b).unwrap();
    assert_eq!(back.region.chunk_at(0, 0).unwrap().payload, text);
    assert_eq!(back.region.chunk_at(1, 0).unwrap().payload, text);
    assert_eq!(back.region.chunk_at(1, 0).unwrap().source_compression, Some(2));
}

#[test]
fn linear_records_layout() {
    let region = region_of(vec![Chunk::from_nbt(1, 0, 7, vec![0xaa, 0xbb])]);
    let body = linear_body(&region);
    assert_eq!(body.len(), 4 * 1023 + 4 + 4 + 2);
    assert_eq!(&body[0..4], &[0, 0, 0, 0]);
    assert_eq!(&body[4..14], &[0, 0, 0, 2, 0, 0, 0, 7, 0xaa, 0xbb]);
    let slots = parse_linear_records(&body).unwrap();
    assert_eq!(slots.len(), 1024);
    assert!(parse_linear_records(&body[..body.len() - 1]).is_none());
    let mut longer = body.clone();
    longer.push(0);
    assert!(parse_linear_records(&longer).is_none());
}

#[test]
fn anvil_chunk_converts_to_linear_record() {
    let region = Region::new(vec![Chunk::from_nbt(0, 0, 1_700_000_000, b"hello".to_vec())], 3, -1, 0).unwrap();
    let anvil = write_anvil(&region, AnvilCompression::Zlib).unwrap();
    let read = AnvilConverter.open_region("r.3.-1.mca", 0, &anvil.bytes).unwrap();
    assert_eq!((read.region.region_x, read.region.region_z), (3, -1));
    let linear = LinearConverter.write_region(&read.region, 6).unwrap();
    let body = zstd::stream::decode_all(&linear[22..linear.len() - 8]).unwrap();
    assert_eq!(&body[0..4], &5u32.to_be_bytes());
    assert_eq!(&body[4..8], &1_700_000_000u32.to_be_bytes());
    assert_eq!(&body[8..13], b"hello");
    assert_eq!(body.len(), 13 + 4 * 1023);
    assert!(body[13..].iter().all(|b| *b == 0));
    let back = LinearConverter.open_region("r.3.-1.linear", &linear).unwrap();
    let again = AnvilConverter.write_region(&back, AnvilCompression::Zlib).unwrap();
    let reread = read_anvil(3, -1, 0, &again.bytes).unwrap();
    same_chunks(&region, &reread.region);
}

#[test]
fn converters_refuse_bad_names() {
    assert_eq!(LinearConverter.open_region("region.linear", &[]).err(), Some(ConvertError::NoCoordinates));
    assert!(matches!(AnvilConverter.open_region("r.a.b.mca", 0, &[]), Err(ConvertError::NoCoordinates)));
    assert!(matches!(
        AnvilConverter.open_region("r.0.0.mca", 0, &[0u8; 100]),
        Err(ConvertError::Format(FormatError::Truncated))
    ));
}

#[test]
fn chunk_constructors() {
    let c = Chunk::new(3, 4, 5, vec![1], Some(2));
    assert_eq!((c.local_x, c.local_z, c.timestamp, c.source_compression), (3, 4, 5, Some(2)));
    assert_eq!(c.as_nbt(), &vec![1]);
    let d = Chunk::from_nbt(1, 2, 3, vec![4]);
    assert_eq!(d.source_compression, None);
}

#[test]
fn records_to_region() {
    assert_eq!(region_from_linear_records(0, 0, 0, &[0, 0, 0]).err(), Some(FormatError::CorruptBody));
    let region = region_of(vec![Chunk::from_nbt(6, 6, 66, vec![6; 6])]);
    let body = linear_body(&region);
    let back = region_from_linear_records(3, -1, 99, &body).unwrap();
    assert_eq!(back.last_modified, 99);
    same_chunks(&region, &back);
    assert_eq!(back.chunk_at(6, 6).unwrap().source_compression, None);
}
