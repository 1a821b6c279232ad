//! Reading zip structures: directories, trailers, entries and their encodings.
use std::io::Write;

use flate2::write::GzEncoder;
use flate2::Compression as GzCompression;
use tile_clipper::codec::{
    decode_entry, decompress_deflate, decompress_gzip, decompress_zstd, encode_gzip, needs_zip64,
    read_capped, DecodeError,
};
use tile_clipper::directory::{
    checked_central_directory, index_entries, lookup_entry, parse_central_directory, CdEntry,
};
use tile_clipper::eocd::{
    directory_by_tail, directory_range, find_eocd, find_zip64_locator, read_zip64_record,
    tail_range, zip64_record_range, DirectoryScan,
};
use tile_clipper::payload::{
    first_read, first_read_fits, locate_payload, payload_error_message, payload_fits, Payload,
    PayloadError, LFH_EXTRA_SLOP,
};
use tile_clipper::StringHashMap;

/// Build one Central Directory record. `sizes` = (compressed, uncompressed),
/// `extra` = raw extra-field bytes.
fn cd_record(
    name: &str,
    comp_method: u16,
    sizes: (u32, u32),
    header_offset: u32,
    extra: &[u8],
) -> Vec<u8> {
    let mut rec = Vec::new();
    rec.extend_from_slice(&[0x50, 0x4b, 0x01, 0x02]); // signature
    rec.extend_from_slice(&[20, 0]); // version made by
    rec.extend_from_slice(&[20, 0]); // version needed
    rec.extend_from_slice(&[0, 0]); // flags
    rec.extend_from_slice(&comp_method.to_le_bytes());
    rec.extend_from_slice(&[0; 4]); // mod time/date
    rec.extend_from_slice(&[0; 4]); // crc32
    rec.extend_from_slice(&sizes.0.to_le_bytes());
    rec.extend_from_slice(&sizes.1.to_le_bytes());
    rec.extend_from_slice(&(name.len() as u16).to_le_bytes());
    rec.extend_from_slice(&(extra.len() as u16).to_le_bytes());
    rec.extend_from_slice(&[0, 0]); // comment len
    rec.extend_from_slice(&[0; 4]); // disk start / internal attrs
    rec.extend_from_slice(&[0; 4]); // external attrs
    rec.extend_from_slice(&header_offset.to_le_bytes());
    rec.extend_from_slice(name.as_bytes());
    rec.extend_from_slice(extra);
    rec
}

/// Build a standard EOCD record with the given cd_size/cd_offset and comment.
fn eocd_record(cd_size: u32, cd_offset: u32, comment: &[u8]) -> Vec<u8> {
    let mut rec = Vec::new();
    rec.extend_from_slice(&[0x50, 0x4b, 0x05, 0x06]);
    rec.extend_from_slice(&[0; 8]); // disk numbers, entry counts
    rec.extend_from_slice(&cd_size.to_le_bytes());
    rec.extend_from_slice(&cd_offset.to_le_bytes());
    rec.extend_from_slice(&(comment.len() as u16).to_le_bytes());
    rec.extend_from_slice(comment);
    rec
}

/// Build a ZIP64 EOCD record with the given cd_size/cd_offset.
fn zip64_record(cd_size: u64, cd_offset: u64) -> Vec<u8> {
    let mut rec = vec![0x50, 0x4b, 0x06, 0x06];
    rec.extend_from_slice(&[0; 36]);
    rec.extend_from_slice(&cd_size.to_le_bytes());
    rec.extend_from_slice(&cd_offset.to_le_bytes());
    rec
}

/// Build a ZIP64 EOCD locator that points at the given offset.
fn zip64_locator(offset: u64) -> Vec<u8> {
    let mut rec = vec![0x50, 0x4b, 0x06, 0x07, 0, 0, 0, 0];
    rec.extend_from_slice(&offset.to_le_bytes());
    rec.extend_from_slice(&[1, 0, 0, 0]);
    rec
}

#[test]
fn parse_cd_basic_entry() {
    let bytes = cd_record("tileset.json", 8, (100, 400), 42, &[]);
    let entries = parse_central_directory(&bytes);
    assert_eq!(entries.len(), 1);
    assert_eq!(entries[0].filename, "tileset.json");
    assert_eq!(entries[0].comp_method, 8);
    assert_eq!(entries[0].compressed_size, 100);
    assert_eq!(entries[0].header_offset, 42);
}

#[test]
fn parse_cd_multiple_entries_and_backslash_normalization() {
    let mut bytes = cd_record("a\\b\\tile.b3dm", 0, (10, 10), 0, &[]);
    bytes.extend(cd_record("nodes/0/geometries/0.bin", 93, (5, 20), 100, &[]));
    let entries = parse_central_directory(&bytes);
    assert_eq!(entries.len(), 2);
    assert_eq!(entries[0].filename, "a/b/tile.b3dm");
    assert_eq!(entries[1].comp_method, 93);
}

#[test]
fn parse_cd_zip64_extra_field() {
    // compressed size and header offset deferred to the zip64 extra field
    let mut extra = Vec::new();
    extra.extend_from_slice(&0x0001u16.to_le_bytes()); // zip64 tag
    extra.extend_from_slice(&24u16.to_le_bytes()); // size of extra data
    extra.extend_from_slice(&(5_000_000_000u64).to_le_bytes()); // uncompressed
    extra.extend_from_slice(&(4_100_000_000u64).to_le_bytes()); // compressed
    extra.extend_from_slice(&(6_000_000_000u64).to_le_bytes()); // header offset
    let bytes = cd_record("big.glb", 8, (0xFFFFFFFF, 0xFFFFFFFF), 0xFFFFFFFF, &extra);
    let entries = parse_central_directory(&bytes);
    assert_eq!(entries.len(), 1);
    assert_eq!(entries[0].compressed_size, 4_100_000_000);
    assert_eq!(entries[0].header_offset, 6_000_000_000);
}

#[test]
fn parse_cd_truncated_name_stops_cleanly() {
    let mut bytes = cd_record("ok.json", 0, (1, 1), 0, &[]);
    let mut bad = cd_record("truncated-name.json", 0, (1, 1), 0, &[]);
    bad.truncate(bad.len() - 5); // cut into the filename
    bytes.extend(bad);
    let entries = parse_central_directory(&bytes);
    assert_eq!(entries.len(), 1);
    assert_eq!(entries[0].filename, "ok.json");
}

#[test]
fn find_eocd_at_exact_end_of_buffer() {
    let mut buf = vec![0xAAu8; 100];
    buf.extend(eocd_record(1234, 5678, &[]));
    assert_eq!(find_eocd(&buf), Some((1234, 5678)));
}

#[test]
fn find_eocd_with_trailing_comment() {
    let mut buf = vec![0u8; 10];
    buf.extend(eocd_record(11, 22, b"a comment"));
    assert_eq!(find_eocd(&buf), Some((11, 22)));
}

#[test]
fn find_eocd_minimal_and_missing() {
    assert_eq!(find_eocd(&eocd_record(7, 9, &[])), Some((7, 9)));
    assert_eq!(find_eocd(&[0u8; 21]), None); // too short
    assert_eq!(find_eocd(&[0u8; 200]), None); // no signature
}

#[test]
fn find_zip64_locator_returns_offset() {
    let mut buf = vec![0u8; 30];
    buf.extend_from_slice(&[0x50, 0x4b, 0x06, 0x07]);
    buf.extend_from_slice(&[0; 4]); // disk number
    buf.extend_from_slice(&(9_876_543_210u64).to_le_bytes());
    buf.extend_from_slice(&[1, 0, 0, 0]); // total disks
    buf.extend(eocd_record(0xFFFFFFFF, 0xFFFFFFFF, &[]));
    assert_eq!(find_zip64_locator(&buf), Some(9_876_543_210));
    assert_eq!(find_zip64_locator(&[0u8; 19]), None);
}

#[test]
fn lookup_entry_exact_and_gz_fallback() {
    let entries = vec![
        CdEntry {
            filename: "tileset.json.gz".into(),
            header_offset: 0,
            compressed_size: 1,
            comp_method: 0,
        },
        CdEntry {
            filename: "tile.b3dm".into(),
            header_offset: 10,
            compressed_size: 2,
            comp_method: 0,
        },
    ];
    let mut index: StringHashMap<usize> = StringHashMap::new();
    for (i, e) in entries.iter().enumerate() {
        index.insert(e.filename.clone(), i);
    }
    assert_eq!(lookup_entry(&entries, &index, "tile.b3dm").unwrap().header_offset, 10);
    // falls back to the .gz variant
    assert_eq!(
        lookup_entry(&entries, &index, "tileset.json").unwrap().filename,
        "tileset.json.gz"
    );
    assert!(lookup_entry(&entries, &index, "missing.json").is_none());
}

/// A cap comfortably above every payload the tests below build.
const TEST_CAP: u64 = 8 * 1024 * 1024;

#[test]
fn deflate_and_gzip_roundtrip() {
    let payload = b"3d tiles payload data".repeat(100);

    let mut deflated = Vec::new();
    let mut enc = flate2::write::DeflateEncoder::new(&mut deflated, GzCompression::default());
    enc.write_all(&payload).unwrap();
    enc.finish().unwrap();
    assert_eq!(decompress_deflate(&deflated, TEST_CAP).unwrap(), payload);

    let mut gzipped = Vec::new();
    let mut enc = GzEncoder::new(&mut gzipped, GzCompression::default());
    enc.write_all(&payload).unwrap();
    enc.finish().unwrap();
    assert_eq!(decompress_gzip(&gzipped, TEST_CAP).unwrap(), payload);
}

#[test]
fn zstd_roundtrip() {
    let payload = b"zstandard entry payload".repeat(50);
    let compressed = zstd::encode_all(&payload[..], 3).unwrap();
    assert_eq!(decompress_zstd(&compressed, TEST_CAP).unwrap(), payload);
}

#[test]
fn oversized_decompression_errors_instead_of_truncating() {
    // A zero payload 1 MiB over the cap compresses to almost nothing but must error,
    // not silently truncate to corrupt data.
    let cap = 4 * 1024 * 1024;
    let payload = vec![0u8; (cap + 1024 * 1024) as usize];
    let mut deflated = Vec::new();
    let mut enc = flate2::write::DeflateEncoder::new(&mut deflated, GzCompression::fast());
    enc.write_all(&payload).unwrap();
    enc.finish().unwrap();
    let err = decompress_deflate(&deflated, cap).unwrap_err();
    let message = err.message().unwrap();
    assert!(message.contains("decompressed-size limit"), "unexpected error: {message}");
    // The message must point at the knob that fixes it.
    assert!(message.contains("--max-entry-size"), "unexpected error: {message}");

    let compressed = zstd::encode_all(&payload[..], 1).unwrap();
    assert!(decompress_zstd(&compressed, cap).is_err());

    // The very same payload succeeds once the cap is raised past it - i.e. the limit is
    // configurable, not a hard format ceiling.
    assert_eq!(decompress_deflate(&deflated, cap * 4).unwrap().len(), payload.len());
}

#[test]
fn needs_zip64_only_past_the_u32_boundary() {
    assert!(!needs_zip64(0));
    assert!(!needs_zip64(u32::MAX as usize - 1));
    assert!(!needs_zip64(u32::MAX as usize), "exactly u32::MAX still fits");
    assert!(needs_zip64(u32::MAX as usize + 1), "one byte past must opt in");
    assert!(needs_zip64(8 * 1024 * 1024 * 1024));
}

#[test]
fn decode_entry_honours_the_gunzip_flag() {
    // The `.gz` passthrough path relies on being able to stop after the zip layer, so a
    // gzip stream stored verbatim must come back out byte-identical.
    let plaintext = b"i3s node payload".repeat(40);
    let mut gzipped = Vec::new();
    let mut enc = GzEncoder::new(&mut gzipped, GzCompression::default());
    enc.write_all(&plaintext).unwrap();
    enc.finish().unwrap();

    let stored = zstd::encode_all(&gzipped[..], 3).unwrap();
    assert_eq!(decode_entry(stored.clone(), 93, false, TEST_CAP).unwrap(), gzipped);
    assert_eq!(decode_entry(stored, 93, true, TEST_CAP).unwrap(), plaintext);
}

/// Build one Local File Header immediately followed by its payload.
fn lfh(name: &str, comp_method: u16, extra: &[u8], payload: &[u8]) -> Vec<u8> {
    let mut rec = Vec::new();
    rec.extend_from_slice(&[0x50, 0x4b, 0x03, 0x04]); // signature
    rec.extend_from_slice(&[20, 0]); // version needed
    rec.extend_from_slice(&[0, 0]); // flags
    rec.extend_from_slice(&comp_method.to_le_bytes());
    rec.extend_from_slice(&[0; 4]); // mod time/date
    rec.extend_from_slice(&[0; 4]); // crc32
    rec.extend_from_slice(&(payload.len() as u32).to_le_bytes()); // compressed size
    rec.extend_from_slice(&(payload.len() as u32).to_le_bytes()); // uncompressed size
    rec.extend_from_slice(&(name.len() as u16).to_le_bytes());
    rec.extend_from_slice(&(extra.len() as u16).to_le_bytes());
    rec.extend_from_slice(name.as_bytes());
    rec.extend_from_slice(extra);
    rec.extend_from_slice(payload);
    rec
}

/// Assemble a whole zip from (name, method, lfh_extra, payload) tuples.
fn build_archive(files: &[(&str, u16, Vec<u8>, Vec<u8>)]) -> Vec<u8> {
    let mut body = Vec::new();
    let mut offsets = Vec::new();
    for (name, method, extra, payload) in files {
        offsets.push(body.len() as u32);
        body.extend(lfh(name, *method, extra, payload));
    }
    let cd_offset = body.len() as u32;
    let mut cd = Vec::new();
    for ((name, method, _, payload), off) in files.iter().zip(&offsets) {
        let len = payload.len() as u32;
        cd.extend(cd_record(name, *method, (len, len), *off, &[]));
    }
    let cd_size = cd.len() as u32;
    body.extend(&cd);
    body.extend(eocd_record(cd_size, cd_offset, &[]));
    body
}

/// The bytes of the inclusive range, as far as the archive has them.
fn range(archive: &[u8], start: u64, end: u64) -> Vec<u8> {
    let len = archive.len() as u64;
    let from = start.min(len) as usize;
    let to = end.saturating_add(1).min(len) as usize;
    archive[from..to].to_vec()
}

/// Read an entry the way a range-reading client does.
fn read_entry(archive: &[u8], entry: &CdEntry) -> Vec<u8> {
    assert!(first_read_fits(entry));
    let Some((start, end)) = first_read(entry) else {
        return Vec::new();
    };
    let buf = range(archive, start, end);
    assert!(payload_fits(entry, &buf));
    match locate_payload(entry, buf).unwrap() {
        Payload::Here { data } => data,
        Payload::Elsewhere { start, end } => range(archive, start, end),
    }
}

#[test]
fn entries_are_read_through_a_speculative_range() {
    let plain = b"stored tile payload".repeat(20);
    let deflated = {
        let mut out = Vec::new();
        let mut enc = flate2::write::DeflateEncoder::new(&mut out, GzCompression::default());
        enc.write_all(b"deflated tileset json").unwrap();
        enc.finish().unwrap();
        out
    };
    // An extra field far larger than the slop, to force the exact-payload refetch.
    let fat_extra = vec![0u8; (LFH_EXTRA_SLOP as usize) * 3];
    let archive = build_archive(&[
        ("stored.b3dm", 0, Vec::new(), plain.clone()),
        ("tileset.json", 8, Vec::new(), deflated),
        ("empty.bin", 0, Vec::new(), Vec::new()),
        ("fat-extra.b3dm", 0, fat_extra, plain.clone()),
    ]);

    let (start, end) = tail_range(archive.len() as u64).unwrap();
    let tail = range(&archive, start, end);
    let span = directory_by_tail(&tail, None);
    let (start, end) = directory_range(span).unwrap();
    let entries = parse_central_directory(&range(&archive, start, end));
    assert_eq!(entries.len(), 4);

    assert_eq!(read_entry(&archive, &entries[0]), plain);
    let raw = read_entry(&archive, &entries[1]);
    assert_eq!(decode_entry(raw, 8, false, TEST_CAP).unwrap(), b"deflated tileset json");
    assert!(read_entry(&archive, &entries[2]).is_empty());
    assert_eq!(read_entry(&archive, &entries[3]), plain);
}

#[test]
fn short_and_implausible_headers_are_errors() {
    let entry = CdEntry {
        filename: "tile.b3dm".into(),
        header_offset: 0,
        compressed_size: 10,
        comp_method: 0,
    };
    let error = locate_payload(&entry, vec![0; 29]).unwrap_err();
    assert!(matches!(error, PayloadError::ShortHeader));
    assert_eq!(
        payload_error_message(error, "tile.b3dm"),
        "Short LFH header for 'tile.b3dm'"
    );

    let huge = CdEntry {
        filename: "tile.b3dm".into(),
        header_offset: 0,
        compressed_size: u64::MAX,
        comp_method: 0,
    };
    assert!(!first_read_fits(&huge));
    let error = locate_payload(&huge, vec![0; 30]).unwrap_err();
    assert!(matches!(error, PayloadError::ImplausibleExtent));
    assert_eq!(
        payload_error_message(error, "tile.b3dm"),
        "Implausible payload extent for 'tile.b3dm'"
    );
}

#[test]
fn the_last_eocd_record_counts() {
    // A comment that holds a whole record of its own.
    let inner = eocd_record(1, 2, &[]);
    let buf = eocd_record(7, 9, &inner);
    assert_eq!(find_eocd(&buf), Some((1, 2)));
}

#[test]
fn zip64_record_goes_before_the_standard_one() {
    let mut tail = zip64_locator(100);
    tail.extend(eocd_record(0xFFFFFFFF, 0xFFFFFFFF, &[]));
    assert_eq!(zip64_record_range(100), (100, 155));
    let record = zip64_record(5_000_000_000, 6_000_000_000);
    let span = directory_by_tail(&tail, Some(&record));
    assert_eq!((span.size, span.offset), (5_000_000_000, 6_000_000_000));
    assert_eq!(directory_range(span), Some((6_000_000_000, 10_999_999_999)));
    // A record that is cut short does not count.
    assert!(read_zip64_record(&record[..55]).is_none());
    let span = directory_by_tail(&tail, Some(&record[..55]));
    assert_eq!((span.size, span.offset), (0xFFFFFFFF, 0xFFFFFFFF));
}

#[test]
fn tail_is_bounded_and_tiny_files_have_none() {
    assert_eq!(tail_range(21), None);
    assert_eq!(tail_range(22), Some((0, 21)));
    assert_eq!(tail_range(100_000), Some((34_464, 99_999)));
    assert_eq!(directory_range(directory_by_tail(&[0; 100], None)), None);
}

#[test]
fn directory_scan_walks_back_to_a_standard_record() {
    // The record lies 30000 bytes before the end, beyond the first chunk.
    let mut archive = vec![0u8; 1000];
    archive.extend(eocd_record(77, 88, &[]));
    archive.extend(vec![0u8; 30_000]);
    let size = archive.len() as u64;
    let mut scan = DirectoryScan::new(size);
    let mut reads = 0;
    while let Some((start, end)) = scan.wanted() {
        let bytes = range(&archive, start, end);
        assert!(scan.accepts(&bytes));
        scan = scan.next(size, &bytes);
        reads += 1;
    }
    match scan {
        DirectoryScan::Found { span } => assert_eq!((span.size, span.offset), (77, 88)),
        _ => panic!("the record was not found"),
    }
    // Two chunks and the place of the locator.
    assert_eq!(reads, 3);
}

#[test]
fn directory_scan_follows_a_zip64_locator_and_gives_up_at_last() {
    let mut archive = zip64_record(123, 456);
    archive.extend(zip64_locator(0));
    archive.extend(eocd_record(1, 1, &[]));
    let size = archive.len() as u64;
    let mut scan = DirectoryScan::new(size);
    while let Some((start, end)) = scan.wanted() {
        scan = scan.next(size, &range(&archive, start, end));
    }
    match scan {
        DirectoryScan::Found { span } => assert_eq!((span.size, span.offset), (123, 456)),
        _ => panic!("the record was not found"),
    }

    let empty = vec![0u8; 40_000];
    let size = empty.len() as u64;
    let mut scan = DirectoryScan::new(size);
    while let Some((start, end)) = scan.wanted() {
        scan = scan.next(size, &range(&empty, start, end));
    }
    assert!(matches!(scan, DirectoryScan::Exhausted));
}

#[test]
fn of_two_entries_with_one_name_the_later_counts() {
    let mut bytes = cd_record("a.json", 0, (1, 1), 10, &[]);
    bytes.extend(cd_record("a.json", 0, (1, 1), 20, &[]));
    let entries = parse_central_directory(&bytes);
    let index = index_entries(&entries);
    assert_eq!(lookup_entry(&entries, &index, "a.json").unwrap().header_offset, 20);
}

#[test]
fn whole_records_are_read_one_after_the_other() {
    let mut extra = Vec::new();
    extra.extend_from_slice(&0x5455u16.to_le_bytes()); // a timestamp, which is skipped
    extra.extend_from_slice(&1u16.to_le_bytes());
    extra.push(9);
    extra.extend_from_slice(&0x0001u16.to_le_bytes());
    extra.extend_from_slice(&8u16.to_le_bytes());
    extra.extend_from_slice(&(7_000_000_000u64).to_le_bytes());
    let mut bytes = cd_record("first", 0, (1, 1), 10, &[]);
    bytes.extend(cd_record("second", 8, (5, 5), 0xFFFFFFFF, &extra));
    bytes.extend(cd_record("third", 93, (6, 6), 30, &extra));
    // What is no record ends the directory and disturbs nothing before it.
    bytes.extend(vec![0; 60]);
    let entries = parse_central_directory(&bytes);
    let read: Vec<(&str, u64, u64)> = entries
        .iter()
        .map(|e| (e.filename.as_str(), e.compressed_size, e.header_offset))
        .collect();
    assert_eq!(read, vec![("first", 1, 10), ("second", 5, 7_000_000_000), ("third", 6, 30)]);
}

#[test]
fn names_that_are_no_utf8_are_empty() {
    let mut bytes = cd_record("abc", 0, (1, 1), 10, &[]);
    bytes[46] = 0xFF;
    let entries = parse_central_directory(&bytes);
    assert_eq!(entries[0].filename, "");
}

#[test]
fn an_overlong_zip64_field_is_noticed() {
    // The field claims 24 bytes that the directory does not have.
    let mut extra = Vec::new();
    extra.extend_from_slice(&0x0001u16.to_le_bytes());
    extra.extend_from_slice(&24u16.to_le_bytes());
    let bytes = cd_record("big.glb", 8, (0xFFFFFFFF, 0xFFFFFFFF), 0xFFFFFFFF, &extra);
    assert!(checked_central_directory(&bytes).is_none());
    // Without deferred sizes the field is not looked at.
    let bytes = cd_record("big.glb", 8, (1, 1), 1, &extra);
    assert_eq!(checked_central_directory(&bytes).unwrap().len(), 1);
}

#[test]
fn gzip_encoding_comes_back() {
    let document = b"{\"root\":{}}".repeat(30);
    let encoded = encode_gzip(&document).unwrap();
    assert_ne!(encoded, document);
    assert_eq!(decode_entry(encoded.clone(), 0, true, TEST_CAP).unwrap(), document);
    assert_eq!(decode_entry(encoded.clone(), 0, false, TEST_CAP).unwrap(), encoded);
}

#[test]
fn stored_entries_are_held_to_the_cap() {
    let error = decode_entry(vec![1, 2, 3], 0, false, 2).unwrap_err();
    assert!(matches!(error, DecodeError::TooLarge { max_bytes: 2 }));
    assert_eq!(decode_entry(vec![1, 2, 3], 0, false, 3).unwrap(), vec![1, 2, 3]);
    assert_eq!(decode_entry(vec![1, 2, 3], 12, false, 4).unwrap(), vec![1, 2, 3]);
    // What counts is the size after decoding.
    let encoded = encode_gzip(&[7; 2]).unwrap();
    assert!(encoded.len() > 2);
    assert_eq!(decode_entry(encoded, 0, true, 2).unwrap(), vec![7; 2]);
}

#[test]
fn gzip_is_undone_after_the_zip_layer() {
    let encoded = encode_gzip(&[7; 50]).unwrap();
    let stored = zstd::encode_all(&encoded[..], 3).unwrap();
    let inner = decode_entry(stored.clone(), 93, false, 1000).unwrap();
    assert_eq!(
        decode_entry(stored, 93, true, 1000).unwrap(),
        decompress_gzip(&inner, 1000).unwrap()
    );
}

#[test]
fn the_error_of_a_stream_is_handed_on() {
    let failure = std::io::Error::new(std::io::ErrorKind::InvalidData, "torn");
    match read_capped(Err(failure), 10).unwrap_err() {
        DecodeError::Stream { error } => assert_eq!(error.to_string(), "torn"),
        DecodeError::TooLarge { .. } => panic!("the stream is at fault"),
    }
    assert_eq!(read_capped(Ok(vec![1, 2]), 2).unwrap(), vec![1, 2]);
    assert!(matches!(
        read_capped(Ok(vec![1, 2]), 1),
        Err(DecodeError::TooLarge { max_bytes: 1 })
    ));
}

#[test]
fn decode_errors_tell_their_kind() {
    let error = decompress_gzip(b"no gzip stream", TEST_CAP).unwrap_err();
    assert!(matches!(error, DecodeError::Stream { .. }));
    assert!(error.message().is_none());
    assert!(decompress_zstd(b"no zstd stream", TEST_CAP).is_err());

    let encoded = encode_gzip(&[7; 100]).unwrap();
    let error = decompress_gzip(&encoded, 99).unwrap_err();
    assert_eq!(
        error.message().unwrap(),
        "Entry exceeds the 0 MiB decompressed-size limit (raise --max-entry-size to keep it)"
    );
    assert_eq!(decompress_gzip(&encoded, 100).unwrap(), vec![7; 100]);
}
