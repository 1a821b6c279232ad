//! Writing a clipped archive: which entries, in which order, and the index.
use tile_clipper::archive::{
    archive_layout, decode_content, decode_copy, find_node, find_scene_layer, find_tileset, has_node_pages,
    method_for, no_directory_message, node_page_count, node_page_positions, plan_output,
    scene_layer_keep_set, stripped_names, too_small_message, unsupported_message, ArchiveFormat,
    ArchiveSlot, OutputEntry, ZipMethod,
};
use tile_clipper::codec::encode_gzip;
use tile_clipper::directory::{index_entries, CdEntry};
use tile_clipper::index::{
    build_index, collect_records, index_patches, patches_with, placeholder, IndexRecord,
    WrittenEntry,
};
use tile_clipper::json::Json;
use tile_clipper::le::{push_u32, push_u64, read_u16, read_u32, read_u64};
use tile_clipper::{StringHashMap, StringHashSet};

fn entry(filename: &str) -> CdEntry {
    CdEntry { filename: filename.to_string(), header_offset: 0, compressed_size: 1, comp_method: 0 }
}

#[test]
fn formats_follow_the_extension() {
    assert_eq!(ArchiveFormat::of_key("a/b.3tz"), Some(ArchiveFormat::Cesium3DTiles));
    assert_eq!(ArchiveFormat::of_key("b.slpk"), Some(ArchiveFormat::EsriI3S));
    assert_eq!(ArchiveFormat::of_key("b.spk"), Some(ArchiveFormat::EsriI3S));
    assert_eq!(ArchiveFormat::of_key("b.zip"), None);
    assert_eq!(ArchiveFormat::Cesium3DTiles.index_name(), "@3dtilesIndex1@");
    assert_eq!(ArchiveFormat::EsriI3S.index_name(), "@specialIndexFileHASH128@");
}

#[test]
fn messages_name_the_archive() {
    assert_eq!(
        unsupported_message("b.zip"),
        "Unsupported file extension for 'b.zip'. Please use .3tz, .slpk, or .spk"
    );
    assert_eq!(
        too_small_message("b.3tz", 21),
        "'b.3tz' is only 21 bytes - too small to be a zip archive."
    );
    assert_eq!(
        no_directory_message("b.3tz"),
        "Could not map Central Directory for 'b.3tz'. File may be corrupted or not a valid zip archive."
    );
}

#[test]
fn documents_are_found_or_named() {
    let entries = vec![entry("3dSceneLayer.json.gz"), entry("nodes/7/3dNodeIndexDocument.json")];
    let index = index_entries(&entries);
    assert_eq!(find_scene_layer(&entries, &index).unwrap().filename, "3dSceneLayer.json.gz");
    assert!(find_node(&entries, &index, "7").is_ok());
    assert_eq!(find_node(&entries, &index, "8").unwrap_err(), "Node 8 not found in archive");
    assert_eq!(
        find_tileset(&entries, &index, "tileset.json").unwrap_err(),
        "Missing JSON entry: tileset.json"
    );
    let none = Vec::new();
    let index = index_entries(&none);
    assert_eq!(
        find_scene_layer(&none, &index).unwrap_err(),
        "3dSceneLayer.json[.gz] not found"
    );
    assert!(scene_layer_keep_set().contains("3dSceneLayer.json"));
    assert_eq!(scene_layer_keep_set().len(), 1);
}

#[test]
fn gz_entries_are_decoded_for_reading_and_not_for_copying() {
    let plain = b"content".to_vec();
    let encoded = encode_gzip(&plain).unwrap();
    let gz = entry("a.json.gz");
    assert_eq!(decode_content(encoded.clone(), &gz, 100).unwrap(), plain);
    assert_eq!(decode_copy(encoded.clone(), &gz, 100).unwrap(), encoded);
    assert_eq!(decode_content(encoded.clone(), &entry("a.json"), 100).unwrap(), encoded);
}

#[test]
fn node_pages_are_told_by_their_names() {
    let entries =
        vec![entry("nodepages/0.json.gz"), entry("a.bin"), entry("layers/0/nodepages/1.json")];
    assert!(has_node_pages(&entries));
    assert_eq!(node_page_positions(&entries), vec![0, 2]);
    assert_eq!(node_page_count(&entries), 1);
    assert!(!has_node_pages(&vec![entry("a.bin")]));
    assert_eq!(
        stripped_names(&entries),
        vec!["nodepages/0.json", "a.bin", "layers/0/nodepages/1.json"]
    );
}

#[test]
fn kept_entries_are_written_under_their_names() {
    let entries = vec![
        entry("tileset.json.gz"),
        entry("a.glb"),
        entry("dropped.glb"),
        entry("sub.json"),
        entry("b.bin.gz"),
    ];
    let mut keep = StringHashSet::new();
    for name in ["tileset.json", "a.glb", "sub.json", "b.bin"] {
        keep.insert(name.to_string());
    }
    let mut documents = StringHashMap::new();
    documents.insert("tileset.json".to_string(), Json::Null);
    documents.insert("sub.json".to_string(), Json::Null);
    documents.insert("not-in-the-archive.json".to_string(), Json::Null);
    let plan = plan_output(&entries, &keep, &documents);
    let names: Vec<(String, bool)> = plan
        .iter()
        .map(|output| match output {
            OutputEntry::Rewritten { filename, document, gzip } => {
                assert_eq!(*gzip, filename != document);
                (filename.clone(), true)
            }
            OutputEntry::Copied { index } => (entries[*index].filename.clone(), false),
        })
        .collect();
    assert_eq!(
        names,
        vec![
            ("tileset.json.gz".to_string(), true),
            ("a.glb".to_string(), false),
            ("sub.json".to_string(), true),
            ("b.bin.gz".to_string(), false),
        ]
    );
    assert_eq!(method_for("tileset.json.gz"), ZipMethod::Stored);
    assert_eq!(method_for("a.glb"), ZipMethod::Zstd);
}

fn written(name: &str, header_start: u64, central_header_start: u64) -> WrittenEntry {
    WrittenEntry { name: name.to_string(), header_start, central_header_start }
}

#[test]
fn records_hold_the_hash_of_the_path() {
    let entries = vec![
        written("abc", 100, 900),
        written("@3dtilesIndex1@", 200, 950),
        written("a\\b", 300, 990),
    ];
    let (records, header, central) = collect_records(&entries, "@3dtilesIndex1@");
    assert_eq!((header, central), (200, 950));
    assert_eq!(records.len(), 2);
    assert_eq!(
        records[0].md5hash,
        [
            0x90, 0x01, 0x50, 0x98, 0x3c, 0xd2, 0x4f, 0xb0, 0xd6, 0x96, 0x3f, 0x7d, 0x28, 0xe1,
            0x7f, 0x72
        ]
    );
    assert_eq!(records[0].offset, 100);
    assert_eq!(records[1].md5hash, md5::compute(b"a/b").0);
    let (_, header, central) = collect_records(&vec![written("abc", 1, 2)], "@3dtilesIndex1@");
    assert_eq!((header, central), (0, 0));
}

fn record(low: u64, high: u64, offset: u64) -> IndexRecord {
    let mut md5hash = [0; 16];
    md5hash[..8].copy_from_slice(&low.to_le_bytes());
    md5hash[8..].copy_from_slice(&high.to_le_bytes());
    IndexRecord { md5hash, offset }
}

#[test]
fn the_index_is_sorted_and_reads_back() {
    let records = vec![
        record(5, 1, 10),
        record(2, 9, 20),
        record(5, 0, 30),
        record(2, 9, 40),
        record(u64::MAX, 0, 50),
        record(0, u64::MAX, 60),
    ];
    let bytes = build_index(&records);
    assert_eq!(bytes.len(), 24 * records.len());
    let rows: Vec<(u64, u64, u64)> = bytes
        .chunks(24)
        .map(|row| (read_u64(row, 0), read_u64(row, 8), read_u64(row, 16)))
        .collect();
    assert_eq!(
        rows,
        vec![
            (0, u64::MAX, 60),
            (2, 9, 20),
            (2, 9, 40),
            (5, 0, 30),
            (5, 1, 10),
            (u64::MAX, 0, 50),
        ]
    );
    assert!(build_index(&Vec::new()).is_empty());
}

#[test]
fn the_index_of_many_files_is_the_stable_sort_of_their_records() {
    let mut state: u64 = 7;
    let mut records = Vec::new();
    for offset in 0..1000 {
        state = state.wrapping_mul(6364136223846793005).wrapping_add(1442695040888963407);
        records.push(record(state >> 58, (state >> 40) & 3, offset));
    }
    let bytes = build_index(&records);
    let mut sorted: Vec<(u64, u64, u64)> = records
        .iter()
        .map(|r| (read_u64(&r.md5hash, 0), read_u64(&r.md5hash, 8), r.offset))
        .collect();
    sorted.sort_by_key(|row| (row.0, row.1));
    let rows: Vec<(u64, u64, u64)> = bytes
        .chunks(24)
        .map(|row| (read_u64(row, 0), read_u64(row, 8), read_u64(row, 16)))
        .collect();
    assert_eq!(rows, sorted);
}

#[test]
fn the_index_is_the_first_entry() {
    let layout = archive_layout(ArchiveFormat::Cesium3DTiles, 2);
    assert_eq!(layout.len(), 3);
    assert!(matches!(layout[0], ArchiveSlot::Index { name: "@3dtilesIndex1@", room: 48 }));
    assert!(matches!(layout[1], ArchiveSlot::File { position: 0 }));
    assert!(matches!(layout[2], ArchiveSlot::File { position: 1 }));
    let layout = archive_layout(ArchiveFormat::EsriI3S, 0);
    assert_eq!(layout.len(), 1);
    assert!(matches!(
        layout[0],
        ArchiveSlot::Index { name: "@specialIndexFileHASH128@", room: 0 }
    ));
}

#[test]
fn the_index_fills_its_placeholder() {
    let room = placeholder(3);
    assert_eq!(room, vec![0; 72]);
    assert_eq!(build_index(&vec![record(1, 1, 1), record(2, 2, 2), record(3, 3, 3)]).len(), 72);
    assert!(placeholder(0).is_empty());
}

#[test]
fn the_checksum_goes_into_both_headers() {
    let (body, local, central) = index_patches(b"123456789".to_vec(), 1000, 200, 5000);
    assert_eq!((body.at, body.bytes.as_slice()), (1000, &b"123456789"[..]));
    let crc = 0xCBF4_3926u32.to_le_bytes();
    assert_eq!((local.at, local.bytes.as_slice()), (214, &crc[..]));
    assert_eq!((central.at, central.bytes.as_slice()), (5016, &crc[..]));

    let (_, local, central) = patches_with(Vec::new(), 0x0102_0304, 0, 0, 0);
    assert_eq!((local.at, local.bytes), (14, vec![4, 3, 2, 1]));
    assert_eq!((central.at, central.bytes), (16, vec![4, 3, 2, 1]));
}

#[test]
fn little_endian_numbers_come_back() {
    let mut out = Vec::new();
    push_u32(&mut out, 0x0102_0304);
    push_u64(&mut out, 0x1122_3344_5566_7788);
    assert_eq!(out, vec![4, 3, 2, 1, 0x88, 0x77, 0x66, 0x55, 0x44, 0x33, 0x22, 0x11]);
    assert_eq!(read_u32(&out, 0), 0x0102_0304);
    assert_eq!(read_u64(&out, 4), 0x1122_3344_5566_7788);
    assert_eq!(read_u16(&out, 2), 0x0102);
}
