//! What is decided about an archive as a whole: its format, where its documents lie, which
//! of its entries are written to the clipped archive, and how.
use vstd::hash_map::StringHashMap;
use vstd::hash_set::StringHashSet;
use vstd::prelude::*;
use vstd::string::*;

use crate::codec::{capped, decode_entry, decoded, gunzipped_upto, outcome, DecodeError};
use crate::directory::{
    gz_name, gz_variant_ends_in_gz, leads_to_entries, lookup_entry, models, with_gz, CdEntry,
    EntryModel,
};
use crate::i3s::{
    gz_is_taken_off_the_end, in_node_pages, is_in_node_pages, is_node_page, node_document,
    node_document_path, node_page, strip_gz, without_gz,
};
use crate::index::index_len;
use crate::json::Json;
use crate::text::{
    chars_of, decimal, decimal_of, ends_with, has_prefix, prefix_is_what_comes_first,
    starts_with, str_ends_with, suffix_is_what_comes_last,
};
use crate::tileset::texts;

verus! {

/// The two kinds of archive.
#[derive(Clone, Copy, Debug, PartialEq, Eq, Structural)]
pub enum ArchiveFormat {
    Cesium3DTiles,
    EsriI3S,
}

/// The format that the file extension tells.
pub open spec fn format_of(key: Seq<char>) -> Option<ArchiveFormat> {
    if ends_with(key, ".3tz"@) {
        Some(ArchiveFormat::Cesium3DTiles)
    } else if ends_with(key, ".slpk"@) || ends_with(key, ".spk"@) {
        Some(ArchiveFormat::EsriI3S)
    } else {
        None
    }
}

impl ArchiveFormat {
    /// The format that the file extension tells.
    pub fn of_key(key: &str) -> (r: Option<ArchiveFormat>)
        ensures
            r == format_of(key@),
    {
        if str_ends_with(key, ".3tz") {
            Some(ArchiveFormat::Cesium3DTiles)
        } else if str_ends_with(key, ".slpk") || str_ends_with(key, ".spk") {
            Some(ArchiveFormat::EsriI3S)
        } else {
            None
        }
    }

    /// The name of the index entry, the first of an archive of this format.
    pub fn index_name(self) -> (name: &'static str)
        ensures
            name@ == index_entry(self),
    {
        match self {
            ArchiveFormat::Cesium3DTiles => "@3dtilesIndex1@",
            ArchiveFormat::EsriI3S => "@specialIndexFileHASH128@",
        }
    }
}

/// The name of the index entry, the first of an archive.
pub open spec fn index_entry(format: ArchiveFormat) -> Seq<char> {
    match format {
        ArchiveFormat::Cesium3DTiles => "@3dtilesIndex1@"@,
        ArchiveFormat::EsriI3S => "@specialIndexFileHASH128@"@,
    }
}

/// Said of a key whose extension tells no format.
pub fn unsupported_message(key: &str) -> (s: String)
    ensures
        s@ == "Unsupported file extension for '"@ + key@
            + "'. Please use .3tz, .slpk, or .spk"@,
{
    let mut s = "Unsupported file extension for '".to_owned();
    s.append(key);
    s.append("'. Please use .3tz, .slpk, or .spk");
    s
}

/// Said of an archive that has no room for an End Of Central Directory record.
pub fn too_small_message(key: &str, file_size: u64) -> (s: String)
    ensures
        s@ == "'"@ + key@ + "' is only "@ + decimal(file_size as nat)
            + " bytes - too small to be a zip archive."@,
{
    let mut s = "'".to_owned();
    s.append(key);
    s.append("' is only ");
    s.append(decimal_of(file_size).as_str());
    s.append(" bytes - too small to be a zip archive.");
    s
}

/// Said of an archive in which no Central Directory was found.
pub fn no_directory_message(key: &str) -> (s: String)
    ensures
        s@ == "Could not map Central Directory for '"@ + key@
            + "'. File may be corrupted or not a valid zip archive."@,
{
    let mut s = "Could not map Central Directory for '".to_owned();
    s.append(key);
    s.append("'. File may be corrupted or not a valid zip archive.");
    s
}

/// The entry that a name leads to: that of the name itself or, where there is none, that of
/// its `.gz` variant.
pub open spec fn found_entry(
    entries: Seq<CdEntry>,
    index: Map<Seq<char>, usize>,
    name: Seq<char>,
) -> Option<CdEntry> {
    if index.contains_key(name) {
        Some(entries[index[name] as int])
    } else if index.contains_key(gz_name(name)) {
        Some(entries[index[gz_name(name)] as int])
    } else {
        None
    }
}

/// The entry of a tileset document, or what to say where the archive has none.
pub fn find_tileset<'a>(
    entries: &'a Vec<CdEntry>,
    index: &StringHashMap<usize>,
    json_path: &str,
) -> (r: Result<&'a CdEntry, String>)
    requires
        leads_to_entries(index@, entries@),
    ensures
        match r {
            Ok(entry) => found_entry(entries@, index@, json_path@) == Some(*entry),
            Err(message) => found_entry(entries@, index@, json_path@) is None && message@
                == "Missing JSON entry: "@ + json_path@,
        },
{
    match lookup_entry(entries.as_slice(), index, json_path) {
        Some(entry) => Ok(entry),
        None => {
            let mut message = "Missing JSON entry: ".to_owned();
            message.append(json_path);
            Err(message)
        },
    }
}

/// The entry of a node's own document, or what to say where the archive has none.
pub fn find_node<'a>(
    entries: &'a Vec<CdEntry>,
    index: &StringHashMap<usize>,
    node_id: &str,
) -> (r: Result<&'a CdEntry, String>)
    requires
        leads_to_entries(index@, entries@),
    ensures
        match r {
            Ok(entry) => found_entry(entries@, index@, node_document(node_id@)) == Some(*entry),
            Err(message) => found_entry(entries@, index@, node_document(node_id@)) is None
                && message@ == "Node "@ + node_id@ + " not found in archive"@,
        },
{
    let path = node_document_path(node_id);
    match lookup_entry(entries.as_slice(), index, path.as_str()) {
        Some(entry) => Ok(entry),
        None => {
            let mut message = "Node ".to_owned();
            message.append(node_id);
            message.append(" not found in archive");
            Err(message)
        },
    }
}

/// The entry of the scene layer document, or what to say where the archive has none.
pub fn find_scene_layer<'a>(entries: &'a Vec<CdEntry>, index: &StringHashMap<usize>) -> (r: Result<
    &'a CdEntry,
    String,
>)
    requires
        leads_to_entries(index@, entries@),
    ensures
        match r {
            Ok(entry) => found_entry(entries@, index@, "3dSceneLayer.json"@) == Some(*entry),
            Err(message) => found_entry(entries@, index@, "3dSceneLayer.json"@) is None && message@
                == "3dSceneLayer.json[.gz] not found"@,
        },
{
    match lookup_entry(entries.as_slice(), index, "3dSceneLayer.json") {
        Some(entry) => Ok(entry),
        None => Err("3dSceneLayer.json[.gz] not found".to_owned()),
    }
}

/// The keep set that an I3S archive starts with: the scene layer document.
pub fn scene_layer_keep_set() -> (keep: StringHashSet)
    ensures
        keep@ == Set::<Seq<char>>::empty().insert("3dSceneLayer.json"@),
{
    let mut keep = StringHashSet::new();
    keep.insert("3dSceneLayer.json".to_owned());
    keep
}

/// Decode an entry down to its plain content: its zip layer, and the gzip encoding that a
/// `.gz` name tells of.
pub fn decode_content(raw: Vec<u8>, entry: &CdEntry, max_bytes: u64) -> (r: Result<
    Vec<u8>,
    DecodeError,
>)
    requires
        max_bytes < u64::MAX,
    ensures
        outcome(r) == decoded(
            raw@,
            entry.comp_method,
            ends_with(entry.filename@, ".gz"@),
            max_bytes,
        ),
        r matches Err(DecodeError::TooLarge { max_bytes: cap }) ==> cap == max_bytes,
{
    decode_entry(
        raw,
        entry.comp_method,
        str_ends_with(entry.filename.as_str(), ".gz"),
        max_bytes,
    )
}

/// Decode an entry that is copied through: its zip layer only, so that a `.gz` entry keeps
/// its gzip stream as it is.
pub fn decode_copy(raw: Vec<u8>, entry: &CdEntry, max_bytes: u64) -> (r: Result<
    Vec<u8>,
    DecodeError,
>)
    requires
        max_bytes < u64::MAX,
    ensures
        outcome(r) == decoded(raw@, entry.comp_method, false, max_bytes),
        r matches Err(DecodeError::TooLarge { max_bytes: cap }) ==> cap == max_bytes,
{
    decode_entry(raw, entry.comp_method, false, max_bytes)
}

/// Whether the archive has node pages, as I3S 1.7 does.
pub fn has_node_pages(entries: &Vec<CdEntry>) -> (r: bool)
    ensures
        r == exists|i: int|
            0 <= i < entries@.len() && in_node_pages((#[trigger] entries@[i]).filename@),
{
    let mut i: usize = 0;
    while i < entries.len()
        invariant
            i <= entries@.len(),
            forall|j: int| 0 <= j < i ==> !in_node_pages((#[trigger] entries@[j]).filename@),
        decreases entries@.len() - i,
    {
        if is_in_node_pages(entries[i].filename.as_str()) {
            return true;
        }
        i += 1;
    }
    false
}

/// The positions of the entries whose name meets `wanted`, in order.
pub open spec fn positions(entries: Seq<EntryModel>, wanted: spec_fn(Seq<char>) -> bool) -> Seq<int>
    decreases entries.len(),
{
    if entries.len() == 0 {
        Seq::empty()
    } else if wanted(entries.last().filename) {
        positions(entries.drop_last(), wanted).push(entries.len() - 1)
    } else {
        positions(entries.drop_last(), wanted)
    }
}

/// The numbers as integers.
pub open spec fn ints(numbers: Seq<usize>) -> Seq<int> {
    numbers.map_values(|n: usize| n as int)
}

/// The positions of the node pages, in order.
pub fn node_page_positions(entries: &Vec<CdEntry>) -> (r: Vec<usize>)
    ensures
        ints(r@) == positions(models(entries@), |name: Seq<char>| node_page(name)),
{
    let mut r: Vec<usize> = Vec::new();
    let mut i: usize = 0;
    let ghost wanted = |name: Seq<char>| node_page(name);
    assert(ints(r@) =~= positions(models(entries@).take(0), wanted));
    while i < entries.len()
        invariant
            i <= entries@.len(),
            wanted == (|name: Seq<char>| node_page(name)),
            ints(r@) == positions(models(entries@).take(i as int), wanted),
        decreases entries@.len() - i,
    {
        proof {
            let upto = models(entries@).take(i + 1);
            assert(upto.drop_last() =~= models(entries@).take(i as int));
            assert(upto.last().filename == entries@[i as int].filename@);
        }
        let ghost before = r@;
        if is_node_page(entries[i].filename.as_str()) {
            r.push(i);
            assert(ints(r@) =~= ints(before).push(i as int));
        }
        i += 1;
    }
    assert(models(entries@).take(i as int) =~= models(entries@));
    r
}

/// How many entries lie below `nodepages/`.
pub open spec fn page_count(entries: Seq<EntryModel>) -> nat
    decreases entries.len(),
{
    if entries.len() == 0 {
        0
    } else {
        page_count(entries.drop_last()) + if starts_with(entries.last().filename, "nodepages/"@) {
            1nat
        } else {
            0nat
        }
    }
}

/// How many entries lie below `nodepages/`.
pub fn node_page_count(entries: &Vec<CdEntry>) -> (n: usize)
    ensures
        n == page_count(models(entries@)),
{
    let mut n: usize = 0;
    let mut i: usize = 0;
    while i < entries.len()
        invariant
            i <= entries@.len(),
            n <= i,
            n == page_count(models(entries@).take(i as int)),
        decreases entries@.len() - i,
    {
        proof {
            let upto = models(entries@).take(i + 1);
            assert(upto.drop_last() =~= models(entries@).take(i as int));
            assert(upto.last().filename == entries@[i as int].filename@);
        }
        let name = chars_of(entries[i].filename.as_str());
        if has_prefix(name.as_slice(), "nodepages/") {
            n += 1;
        }
        i += 1;
    }
    assert(models(entries@).take(i as int) =~= models(entries@));
    n
}

/// The names of the entries without the `.gz` at their ends.
pub open spec fn plain_names(entries: Seq<EntryModel>) -> Seq<Seq<char>> {
    entries.map_values(|entry: EntryModel| without_gz(entry.filename))
}

/// The names of the entries without the `.gz` at their ends.
pub fn stripped_names(entries: &Vec<CdEntry>) -> (r: Vec<String>)
    ensures
        texts(r@) == plain_names(models(entries@)),
{
    let mut r: Vec<String> = Vec::new();
    let mut i: usize = 0;
    while i < entries.len()
        invariant
            i <= entries@.len(),
            texts(r@) =~= plain_names(models(entries@)).take(i as int),
        decreases entries@.len() - i,
    {
        let ghost before = r@;
        let name = strip_gz(entries[i].filename.as_str());
        r.push(name);
        assert(texts(r@) =~= texts(before).push(name@));
        i += 1;
    }
    r
}

/// One entry of the clipped archive.
pub enum OutputEntry {
    /// The clipped tileset document that was kept under `document`, gzip-encoded where
    /// `gzip` says so.
    Rewritten { filename: String, document: String, gzip: bool },
    /// The source entry at this position, as it is.
    Copied { index: usize },
}

/// What an `OutputEntry` says.
pub enum OutputModel {
    Rewritten { filename: Seq<char>, document: Seq<char>, gzip: bool },
    Copied { index: int },
}

impl View for OutputEntry {
    type V = OutputModel;

    open spec fn view(&self) -> OutputModel {
        match *self {
            OutputEntry::Rewritten { filename, document, gzip } => OutputModel::Rewritten {
                filename: filename@,
                document: document@,
                gzip,
            },
            OutputEntry::Copied { index } => OutputModel::Copied { index: index as int },
        }
    }
}

/// What the entries say.
pub open spec fn output_models(outputs: Seq<OutputEntry>) -> Seq<OutputModel> {
    outputs.map_values(|output: OutputEntry| output@)
}

/// How the entry at position `index` is written: rewritten where its document was clipped,
/// and copied otherwise.
pub open spec fn output_of(entry: EntryModel, index: int, documents: Set<Seq<char>>) -> OutputModel {
    if documents.contains(without_gz(entry.filename)) {
        OutputModel::Rewritten {
            filename: if ends_with(entry.filename, ".gz"@) {
                gz_name(without_gz(entry.filename))
            } else {
                without_gz(entry.filename)
            },
            document: without_gz(entry.filename),
            gzip: ends_with(entry.filename, ".gz"@),
        }
    } else {
        OutputModel::Copied { index }
    }
}

/// The entries of the clipped archive: one for each source entry whose name, without its
/// `.gz`, is in the keep set, in the order of the source.
pub open spec fn planned(
    entries: Seq<EntryModel>,
    keep: Set<Seq<char>>,
    documents: Set<Seq<char>>,
) -> Seq<OutputModel>
    decreases entries.len(),
{
    if entries.len() == 0 {
        Seq::empty()
    } else if keep.contains(without_gz(entries.last().filename)) {
        planned(entries.drop_last(), keep, documents).push(
            output_of(entries.last(), entries.len() - 1, documents),
        )
    } else {
        planned(entries.drop_last(), keep, documents)
    }
}

/// Plan the entries of the clipped archive.
pub fn plan_output(
    entries: &Vec<CdEntry>,
    keep_uris: &StringHashSet,
    documents: &StringHashMap<Json>,
) -> (r: Vec<OutputEntry>)
    ensures
        output_models(r@) == planned(models(entries@), keep_uris@, documents@.dom()),
{
    let mut r: Vec<OutputEntry> = Vec::new();
    let mut i: usize = 0;
    assert(output_models(r@) =~= planned(
        models(entries@).take(0),
        keep_uris@,
        documents@.dom(),
    ));
    while i < entries.len()
        invariant
            i <= entries@.len(),
            output_models(r@) == planned(
                models(entries@).take(i as int),
                keep_uris@,
                documents@.dom(),
            ),
        decreases entries@.len() - i,
    {
        proof {
            let upto = models(entries@).take(i + 1);
            assert(upto.drop_last() =~= models(entries@).take(i as int));
            assert(upto.last().filename == entries@[i as int].filename@);
            assert(upto.last() == models(entries@)[i as int]);
        }
        let ghost before = r@;
        let name = strip_gz(entries[i].filename.as_str());
        if keep_uris.contains(name.as_str()) {
            let output = if documents.contains_key(name.as_str()) {
                let gzip = str_ends_with(entries[i].filename.as_str(), ".gz");
                let filename = if gzip {
                    with_gz(name.as_str())
                } else {
                    name.clone()
                };
                OutputEntry::Rewritten { filename, document: name, gzip }
            } else {
                OutputEntry::Copied { index: i }
            };
            assert(output@ == output_of(
                models(entries@)[i as int],
                i as int,
                documents@.dom(),
            ));
            r.push(output);
            assert(output_models(r@) =~= output_models(before).push(output@));
        }
        i += 1;
    }
    assert(models(entries@).take(i as int) =~= models(entries@));
    r
}

/// How an entry of the clipped archive is compressed.
#[derive(Clone, Copy, Debug, PartialEq, Eq, Structural)]
pub enum ZipMethod {
    Stored,
    Zstd,
}

/// How an entry is compressed: `.gz` entries carry their own encoding and are stored, all
/// others are compressed with Zstandard.
pub fn method_for(filename: &str) -> (r: ZipMethod)
    ensures
        r == (if ends_with(filename@, ".gz"@) {
            ZipMethod::Stored
        } else {
            ZipMethod::Zstd
        }),
{
    if str_ends_with(filename, ".gz") {
        ZipMethod::Stored
    } else {
        ZipMethod::Zstd
    }
}

/// One entry of the finished archive.
#[derive(Clone, Copy, Debug)]
pub enum ArchiveSlot {
    /// The index, with room for as many bytes.
    Index { name: &'static str, room: usize },
    /// The file at this position among those that were written.
    File { position: usize },
}

/// What an `ArchiveSlot` says.
pub enum SlotModel {
    Index { name: Seq<char>, room: nat },
    File { position: int },
}

impl View for ArchiveSlot {
    type V = SlotModel;

    open spec fn view(&self) -> SlotModel {
        match *self {
            ArchiveSlot::Index { name, room } => SlotModel::Index { name: name@, room: room as nat },
            ArchiveSlot::File { position } => SlotModel::File { position: position as int },
        }
    }
}

/// What the slots say.
pub open spec fn slot_views(slots: Seq<ArchiveSlot>) -> Seq<SlotModel> {
    slots.map_values(|slot: ArchiveSlot| slot@)
}

/// The entries of the finished archive over `count` files: the index first, with room for
/// one record for each file, then the files in their order.
pub open spec fn laid_out(format: ArchiveFormat, count: nat) -> Seq<SlotModel> {
    seq![SlotModel::Index { name: index_entry(format), room: index_len(count) }] + Seq::new(
        count,
        |i: int| SlotModel::File { position: i },
    )
}

/// Lay out the finished archive over `count` files that were written. How much room the
/// index needs is known only then, since some fetches may have failed.
pub fn archive_layout(format: ArchiveFormat, count: usize) -> (r: Vec<ArchiveSlot>)
    requires
        index_len(count as nat) <= usize::MAX,
    ensures
        slot_views(r@) == laid_out(format, count as nat),
{
    let mut r: Vec<ArchiveSlot> = Vec::new();
    r.push(ArchiveSlot::Index { name: format.index_name(), room: count * 24 });
    let mut i: usize = 0;
    while i < count
        invariant
            i <= count,
            slot_views(r@) =~= laid_out(format, count as nat).take(i + 1),
        decreases count - i,
    {
        let ghost before = r@;
        let slot = ArchiveSlot::File { position: i };
        r.push(slot);
        assert(slot_views(r@) =~= slot_views(before).push(slot@));
        i += 1;
    }
    r
}

/// The index is the first entry of the archive and the only one that is no file; its room
/// is that of one record for each file, and every file follows once, in order.
pub proof fn index_comes_first(format: ArchiveFormat, count: nat)
    ensures
        laid_out(format, count).len() == count + 1,
        laid_out(format, count)[0] == (SlotModel::Index {
            name: index_entry(format),
            room: 24 * count,
        }),
        forall|i: int|
            1 <= i <= count ==> #[trigger] laid_out(format, count)[i] == (SlotModel::File {
                position: i - 1,
            }),
{
}

/// The name of a planned entry.
pub open spec fn output_name(output: OutputModel, entries: Seq<EntryModel>) -> Seq<char> {
    match output {
        OutputModel::Rewritten { filename, .. } => filename,
        OutputModel::Copied { index } => entries[index].filename,
    }
}

/// Taking the `.gz` off a name and putting it back gives the name.
pub proof fn gz_comes_back(name: Seq<char>)
    requires
        ends_with(name, ".gz"@),
    ensures
        gz_name(without_gz(name)) == name,
{
    reveal_strlit(".gz");
    let tail = name.subrange(name.len() - 3, name.len() as int);
    assert(tail[0] == '.' && tail[1] == 'g' && tail[2] == 'z');
    assert(gz_name(without_gz(name)) =~= name);
}

/// Every entry is written under the name that it has in the source: the clipped archive
/// names the same files that its documents refer to. The source entry that an output comes
/// from is in the keep set.
pub proof fn outputs_keep_their_names(
    entries: Seq<EntryModel>,
    keep: Set<Seq<char>>,
    documents: Set<Seq<char>>,
    j: int,
)
    requires
        0 <= j < planned(entries, keep, documents).len(),
    ensures
        exists|i: int|
            0 <= i < entries.len() && keep.contains(
                without_gz((#[trigger] entries[i]).filename),
            ) && planned(entries, keep, documents)[j] == output_of(entries[i], i, documents)
                && output_name(planned(entries, keep, documents)[j], entries)
                == entries[i].filename,
    decreases entries.len(),
{
    let before = entries.drop_last();
    let last = entries.len() - 1;
    if keep.contains(without_gz(entries.last().filename)) && j == planned(
        before,
        keep,
        documents,
    ).len() {
        assert(planned(entries, keep, documents)[j] == output_of(entries[last], last, documents));
        if ends_with(entries[last].filename, ".gz"@) {
            gz_comes_back(entries[last].filename);
        }
        assert(keep.contains(without_gz(entries[last].filename)));
    } else {
        outputs_keep_their_names(before, keep, documents, j);
        let i = choose|i: int|
            0 <= i < before.len() && keep.contains(without_gz((#[trigger] before[i]).filename))
                && planned(before, keep, documents)[j] == output_of(before[i], i, documents)
                && output_name(planned(before, keep, documents)[j], before)
                == before[i].filename;
        assert(entries[i] == before[i]);
    }
}

/// Every entry in the keep set is written.
pub proof fn kept_entries_are_written(
    entries: Seq<EntryModel>,
    keep: Set<Seq<char>>,
    documents: Set<Seq<char>>,
    i: int,
)
    requires
        0 <= i < entries.len(),
        keep.contains(without_gz(entries[i].filename)),
    ensures
        planned(entries, keep, documents).contains(output_of(entries[i], i, documents)),
    decreases entries.len(),
{
    let before = entries.drop_last();
    let all = planned(entries, keep, documents);
    if i == entries.len() - 1 {
        assert(all.last() == output_of(entries[i], i, documents));
        assert(all[all.len() - 1] == all.last());
    } else {
        kept_entries_are_written(before, keep, documents, i);
        let some = planned(before, keep, documents);
        let wanted = output_of(entries[i], i, documents);
        assert(before[i] == entries[i]);
        let j = choose|j: int| 0 <= j < some.len() && some[j] == wanted;
        assert(all[j] == wanted);
    }
}

/// The extension tells the format: `.3tz` is 3D Tiles, `.slpk` and `.spk` are I3S, and any
/// other name tells none.
pub proof fn extension_tells_the_format(stem: Seq<char>, key: Seq<char>)
    ensures
        format_of(stem + ".3tz"@) == Some(ArchiveFormat::Cesium3DTiles),
        format_of(stem + ".slpk"@) == Some(ArchiveFormat::EsriI3S),
        format_of(stem + ".spk"@) == Some(ArchiveFormat::EsriI3S),
        format_of(key) is Some ==> exists|s: Seq<char>|
            key == #[trigger] (s + ".3tz"@) || key == s + ".slpk"@ || key == s + ".spk"@,
{
    reveal_strlit(".3tz");
    reveal_strlit(".slpk");
    reveal_strlit(".spk");
    let slpk = stem + ".slpk"@;
    let spk = stem + ".spk"@;
    suffix_is_what_comes_last(key, ".3tz"@, stem);
    suffix_is_what_comes_last(key, ".slpk"@, stem);
    suffix_is_what_comes_last(key, ".spk"@, stem);
    if ends_with(slpk, ".3tz"@) {
        assert(slpk.subrange(slpk.len() - 4, slpk.len() as int)[3] == 'z');
        assert(slpk[slpk.len() - 1] == 'k');
    }
    if ends_with(spk, ".3tz"@) {
        assert(spk.subrange(spk.len() - 4, spk.len() as int)[3] == 'z');
        assert(spk[spk.len() - 1] == 'k');
    }
    if format_of(key) is Some {
        if ends_with(key, ".3tz"@) {
            let s = key.take(key.len() - 4);
            assert(key == s + ".3tz"@);
        } else if ends_with(key, ".slpk"@) {
            let s = key.take(key.len() - 5);
            let t = s + ".3tz"@;
            assert(key == s + ".slpk"@);
        } else {
            let s = key.take(key.len() - 4);
            let t = s + ".3tz"@;
            assert(key == s + ".spk"@);
        }
    }
}

/// The index of an archive bears the name that readers of its format look for.
pub proof fn index_is_named_by_the_format(format: ArchiveFormat)
    ensures
        format is Cesium3DTiles ==> index_entry(format) == "@3dtilesIndex1@"@,
        format is EsriI3S ==> index_entry(format) == "@specialIndexFileHASH128@"@,
{
}

/// A name leads to its own entry wherever there is one; only without it does the one with
/// `.gz` behind the name count.
pub proof fn plain_entry_comes_before_its_gz_variant(
    entries: Seq<CdEntry>,
    index: Map<Seq<char>, usize>,
    name: Seq<char>,
)
    ensures
        index.dom().contains(name) ==> found_entry(entries, index, name) == Some(
            entries[index[name] as int],
        ),
        !index.dom().contains(name) && index.dom().contains(name + ".gz"@) ==> found_entry(
            entries,
            index,
            name,
        ) == Some(entries[index[name + ".gz"@] as int]),
        !index.dom().contains(name) && !index.dom().contains(name + ".gz"@) ==> found_entry(
            entries,
            index,
            name,
        ) is None,
{
    gz_variant_ends_in_gz(name);
}

/// The positions are those of the wanted entries, each one once, from the first to the last.
pub proof fn positions_are_those_of_the_wanted(
    entries: Seq<EntryModel>,
    wanted: spec_fn(Seq<char>) -> bool,
)
    ensures
        forall|k: int|
            0 <= k < positions(entries, wanted).len() ==> 0 <= #[trigger] positions(
                entries,
                wanted,
            )[k] < entries.len() && wanted(entries[positions(entries, wanted)[k]].filename),
        forall|j: int, k: int|
            0 <= j < k < positions(entries, wanted).len() ==> #[trigger] positions(
                entries,
                wanted,
            )[j] < #[trigger] positions(entries, wanted)[k],
        forall|i: int|
            0 <= i < entries.len() && wanted((#[trigger] entries[i]).filename) ==> positions(
                entries,
                wanted,
            ).contains(i),
    decreases entries.len(),
{
    if entries.len() > 0 {
        let front = entries.drop_last();
        let last = entries.len() - 1;
        positions_are_those_of_the_wanted(front, wanted);
        let before = positions(front, wanted);
        let all = positions(entries, wanted);
        assert(entries[last] == entries.last());
        assert forall|k: int| 0 <= k < all.len() implies 0 <= #[trigger] all[k] < entries.len()
            && wanted(entries[all[k]].filename) by {
            if k < before.len() {
                assert(all[k] == before[k]);
                assert(front[before[k]] == entries[before[k]]);
            }
        }
        assert forall|j: int, k: int| 0 <= j < k < all.len() implies #[trigger] all[j]
            < #[trigger] all[k] by {
            assert(all[j] == before[j]);
            if k < before.len() {
                assert(all[k] == before[k]);
            }
        }
        assert forall|i: int|
            0 <= i < entries.len() && wanted((#[trigger] entries[i]).filename) implies all.contains(
            i,
        ) by {
            if i < last {
                assert(front[i] == entries[i]);
                assert(before.contains(i));
                let k = choose|k: int| 0 <= k < before.len() && before[k] == i;
                assert(all[k] == i);
            } else {
                assert(all[all.len() - 1] == i);
            }
        }
    }
}

/// Files of the node pages are counted one by one.
pub proof fn page_counts_add_up(first: Seq<EntryModel>, second: Seq<EntryModel>)
    ensures
        page_count(first + second) == page_count(first) + page_count(second),
    decreases second.len(),
{
    let all = first + second;
    if second.len() == 0 {
        assert(all =~= first);
    } else {
        page_counts_add_up(first, second.drop_last());
        assert(all.drop_last() =~= first + second.drop_last());
        assert(all.last() == second.last());
    }
}

/// An entry counts where its name begins with `nodepages/`.
pub proof fn page_counts_by_its_name(entry: EntryModel)
    ensures
        starts_with(entry.filename, "nodepages/"@) ==> page_count(seq![entry]) == 1,
        !starts_with(entry.filename, "nodepages/"@) ==> page_count(seq![entry]) == 0,
{
    let one = seq![entry];
    assert(one.drop_last() =~= Seq::<EntryModel>::empty());
    assert(page_count(one.drop_last()) == 0);
    assert(one.last() == entry);
}

/// Every entry has its plain name, in its place.
pub proof fn plain_names_lack_their_gz(entries: Seq<EntryModel>, i: int)
    requires
        0 <= i < entries.len(),
    ensures
        plain_names(entries).len() == entries.len(),
        plain_names(entries)[i] == without_gz(entries[i].filename),
{
}

/// The clipped archive has one entry for each source entry in the keep set, in the order of
/// the source.
pub proof fn outputs_follow_the_source(
    entries: Seq<EntryModel>,
    keep: Set<Seq<char>>,
    documents: Set<Seq<char>>,
)
    ensures
        ({
            let kept = positions(entries, |name: Seq<char>| keep.contains(without_gz(name)));
            let outputs = planned(entries, keep, documents);
            &&& outputs.len() == kept.len()
            &&& forall|j: int|
                0 <= j < kept.len() ==> #[trigger] outputs[j] == output_of(
                    entries[kept[j]],
                    kept[j],
                    documents,
                )
        }),
    decreases entries.len(),
{
    let wanted = |name: Seq<char>| keep.contains(without_gz(name));
    if entries.len() > 0 {
        let front = entries.drop_last();
        outputs_follow_the_source(front, keep, documents);
        positions_are_those_of_the_wanted(front, wanted);
        let kept = positions(entries, wanted);
        let before = positions(front, wanted);
        let outputs = planned(entries, keep, documents);
        assert(entries[entries.len() - 1] == entries.last());
        assert forall|j: int| 0 <= j < kept.len() implies #[trigger] outputs[j] == output_of(
            entries[kept[j]],
            kept[j],
            documents,
        ) by {
            if j < before.len() {
                assert(kept[j] == before[j]);
                assert(front[before[j]] == entries[before[j]]);
                assert(planned(front, keep, documents)[j] == output_of(
                    front[before[j]],
                    before[j],
                    documents,
                ));
            }
        }
    }
}

/// An entry whose document was clipped is rewritten from that document, as gzip exactly
/// where its name ends with `.gz`; every other entry is copied from its place.
pub proof fn clipped_documents_are_rewritten(
    entry: EntryModel,
    name: Seq<char>,
    index: int,
    documents: Set<Seq<char>>,
)
    ensures
        entry.filename == name + ".gz"@ && documents.contains(name) ==> output_of(
            entry,
            index,
            documents,
        ) == (OutputModel::Rewritten { filename: entry.filename, document: name, gzip: true }),
        entry.filename == name + ".gz"@ && !documents.contains(name) ==> output_of(
            entry,
            index,
            documents,
        ) == (OutputModel::Copied { index }),
        entry.filename == name && !ends_with(name, ".gz"@) && documents.contains(name)
            ==> output_of(entry, index, documents) == (OutputModel::Rewritten {
            filename: name,
            document: name,
            gzip: false,
        }),
        entry.filename == name && !ends_with(name, ".gz"@) && !documents.contains(name)
            ==> output_of(entry, index, documents) == (OutputModel::Copied { index }),
{
    gz_is_taken_off_the_end(name);
    gz_variant_ends_in_gz(name);
    suffix_is_what_comes_last(name, ".gz"@, name);
}

/// Planned entries say what they hold, in their order.
pub proof fn outputs_say_what_they_hold(outputs: Seq<OutputEntry>, i: int)
    requires
        0 <= i < outputs.len(),
    ensures
        output_models(outputs).len() == outputs.len(),
        match outputs[i] {
            OutputEntry::Rewritten { filename, document, gzip } => output_models(outputs)[i] == (
            OutputModel::Rewritten { filename: filename@, document: document@, gzip }),
            OutputEntry::Copied { index } => output_models(outputs)[i] == (OutputModel::Copied {
                index: index as int,
            }),
        },
{
}

/// Slots say what they hold, in their order.
pub proof fn slots_say_what_they_hold(slots: Seq<ArchiveSlot>, i: int)
    requires
        0 <= i < slots.len(),
    ensures
        slot_views(slots).len() == slots.len(),
        match slots[i] {
            ArchiveSlot::Index { name, room } => slot_views(slots)[i] == (SlotModel::Index {
                name: name@,
                room: room as nat,
            }),
            ArchiveSlot::File { position } => slot_views(slots)[i] == (SlotModel::File {
                position: position as int,
            }),
        },
{
}

/// Entries whose names end with `.gz` are stored, and no others.
pub proof fn gz_entries_are_stored(filename: &str, r: ZipMethod)
    requires
        call_ensures(method_for, (filename,), r),
    ensures
        r is Stored <==> ends_with(filename@, ".gz"@),
        r is Zstd <==> !ends_with(filename@, ".gz"@),
{
}

/// Content is decoded through the gzip encoding that a `.gz` name tells of, and a copy is
/// not: without such a name the two are the same, and with it the content is what undoing
/// gzip makes of the copy, as long as the copy fits.
pub proof fn content_is_decoded_further_than_a_copy(
    raw: Vec<u8>,
    entry: &CdEntry,
    max_bytes: u64,
    content: Result<Vec<u8>, DecodeError>,
    copy: Result<Vec<u8>, DecodeError>,
)
    requires
        call_ensures(decode_content, (raw, entry, max_bytes), content),
        call_ensures(decode_copy, (raw, entry, max_bytes), copy),
    ensures
        !ends_with(entry.filename@, ".gz"@) ==> outcome(content) == outcome(copy),
        ends_with(entry.filename@, ".gz"@) && copy is Ok ==> outcome(content) == capped(
            gunzipped_upto(copy->Ok_0@, (max_bytes + 1) as u64),
            max_bytes,
        ),
{
}

/// A node is found where its document is, and the scene layer at `3dSceneLayer.json`.
pub proof fn documents_are_found_by_their_paths<'a>(
    entries: &'a Vec<CdEntry>,
    index: &StringHashMap<usize>,
    node_id: &str,
    node: Result<&'a CdEntry, String>,
    layer: Result<&'a CdEntry, String>,
)
    requires
        call_ensures(find_node, (entries, index, node_id), node),
        call_ensures(find_scene_layer, (entries, index), layer),
    ensures
        index@.dom().contains("nodes/"@ + node_id@ + "/3dNodeIndexDocument.json"@) ==> (
        node matches Ok(entry) && *entry == entries@[index@["nodes/"@ + node_id@
            + "/3dNodeIndexDocument.json"@] as int]),
        index@.dom().contains("3dSceneLayer.json"@) ==> (layer matches Ok(entry) && *entry
            == entries@[index@["3dSceneLayer.json"@] as int]),
{
    plain_entry_comes_before_its_gz_variant(entries@, index@, node_document(node_id@));
    plain_entry_comes_before_its_gz_variant(entries@, index@, "3dSceneLayer.json"@);
}

/// The scene layer document always stays.
pub proof fn scene_layer_always_stays(keep: StringHashSet, name: Seq<char>)
    requires
        call_ensures(scene_layer_keep_set, (), keep),
    ensures
        keep@.contains(name) <==> name == "3dSceneLayer.json"@,
{
}

/// What is said of an archive that cannot be read names its key, and what is said of one that
/// is too small its size as well.
pub proof fn complaints_name_the_archive(
    key: &str,
    file_size: u64,
    unsupported: String,
    small: String,
    missing: String,
)
    requires
        call_ensures(unsupported_message, (key,), unsupported),
        call_ensures(too_small_message, (key, file_size), small),
        call_ensures(no_directory_message, (key,), missing),
    ensures
        starts_with(unsupported@, "Unsupported file extension for '"@ + key@),
        starts_with(small@, "'"@ + key@ + "' is only "@ + decimal(file_size as nat)),
        starts_with(missing@, "Could not map Central Directory for '"@ + key@),
{
    prefix_is_what_comes_first(
        unsupported@,
        "Unsupported file extension for '"@ + key@,
        "'. Please use .3tz, .slpk, or .spk"@,
    );
    prefix_is_what_comes_first(
        small@,
        "'"@ + key@ + "' is only "@ + decimal(file_size as nat),
        " bytes - too small to be a zip archive."@,
    );
    prefix_is_what_comes_first(
        missing@,
        "Could not map Central Directory for '"@ + key@,
        "'. File may be corrupted or not a valid zip archive."@,
    );
}

} // verus!
