//! The Central Directory of a zip archive: reading its records, and looking entries up by
//! name.
use vstd::hash_map::StringHashMap;
use vstd::prelude::*;
use vstd::string::*;
use vstd::utf8::{decode_utf8, valid_utf8};

use crate::le::{
    le16, le32, le64, le64_bytes, le64_roundtrip, read_u16, read_u32, read_u64,
};
use crate::text::{slashed, slashed_chars, string_of};

verus! {

/// One entry of an archive, as its Central Directory record describes it.
#[derive(Debug)]
pub struct CdEntry {
    pub filename: String,
    pub header_offset: u64,
    pub compressed_size: u64,
    /// Raw ZIP compression method code (8 = DEFLATE, 93 = Zstandard, 0 = stored).
    pub comp_method: u16,
}

/// What a `CdEntry` says.
pub struct EntryModel {
    pub filename: Seq<char>,
    pub header_offset: nat,
    pub compressed_size: nat,
    pub comp_method: nat,
}

impl View for CdEntry {
    type V = EntryModel;

    open spec fn view(&self) -> EntryModel {
        EntryModel {
            filename: self.filename@,
            header_offset: self.header_offset as nat,
            compressed_size: self.compressed_size as nat,
            comp_method: self.comp_method as nat,
        }
    }
}

impl Clone for CdEntry {
    fn clone(&self) -> (r: Self)
        ensures
            r@ == self@,
    {
        CdEntry {
            filename: self.filename.clone(),
            header_offset: self.header_offset,
            compressed_size: self.compressed_size,
            comp_method: self.comp_method,
        }
    }
}

/// What the entries say, in order.
pub open spec fn models(entries: Seq<CdEntry>) -> Seq<EntryModel> {
    entries.map_values(|e: CdEntry| e@)
}

/// How far it is from `at` to `end`.
pub open spec fn left(at: int, end: int) -> nat {
    if at < end {
        (end - at) as nat
    } else {
        0
    }
}

/// The four bytes `P`, `K`, `a`, `c` stand at `i`.
pub open spec fn signed(b: Seq<u8>, i: int, a: u8, c: u8) -> bool {
    &&& 0 <= i
    &&& i + 4 <= b.len()
    &&& b[i] == 0x50
    &&& b[i + 1] == 0x4b
    &&& b[i + 2] == a
    &&& b[i + 3] == c
}

/// The value that a 32-bit field holds when the real one is in the ZIP64 extra field.
pub const DEFERRED: u64 = 0xFFFF_FFFF;

/// The three quantities of an entry that a ZIP64 extra field can widen.
pub struct Extents {
    pub uncompressed: nat,
    pub compressed: nat,
    pub offset: nat,
}

/// What the ZIP64 extra field with `size` bytes of data at `data` makes of `e`: each
/// deferred quantity takes the next eight bytes, as long as the field has them.
pub open spec fn widened(b: Seq<u8>, data: int, size: int, e: Extents) -> Extents {
    let end = data + size;
    let first = e.uncompressed == DEFERRED && data + 8 <= end;
    let p1 = if first { data + 8 } else { data };
    let second = e.compressed == DEFERRED && p1 + 8 <= end;
    let p2 = if second { p1 + 8 } else { p1 };
    let third = e.offset == DEFERRED && p2 + 8 <= end;
    Extents {
        uncompressed: if first { le64(b, data) } else { e.uncompressed },
        compressed: if second { le64(b, p1) } else { e.compressed },
        offset: if third { le64(b, p2) } else { e.offset },
    }
}

/// The eight-byte values that `widened` takes lie inside the buffer.
pub open spec fn widening_fits(b: Seq<u8>, data: int, size: int, e: Extents) -> bool {
    let end = data + size;
    let first = e.uncompressed == DEFERRED && data + 8 <= end;
    let p1 = if first { data + 8 } else { data };
    let second = e.compressed == DEFERRED && p1 + 8 <= end;
    let p2 = if second { p1 + 8 } else { p1 };
    let third = e.offset == DEFERRED && p2 + 8 <= end;
    &&& first ==> data + 8 <= b.len()
    &&& second ==> p1 + 8 <= b.len()
    &&& third ==> p2 + 8 <= b.len()
}

/// What the extra fields from `at` to `end` make of `e`.
pub open spec fn extended(b: Seq<u8>, at: int, end: int, e: Extents) -> Extents
    decreases left(at, end),
{
    if at + 4 > end {
        e
    } else {
        let size = le16(b, at + 2);
        let next = if le16(b, at) == 1 { widened(b, at + 4, size as int, e) } else { e };
        extended(b, at + 4 + size, end, next)
    }
}

/// Every ZIP64 value among the extra fields from `at` to `end` lies inside the buffer.
pub open spec fn extension_fits(b: Seq<u8>, at: int, end: int, e: Extents) -> bool
    decreases left(at, end),
{
    if at + 4 > end {
        true
    } else {
        let size = le16(b, at + 2);
        if le16(b, at) == 1 {
            &&& widening_fits(b, at + 4, size as int, e)
            &&& extension_fits(b, at + 4 + size, end, widened(b, at + 4, size as int, e))
        } else {
            extension_fits(b, at + 4 + size, end, e)
        }
    }
}

/// A whole fixed part with its signature, and the whole file name, stand at `at`.
pub open spec fn record_at(b: Seq<u8>, at: int) -> bool {
    &&& 0 <= at
    &&& at + 46 <= b.len()
    &&& signed(b, at, 0x01, 0x02)
    &&& at + 46 + le16(b, at + 28) <= b.len()
}

/// The length of the record at `at`: fixed part, name, extra fields and comment.
pub open spec fn record_len(b: Seq<u8>, at: int) -> nat {
    46 + le16(b, at + 28) + le16(b, at + 30) + le16(b, at + 32)
}

/// The quantities in the fixed part of the record at `at`.
pub open spec fn fixed_extents(b: Seq<u8>, at: int) -> Extents {
    Extents {
        uncompressed: le32(b, at + 24),
        compressed: le32(b, at + 20),
        offset: le32(b, at + 42),
    }
}

/// The extra fields of the record at `at` are consulted: there are some, they are whole,
/// and a quantity is deferred to them.
pub open spec fn consults_extra(b: Seq<u8>, at: int) -> bool {
    let e = fixed_extents(b, at);
    let end = at + 46 + le16(b, at + 28) + le16(b, at + 30);
    &&& le16(b, at + 30) > 0
    &&& end <= b.len()
    &&& e.uncompressed == DEFERRED || e.compressed == DEFERRED || e.offset == DEFERRED
}

/// The quantities of the record at `at`.
pub open spec fn extents_at(b: Seq<u8>, at: int) -> Extents {
    let name_end = at + 46 + le16(b, at + 28);
    if consults_extra(b, at) {
        extended(b, name_end, name_end + le16(b, at + 30), fixed_extents(b, at))
    } else {
        fixed_extents(b, at)
    }
}

/// Every ZIP64 value that the record at `at` refers to lies inside the buffer.
pub open spec fn record_fits(b: Seq<u8>, at: int) -> bool {
    let name_end = at + 46 + le16(b, at + 28);
    consults_extra(b, at) ==> extension_fits(
        b,
        name_end,
        name_end + le16(b, at + 30),
        fixed_extents(b, at),
    )
}

/// The text of a file name: UTF-8, backslashes as slashes; bytes that are no UTF-8 name
/// nothing.
pub open spec fn name_text(bytes: Seq<u8>) -> Seq<char> {
    if valid_utf8(bytes) {
        slashed(decode_utf8(bytes))
    } else {
        Seq::empty()
    }
}

/// The entry that the record at `at` describes.
pub open spec fn entry_at(b: Seq<u8>, at: int) -> EntryModel {
    let e = extents_at(b, at);
    EntryModel {
        filename: name_text(b.subrange(at + 46, at + 46 + le16(b, at + 28))),
        header_offset: e.offset,
        compressed_size: e.compressed,
        comp_method: le16(b, at + 10),
    }
}

/// The entries of the records that follow each other from `at` on, up to the first place
/// where no record stands.
pub open spec fn entries_from(b: Seq<u8>, at: int) -> Seq<EntryModel>
    decreases left(at, b.len() as int),
{
    if record_at(b, at) {
        seq![entry_at(b, at)] + entries_from(b, at + record_len(b, at))
    } else {
        Seq::empty()
    }
}

/// Every ZIP64 value that the records from `at` on refer to lies inside the buffer.
pub open spec fn records_fit(b: Seq<u8>, at: int) -> bool
    decreases left(at, b.len() as int),
{
    record_at(b, at) ==> record_fits(b, at) && records_fit(b, at + record_len(b, at))
}

/// Whether the four bytes `P`, `K`, `a`, `c` stand at `i`.
pub fn has_signature(b: &[u8], i: usize, a: u8, c: u8) -> (r: bool)
    ensures
        r == signed(b@, i as int, a, c),
{
    let n: usize = b.len();
    if n < 4 || i > n - 4 {
        return false;
    }
    b[i] == 0x50 && b[i + 1] == 0x4b && b[i + 2] == a && b[i + 3] == c
}

/// `std::str::from_utf8`: the text that the bytes encode, where they are valid UTF-8.
#[verifier::external_body]
fn utf8_text(bytes: &[u8]) -> (r: Option<&str>)
    ensures
        match r {
            Some(s) => valid_utf8(bytes@) && s@ == decode_utf8(bytes@),
            None => !valid_utf8(bytes@),
        },
{
    match std::str::from_utf8(bytes) {
        Ok(s) => Some(s),
        Err(_) => None,
    }
}

/// The name that the bytes spell.
fn file_name_of(bytes: &[u8]) -> (s: String)
    ensures
        s@ == name_text(bytes@),
{
    match utf8_text(bytes) {
        Some(s) => {
            let chars = slashed_chars(s);
            string_of(chars.as_slice())
        },
        None => String::new(),
    }
}

/// The deferred quantities that the ZIP64 field at `data` holds; `None` where one of its
/// values would lie outside the buffer.
fn widen(b: &[u8], data: usize, size: usize, sizes: (u64, u64, u64)) -> (r: Option<
    (u64, u64, u64),
>)
    requires
        data <= b@.len(),
        size <= 0xFFFF,
    ensures
        ({
            let e = Extents {
                uncompressed: sizes.0 as nat,
                compressed: sizes.1 as nat,
                offset: sizes.2 as nat,
            };
            match r {
                Some(t) => widening_fits(b@, data as int, size as int, e) && widened(
                    b@,
                    data as int,
                    size as int,
                    e,
                ) == (Extents {
                    uncompressed: t.0 as nat,
                    compressed: t.1 as nat,
                    offset: t.2 as nat,
                }),
                None => !widening_fits(b@, data as int, size as int, e),
            }
        }),
{
    let n: usize = b.len();
    let (mut uncompressed, mut compressed, mut offset) = sizes;
    let mut used: usize = 0;
    if uncompressed == DEFERRED && size >= 8 {
        if n - data < 8 {
            return None;
        }
        uncompressed = read_u64(b, data);
        used = 8;
    }
    if compressed == DEFERRED && size - used >= 8 {
        if n - data - used < 8 {
            return None;
        }
        compressed = read_u64(b, data + used);
        used += 8;
    }
    if offset == DEFERRED && size - used >= 8 {
        if n - data - used < 8 {
            return None;
        }
        offset = read_u64(b, data + used);
    }
    Some((uncompressed, compressed, offset))
}

/// What the extra fields from `start` to `end` make of the quantities; `None` where a
/// value would lie outside the buffer.
fn extend(b: &[u8], start: usize, end: usize, sizes: (u64, u64, u64)) -> (r: Option<
    (u64, u64, u64),
>)
    requires
        start <= end <= b@.len(),
    ensures
        ({
            let e = Extents {
                uncompressed: sizes.0 as nat,
                compressed: sizes.1 as nat,
                offset: sizes.2 as nat,
            };
            match r {
                Some(t) => extension_fits(b@, start as int, end as int, e) && extended(
                    b@,
                    start as int,
                    end as int,
                    e,
                ) == (Extents {
                    uncompressed: t.0 as nat,
                    compressed: t.1 as nat,
                    offset: t.2 as nat,
                }),
                None => !extension_fits(b@, start as int, end as int, e),
            }
        }),
{
    let ghost e0 = Extents {
        uncompressed: sizes.0 as nat,
        compressed: sizes.1 as nat,
        offset: sizes.2 as nat,
    };
    let mut at: usize = start;
    let mut now = sizes;
    let n: usize = b.len();
    while end - at >= 4
        invariant
            n == b@.len(),
            start <= at <= end <= n,
            e0 == (Extents {
                uncompressed: sizes.0 as nat,
                compressed: sizes.1 as nat,
                offset: sizes.2 as nat,
            }),
            ({
                let e = Extents {
                    uncompressed: now.0 as nat,
                    compressed: now.1 as nat,
                    offset: now.2 as nat,
                };
                &&& extended(b@, start as int, end as int, e0) == extended(
                    b@,
                    at as int,
                    end as int,
                    e,
                )
                &&& extension_fits(b@, start as int, end as int, e0) == extension_fits(
                    b@,
                    at as int,
                    end as int,
                    e,
                )
            }),
        decreases end - at,
    {
        let tag: u16 = read_u16(b, at);
        let size: usize = read_u16(b, at + 2) as usize;
        if tag == 1 {
            match widen(b, at + 4, size, now) {
                Some(t) => {
                    now = t;
                },
                None => {
                    return None;
                },
            }
        }
        if size > end - at - 4 {
            proof {
                let e = Extents {
                    uncompressed: now.0 as nat,
                    compressed: now.1 as nat,
                    offset: now.2 as nat,
                };
                assert(extended(b@, at + 4 + size, end as int, e) == e);
                assert(extension_fits(b@, at + 4 + size, end as int, e));
            }
            return Some(now);
        }
        at += 4 + size;
    }
    Some(now)
}

/// The entry that the record at `at` describes; `None` where a ZIP64 value would lie
/// outside the buffer.
fn read_record(b: &[u8], at: usize) -> (r: Option<CdEntry>)
    requires
        record_at(b@, at as int),
    ensures
        match r {
            Some(entry) => record_fits(b@, at as int) && entry@ == entry_at(b@, at as int),
            None => !record_fits(b@, at as int),
        },
{
    let n: usize = b.len();
    let comp_method: u16 = read_u16(b, at + 10);
    let compressed: u64 = read_u32(b, at + 20) as u64;
    let uncompressed: u64 = read_u32(b, at + 24) as u64;
    let name_len: usize = read_u16(b, at + 28) as usize;
    let extra_len: usize = read_u16(b, at + 30) as usize;
    let offset: u64 = read_u32(b, at + 42) as u64;
    let name_end: usize = at + 46 + name_len;
    let filename = file_name_of(vstd::slice::slice_subrange(b, at + 46, name_end));
    let mut sizes: (u64, u64, u64) = (uncompressed, compressed, offset);
    if extra_len > 0 && extra_len <= n - name_end && (uncompressed == DEFERRED || compressed
        == DEFERRED || offset == DEFERRED) {
        match extend(b, name_end, name_end + extra_len, sizes) {
            Some(t) => {
                sizes = t;
            },
            None => {
                return None;
            },
        }
    }
    Some(CdEntry { filename, header_offset: sizes.2, compressed_size: sizes.1, comp_method })
}

/// Read the records of a Central Directory. `None` where a ZIP64 extra field promises a
/// value that would lie beyond the end of the buffer.
pub fn checked_central_directory(cd_bytes: &[u8]) -> (r: Option<Vec<CdEntry>>)
    ensures
        match r {
            Some(entries) => records_fit(cd_bytes@, 0) && models(entries@) == entries_from(
                cd_bytes@,
                0,
            ),
            None => !records_fit(cd_bytes@, 0),
        },
{
    let mut entries: Vec<CdEntry> = Vec::new();
    let mut at: usize = 0;
    let n: usize = cd_bytes.len();
    assert(models(entries@) + entries_from(cd_bytes@, 0) =~= entries_from(cd_bytes@, 0));
    while n - at >= 46
        invariant
            n == cd_bytes@.len(),
            at <= n,
            models(entries@) + entries_from(cd_bytes@, at as int) == entries_from(cd_bytes@, 0),
            records_fit(cd_bytes@, at as int) == records_fit(cd_bytes@, 0),
        decreases n - at,
    {
        if !has_signature(cd_bytes, at, 0x01, 0x02) {
            assert(models(entries@) =~= entries_from(cd_bytes@, 0));
            return Some(entries);
        }
        let name_len: usize = read_u16(cd_bytes, at + 28) as usize;
        if name_len > n - at - 46 {
            assert(models(entries@) =~= entries_from(cd_bytes@, 0));
            return Some(entries);
        }
        let ghost old_entries = entries@;
        match read_record(cd_bytes, at) {
            Some(entry) => {
                entries.push(entry);
                assert(models(entries@) =~= models(old_entries).push(entry@));
            },
            None => {
                return None;
            },
        }
        let extra_len: usize = read_u16(cd_bytes, at + 30) as usize;
        let comment_len: usize = read_u16(cd_bytes, at + 32) as usize;
        let ghost next = at + record_len(cd_bytes@, at as int);
        assert(models(entries@) + entries_from(cd_bytes@, next) =~= models(old_entries)
            + entries_from(cd_bytes@, at as int));
        if extra_len + comment_len > n - at - 46 - name_len {
            assert(entries_from(cd_bytes@, next) =~= Seq::empty());
            assert(records_fit(cd_bytes@, next));
            assert(models(entries@) =~= entries_from(cd_bytes@, 0));
            return Some(entries);
        }
        at += 46 + name_len + extra_len + comment_len;
    }
    assert(models(entries@) =~= entries_from(cd_bytes@, 0));
    Some(entries)
}

/// Read the records of a Central Directory, up to the first place where no whole record
/// with its name stands.
pub fn parse_central_directory(cd_bytes: &[u8]) -> (entries: Vec<CdEntry>)
    requires
        records_fit(cd_bytes@, 0),
    ensures
        models(entries@) == entries_from(cd_bytes@, 0),
{
    match checked_central_directory(cd_bytes) {
        Some(entries) => entries,
        None => Vec::new(),
    }
}

/// The position of the last entry with the given name.
pub open spec fn last_named(entries: Seq<EntryModel>, name: Seq<char>) -> Option<int>
    decreases entries.len(),
{
    if entries.len() == 0 {
        None
    } else if entries.last().filename == name {
        Some(entries.len() - 1)
    } else {
        last_named(entries.drop_last(), name)
    }
}

/// `index` leads from each name among the entries to the last entry that bears it, and
/// from no other name anywhere.
pub open spec fn indexes(index: Map<Seq<char>, usize>, entries: Seq<EntryModel>) -> bool {
    forall|name: Seq<char>|
        match last_named(entries, name) {
            Some(i) => #[trigger] index.contains_key(name) && index[name] == i,
            None => !index.contains_key(name),
        }
}

/// Every position that the index leads to is one of an entry.
pub open spec fn leads_to_entries(index: Map<Seq<char>, usize>, entries: Seq<CdEntry>) -> bool {
    forall|name: Seq<char>| #[trigger]
        index.contains_key(name) ==> index[name] < entries.len()
}

/// The name of the gzip-encoded variant of an entry.
pub open spec fn gz_name(name: Seq<char>) -> Seq<char> {
    name + seq!['.', 'g', 'z']
}

/// Map each name to its entry, so that a lookup needs no scan. Of two entries with one
/// name the later one counts.
pub fn index_entries(entries: &Vec<CdEntry>) -> (index: StringHashMap<usize>)
    ensures
        indexes(index@, models(entries@)),
        leads_to_entries(index@, entries@),
{
    let mut index: StringHashMap<usize> = StringHashMap::new();
    let mut i: usize = 0;
    while i < entries.len()
        invariant
            i <= entries@.len(),
            indexes(index@, models(entries@.take(i as int))),
        decreases entries@.len() - i,
    {
        let ghost before = models(entries@.take(i as int));
        let ghost after = models(entries@.take(i + 1));
        let ghost old_index = index@;
        proof {
            assert(after.drop_last() =~= before);
            assert(after.last().filename == entries@[i as int].filename@);
        }
        index.insert(entries[i].filename.clone(), i);
        proof {
            assert forall|name: Seq<char>|
                match last_named(after, name) {
                    Some(k) => #[trigger] index@.contains_key(name) && index@[name] == k,
                    None => !index@.contains_key(name),
                } by {
                assert(old_index.contains_key(name) || !old_index.contains_key(name));
            }
        }
        i += 1;
    }
    assert(entries@.take(i as int) =~= entries@);
    proof {
        assert forall|name: Seq<char>| #[trigger] index@.contains_key(name) implies index@[name]
            < entries@.len() by {
            last_named_is_last(models(entries@), name);
        }
    }
    index
}

/// The name with `.gz` behind it.
pub fn with_gz(name: &str) -> (s: String)
    ensures
        s@ == gz_name(name@),
{
    let mut s = name.to_owned();
    s.push('.');
    s.push('g');
    s.push('z');
    assert(s@ =~= gz_name(name@));
    s
}

/// The entry with the given name or, where there is none, its `.gz` variant.
pub fn lookup_entry<'a>(
    entries: &'a [CdEntry],
    index: &StringHashMap<usize>,
    name: &str,
) -> (r: Option<&'a CdEntry>)
    requires
        index@.contains_key(name@) ==> index@[name@] < entries@.len(),
        index@.contains_key(gz_name(name@)) ==> index@[gz_name(name@)] < entries@.len(),
    ensures
        match r {
            Some(entry) => if index@.contains_key(name@) {
                *entry == entries@[index@[name@] as int]
            } else {
                index@.contains_key(gz_name(name@)) && *entry == entries@[index@[gz_name(
                    name@,
                )] as int]
            },
            None => !index@.contains_key(name@) && !index@.contains_key(gz_name(name@)),
        },
{
    match index.get(name) {
        Some(i) => Some(&entries[*i]),
        None => {
            let gz = with_gz(name);
            match index.get(gz.as_str()) {
                Some(i) => Some(&entries[*i]),
                None => None,
            }
        },
    }
}

/// What `last_named` finds bears the name, and no later entry does; where it finds
/// nothing, no entry does.
pub proof fn last_named_is_last(entries: Seq<EntryModel>, name: Seq<char>)
    ensures
        match last_named(entries, name) {
            Some(i) => 0 <= i < entries.len() && entries[i].filename == name && forall|j: int|
                i < j < entries.len() ==> (#[trigger] entries[j]).filename != name,
            None => forall|j: int|
                0 <= j < entries.len() ==> (#[trigger] entries[j]).filename != name,
        },
    decreases entries.len(),
{
    if entries.len() > 0 && entries.last().filename != name {
        last_named_is_last(entries.drop_last(), name);
        assert forall|j: int| 0 <= j < entries.len() - 1 implies #[trigger] entries[j]
            == entries.drop_last()[j] by {}
    }
}

/// No name in a parsed directory holds a backslash.
pub proof fn parsed_names_have_no_backslash(b: Seq<u8>, at: int, i: int, k: int)
    requires
        0 <= i < entries_from(b, at).len(),
        0 <= k < entries_from(b, at)[i].filename.len(),
    ensures
        entries_from(b, at)[i].filename[k] != '\\',
    decreases left(at, b.len() as int),
{
    if record_at(b, at) {
        if i > 0 {
            parsed_names_have_no_backslash(b, at + record_len(b, at), i - 1, k);
        }
    }
}

/// `r` stands in `b` at `off`.
pub open spec fn stands_at(b: Seq<u8>, r: Seq<u8>, off: int) -> bool {
    &&& 0 <= off
    &&& off + r.len() <= b.len()
    &&& forall|k: int| 0 <= k < r.len() ==> b[off + k] == #[trigger] r[k]
}

/// Numbers are read by their bytes, wherever these stand.
proof fn lemma_numbers_move(b: Seq<u8>, r: Seq<u8>, off: int, i: int)
    requires
        stands_at(b, r, off),
        0 <= i,
    ensures
        i + 2 <= r.len() ==> le16(b, off + i) == le16(r, i),
        i + 4 <= r.len() ==> le32(b, off + i) == le32(r, i),
        i + 8 <= r.len() ==> le64(b, off + i) == le64(r, i),
{
    if i + 2 <= r.len() {
        assert(b[off + i] == r[i]);
        assert(b[off + (i + 1)] == r[i + 1]);
    }
    if i + 4 <= r.len() {
        assert(b[off + (i + 2)] == r[i + 2]);
        assert(b[off + (i + 3)] == r[i + 3]);
    }
    if i + 8 <= r.len() {
        assert(b[off + (i + 4)] == r[i + 4]);
        assert(b[off + (i + 5)] == r[i + 5]);
        assert(b[off + (i + 6)] == r[i + 6]);
        assert(b[off + (i + 7)] == r[i + 7]);
    }
}

/// A ZIP64 field is read by its bytes, wherever these stand.
proof fn lemma_widening_moves(b: Seq<u8>, r: Seq<u8>, off: int, data: int, size: int, e: Extents)
    requires
        stands_at(b, r, off),
        0 <= data,
        widening_fits(r, data, size, e),
    ensures
        widened(b, off + data, size, e) == widened(r, data, size, e),
        widening_fits(b, off + data, size, e),
{
    let first = e.uncompressed == DEFERRED && data + 8 <= data + size;
    let p1 = if first { data + 8 } else { data };
    let second = e.compressed == DEFERRED && p1 + 8 <= data + size;
    let p2 = if second { p1 + 8 } else { p1 };
    lemma_numbers_move(b, r, off, data);
    lemma_numbers_move(b, r, off, p1);
    lemma_numbers_move(b, r, off, p2);
}

/// Extra fields are read by their bytes, wherever these stand.
proof fn lemma_extension_moves(b: Seq<u8>, r: Seq<u8>, off: int, at: int, end: int, e: Extents)
    requires
        stands_at(b, r, off),
        0 <= at,
        end <= r.len(),
        extension_fits(r, at, end, e),
    ensures
        extended(b, off + at, off + end, e) == extended(r, at, end, e),
        extension_fits(b, off + at, off + end, e),
    decreases left(at, end),
{
    if at + 4 <= end {
        let size = le16(r, at + 2) as int;
        let next = if le16(r, at) == 1 { widened(r, at + 4, size, e) } else { e };
        assert(le16(b, off + at) == le16(r, at)) by {
            lemma_numbers_move(b, r, off, at);
        }
        assert(le16(b, off + (at + 2)) == size) by {
            lemma_numbers_move(b, r, off, at + 2);
        }
        if le16(r, at) == 1 {
            lemma_widening_moves(b, r, off, at + 4, size, e);
        }
        lemma_extension_moves(b, r, off, at + 4 + size, end, next);
        assert(off + (at + 4 + size) == off + at + 4 + size);
        assert(off + (at + 4) == off + at + 4);
        assert(off + (at + 2) == off + at + 2);
    }
}

/// The bytes are one whole record, with all that it refers to.
pub open spec fn is_record(r: Seq<u8>) -> bool {
    &&& record_at(r, 0)
    &&& record_len(r, 0) == r.len()
    &&& record_fits(r, 0)
}

/// A whole record says the same wherever it stands.
pub proof fn record_says_the_same_anywhere(b: Seq<u8>, r: Seq<u8>, off: int)
    requires
        is_record(r),
        stands_at(b, r, off),
    ensures
        record_at(b, off),
        record_len(b, off) == r.len(),
        record_fits(b, off),
        entry_at(b, off) == entry_at(r, 0),
{
    lemma_numbers_move(b, r, off, 10);
    lemma_numbers_move(b, r, off, 20);
    lemma_numbers_move(b, r, off, 24);
    lemma_numbers_move(b, r, off, 28);
    lemma_numbers_move(b, r, off, 30);
    lemma_numbers_move(b, r, off, 32);
    lemma_numbers_move(b, r, off, 42);
    assert(b[off + 0] == r[0] && b[off + 1] == r[1] && b[off + 2] == r[2] && b[off + 3] == r[3]);
    let name = 46 + le16(r, 28) as int;
    assert(b.subrange(off + 46, off + name) =~= r.subrange(46, name));
    if consults_extra(r, 0) {
        lemma_extension_moves(
            b,
            r,
            off,
            name,
            name + le16(r, 30),
            fixed_extents(r, 0),
        );
    }
}

/// The records one after the other.
pub open spec fn directory_of(records: Seq<Seq<u8>>) -> Seq<u8>
    decreases records.len(),
{
    if records.len() == 0 {
        Seq::empty()
    } else {
        records[0] + directory_of(records.drop_first())
    }
}

/// What the records say, each one by itself.
pub open spec fn entries_of(records: Seq<Seq<u8>>) -> Seq<EntryModel> {
    records.map_values(|r: Seq<u8>| entry_at(r, 0))
}

/// Whole records are read completely and in order, one entry for each, whatever stands
/// behind them: what follows is read as if it stood alone.
pub proof fn whole_records_are_all_read(records: Seq<Seq<u8>>, rest: Seq<u8>)
    requires
        forall|i: int| 0 <= i < records.len() ==> is_record(#[trigger] records[i]),
        records_fit(rest, 0),
    ensures
        entries_from(directory_of(records) + rest, 0) == entries_of(records) + entries_from(
            rest,
            0,
        ),
        records_fit(directory_of(records) + rest, 0),
{
    let empty = Seq::<u8>::empty();
    lemma_records_behind(empty, records, rest);
    assert(empty + directory_of(records) + rest =~= directory_of(records) + rest);
}

/// The same behind bytes that were read already.
proof fn lemma_records_behind(done: Seq<u8>, records: Seq<Seq<u8>>, rest: Seq<u8>)
    requires
        forall|i: int| 0 <= i < records.len() ==> is_record(#[trigger] records[i]),
        records_fit(rest, 0),
    ensures
        entries_from(done + directory_of(records) + rest, done.len() as int) == entries_of(records)
            + entries_from(rest, 0),
        records_fit(done + directory_of(records) + rest, done.len() as int),
    decreases records.len(),
{
    let b = done + directory_of(records) + rest;
    let at = done.len() as int;
    if records.len() > 0 {
        let first = records[0];
        let more = records.drop_first();
        assert forall|i: int| 0 <= i < more.len() implies is_record(#[trigger] more[i]) by {
            assert(more[i] == records[i + 1]);
        }
        assert(is_record(first));
        assert forall|k: int| 0 <= k < first.len() implies b[at + k] == #[trigger] first[k] by {}
        record_says_the_same_anywhere(b, first, at);
        lemma_records_behind(done + first, more, rest);
        assert(b =~= (done + first) + directory_of(more) + rest);
        assert(entries_of(records) =~= seq![entry_at(first, 0)] + entries_of(more));
        assert(entries_of(records) + entries_from(rest, 0) =~= seq![entry_at(first, 0)] + (
        entries_of(more) + entries_from(rest, 0)));
    } else {
        assert(b =~= done + rest);
        lemma_directory_moves(done, rest, 0);
        assert(entries_of(records) + entries_from(rest, 0) =~= entries_from(rest, 0));
    }
}

/// The records at the end of a buffer are read as if they stood alone.
proof fn lemma_directory_moves(done: Seq<u8>, rest: Seq<u8>, at: int)
    requires
        0 <= at,
        records_fit(rest, at),
    ensures
        entries_from(done + rest, done.len() + at) == entries_from(rest, at),
        records_fit(done + rest, done.len() + at),
    decreases left(at, rest.len() as int),
{
    let b = done + rest;
    let off = done.len() as int;
    assert(stands_at(b, rest, off));
    if at + 46 <= rest.len() {
        lemma_numbers_move(b, rest, off, at + 28);
        assert(b[off + at] == rest[at] && b[off + at + 1] == rest[at + 1] && b[off + at + 2]
            == rest[at + 2] && b[off + at + 3] == rest[at + 3]);
    }
    assert(record_at(b, off + at) == record_at(rest, at));
    if record_at(rest, at) {
        lemma_record_moves(b, rest, off, at);
        lemma_directory_moves(done, rest, at + record_len(rest, at));
    }
}

/// A record at the end of a buffer is read as if it stood alone.
proof fn lemma_record_moves(b: Seq<u8>, rest: Seq<u8>, off: int, at: int)
    requires
        stands_at(b, rest, off),
        b.len() == off + rest.len(),
        0 <= at,
        record_at(rest, at),
        record_fits(rest, at),
    ensures
        record_len(b, off + at) == record_len(rest, at),
        record_fits(b, off + at),
        entry_at(b, off + at) == entry_at(rest, at),
{
    lemma_numbers_move(b, rest, off, at + 10);
    lemma_numbers_move(b, rest, off, at + 20);
    lemma_numbers_move(b, rest, off, at + 24);
    lemma_numbers_move(b, rest, off, at + 28);
    lemma_numbers_move(b, rest, off, at + 30);
    lemma_numbers_move(b, rest, off, at + 32);
    lemma_numbers_move(b, rest, off, at + 42);
    let name = at + 46 + le16(rest, at + 28) as int;
    assert(b.subrange(off + at + 46, off + name) =~= rest.subrange(at + 46, name));
    assert(fixed_extents(b, off + at) == fixed_extents(rest, at));
    assert(consults_extra(b, off + at) == consults_extra(rest, at));
    if consults_extra(rest, at) {
        lemma_extension_moves(
            b,
            rest,
            off,
            name,
            name + le16(rest, at + 30),
            fixed_extents(rest, at),
        );
    }
}

/// The fixed part of a record: its 46 bytes with the signature, and the lengths of the name,
/// the extra fields and the comment that follow.
pub open spec fn heads(fixed: Seq<u8>, name: Seq<u8>, extra: Seq<u8>, comment: Seq<u8>) -> bool {
    &&& fixed.len() == 46
    &&& fixed.take(4) == seq![0x50u8, 0x4bu8, 0x01u8, 0x02u8]
    &&& le16(fixed, 28) == name.len()
    &&& le16(fixed, 30) == extra.len()
    &&& le16(fixed, 32) == comment.len()
}

/// The parts of a record stand where they belong.
proof fn lemma_parts(fixed: Seq<u8>, name: Seq<u8>, extra: Seq<u8>, comment: Seq<u8>)
    requires
        heads(fixed, name, extra, comment),
    ensures
        ({
            let r = fixed + name + extra + comment;
            &&& record_at(r, 0)
            &&& record_len(r, 0) == r.len()
            &&& fixed_extents(r, 0) == fixed_extents(fixed, 0)
            &&& le16(r, 10) == le16(fixed, 10)
            &&& le16(r, 28) == name.len()
            &&& le16(r, 30) == extra.len()
            &&& r.subrange(46, (46 + name.len()) as int) == name
            &&& stands_at(r, extra, (46 + name.len()) as int)
        }),
{
    let r = fixed + name + extra + comment;
    assert(stands_at(r, fixed, 0));
    lemma_numbers_move(r, fixed, 0, 10);
    lemma_numbers_move(r, fixed, 0, 20);
    lemma_numbers_move(r, fixed, 0, 24);
    lemma_numbers_move(r, fixed, 0, 28);
    lemma_numbers_move(r, fixed, 0, 30);
    lemma_numbers_move(r, fixed, 0, 32);
    lemma_numbers_move(r, fixed, 0, 42);
    let four = fixed.take(4);
    assert(four[0] == r[0] && four[1] == r[1] && four[2] == r[2] && four[3] == r[3]);
    assert(r.subrange(46, (46 + name.len()) as int) =~= name);
}

/// A record without deferred quantities says what its fixed part holds: the method at byte
/// 10, the compressed size at byte 20 and the offset of the header at byte 42, whatever its
/// extra fields and its comment are; and its name is the text behind the fixed part, with
/// slashes for backslashes.
pub proof fn record_says_what_it_holds(
    fixed: Seq<u8>,
    name: Seq<u8>,
    extra: Seq<u8>,
    comment: Seq<u8>,
)
    requires
        heads(fixed, name, extra, comment),
        le32(fixed, 20) != 0xFFFF_FFFF,
        le32(fixed, 24) != 0xFFFF_FFFF,
        le32(fixed, 42) != 0xFFFF_FFFF,
    ensures
        ({
            let r = fixed + name + extra + comment;
            &&& is_record(r)
            &&& entry_at(r, 0).comp_method == le16(fixed, 10)
            &&& entry_at(r, 0).compressed_size == le32(fixed, 20)
            &&& entry_at(r, 0).header_offset == le32(fixed, 42)
            &&& valid_utf8(name) ==> entry_at(r, 0).filename == slashed(decode_utf8(name))
            &&& !valid_utf8(name) ==> entry_at(r, 0).filename.len() == 0
        }),
{
    lemma_parts(fixed, name, extra, comment);
}

/// Whole extra fields, none of them the ZIP64 field.
pub open spec fn passed_over(fields: Seq<u8>) -> bool
    decreases fields.len(),
{
    fields.len() == 0 || {
        &&& fields.len() >= 4 + le16(fields, 2)
        &&& le16(fields, 0) != 1
        &&& passed_over(fields.skip(4 + le16(fields, 2) as int))
    }
}

/// Extra fields of other kinds change nothing.
proof fn lemma_passed_over(b: Seq<u8>, fields: Seq<u8>, at: int, end: int, e: Extents)
    requires
        stands_at(b, fields, at),
        passed_over(fields),
        at + fields.len() <= end,
    ensures
        extended(b, at, end, e) == extended(b, at + fields.len(), end, e),
        extension_fits(b, at, end, e) == extension_fits(b, at + fields.len(), end, e),
    decreases fields.len(),
{
    if fields.len() > 0 {
        lemma_numbers_move(b, fields, at, 0);
        lemma_numbers_move(b, fields, at, 2);
        let n = 4 + le16(fields, 2) as int;
        let rest = fields.skip(n);
        assert forall|k: int| 0 <= k < rest.len() implies b[at + n + k] == #[trigger] rest[k] by {
            assert(rest[k] == fields[n + k]);
            assert(b[at + (n + k)] == fields[n + k]);
        }
        lemma_passed_over(b, rest, at + n, end, e);
        assert(at + fields.len() == at + n + rest.len());
    }
}

/// A quantity, deferred or not.
pub open spec fn deferred_bytes(deferred: bool, value: u64) -> Seq<u8> {
    if deferred {
        le64_bytes(value as nat)
    } else {
        Seq::empty()
    }
}

/// The values of a ZIP64 field: the uncompressed size first, followed by the compressed size
/// and the offset, each only where the field gives it.
pub open spec fn zip64_data(
    given: (bool, bool, bool),
    uncompressed: u64,
    compressed: u64,
    offset: u64,
) -> Seq<u8> {
    deferred_bytes(given.0, uncompressed) + deferred_bytes(given.1, compressed) + deferred_bytes(
        given.2,
        offset,
    )
}

/// A ZIP64 field gives deferred quantities only, one after the other, and leaves one out only
/// where fewer than eight bytes are left for it and for those behind it.
pub open spec fn gives(
    given: (bool, bool, bool),
    deferred: (bool, bool, bool),
    tail: Seq<u8>,
) -> bool {
    &&& given.0 ==> deferred.0
    &&& given.1 ==> deferred.1
    &&& given.2 ==> deferred.2
    &&& deferred.0 && !given.0 ==> !given.1 && !given.2
    &&& deferred.1 && !given.1 ==> !given.2
    &&& given != deferred ==> tail.len() < 8
}

/// A deferred quantity is read back from its bytes.
proof fn lemma_deferred(b: Seq<u8>, deferred: bool, value: u64, at: int)
    requires
        stands_at(b, deferred_bytes(deferred, value), at),
    ensures
        deferred ==> le64(b, at) == value && at + 8 <= b.len(),
        deferred_bytes(deferred, value).len() == (if deferred { 8int } else { 0 }),
{
    le64_roundtrip(value as nat);
    lemma_numbers_move(b, deferred_bytes(deferred, value), at, 0);
}

/// The quantities that are deferred.
spec fn deferred_in(e: Extents) -> (bool, bool, bool) {
    (e.uncompressed == DEFERRED, e.compressed == DEFERRED, e.offset == DEFERRED)
}

/// The extents with the given quantities filled in.
spec fn filled(
    e: Extents,
    given: (bool, bool, bool),
    uncompressed: u64,
    compressed: u64,
    offset: u64,
) -> Extents {
    Extents {
        uncompressed: if given.0 { uncompressed as nat } else { e.uncompressed },
        compressed: if given.1 { compressed as nat } else { e.compressed },
        offset: if given.2 { offset as nat } else { e.offset },
    }
}

/// The quantities of a ZIP64 field fill in the deferred ones.
proof fn lemma_widened(
    b: Seq<u8>,
    at: int,
    e: Extents,
    given: (bool, bool, bool),
    uncompressed: u64,
    compressed: u64,
    offset: u64,
    tail: Seq<u8>,
)
    requires
        gives(given, deferred_in(e), tail),
        stands_at(b, zip64_data(given, uncompressed, compressed, offset) + tail, at),
    ensures
        ({
            let size = (zip64_data(given, uncompressed, compressed, offset) + tail).len() as int;
            &&& widened(b, at, size, e) == filled(e, given, uncompressed, compressed, offset)
            &&& widening_fits(b, at, size, e)
        }),
{
    let first = deferred_bytes(given.0, uncompressed);
    let second = deferred_bytes(given.1, compressed);
    let third = deferred_bytes(given.2, offset);
    let data = first + second + third + tail;
    let p1 = at + first.len() as int;
    let p2 = p1 + second.len() as int;
    assert(stands_at(b, first, at)) by {
        assert forall|k: int| 0 <= k < first.len() implies b[at + k] == #[trigger] first[k] by {
            assert(data[k] == first[k]);
        }
    }
    assert(stands_at(b, second, p1)) by {
        assert forall|k: int| 0 <= k < second.len() implies b[p1 + k] == #[trigger] second[k] by {
            let i = first.len() + k;
            assert(data[i] == second[k]);
            assert(b[at + i] == data[i]);
        }
    }
    assert(stands_at(b, third, p2)) by {
        assert forall|k: int| 0 <= k < third.len() implies b[p2 + k] == #[trigger] third[k] by {
            let i = first.len() + second.len() + k;
            assert(data[i] == third[k]);
            assert(b[at + i] == data[i]);
        }
    }
    lemma_deferred(b, given.0, uncompressed, at);
    lemma_deferred(b, given.1, compressed, p1);
    lemma_deferred(b, given.2, offset, p2);
}

/// The ZIP64 field at `at` gives its quantities.
proof fn lemma_zip64_field(
    b: Seq<u8>,
    head: Seq<u8>,
    data: Seq<u8>,
    at: int,
    end: int,
    e: Extents,
    next: Extents,
)
    requires
        head.len() == 4,
        le16(head, 0) == 1,
        le16(head, 2) == data.len(),
        stands_at(b, head + data, at),
        at + 4 + data.len() <= end,
        widened(b, at + 4, data.len() as int, e) == next,
        widening_fits(b, at + 4, data.len() as int, e),
    ensures
        extended(b, at, end, e) == extended(b, at + 4 + data.len(), end, next),
        extension_fits(b, at, end, e) == extension_fits(b, at + 4 + data.len(), end, next),
{
    let field = head + data;
    assert(stands_at(field, head, 0));
    lemma_numbers_move(field, head, 0, 0);
    lemma_numbers_move(field, head, 0, 2);
    lemma_numbers_move(b, field, at, 0);
    lemma_numbers_move(b, field, at, 2);
}

/// A record whose quantities are deferred says what its ZIP64 field holds of them, whatever
/// other extra fields stand before and behind that: each deferred quantity that the field
/// gives is taken from it, and the others from the fixed part.
pub proof fn deferred_quantities_come_from_the_zip64_field(
    fixed: Seq<u8>,
    name: Seq<u8>,
    before: Seq<u8>,
    head: Seq<u8>,
    given: (bool, bool, bool),
    uncompressed: u64,
    compressed: u64,
    offset: u64,
    tail: Seq<u8>,
    behind: Seq<u8>,
    fragment: Seq<u8>,
    comment: Seq<u8>,
)
    requires
        ({
            let deferred = (
                le32(fixed, 24) == 0xFFFF_FFFF,
                le32(fixed, 20) == 0xFFFF_FFFF,
                le32(fixed, 42) == 0xFFFF_FFFF,
            );
            let data = zip64_data(given, uncompressed, compressed, offset) + tail;
            &&& deferred.0 || deferred.1 || deferred.2
            &&& gives(given, deferred, tail)
            &&& head.len() == 4
            &&& le16(head, 0) == 1
            &&& le16(head, 2) == data.len()
            &&& passed_over(before)
            &&& passed_over(behind)
            &&& fragment.len() < 4
            &&& heads(fixed, name, before + (head + data) + behind + fragment, comment)
        }),
    ensures
        ({
            let data = zip64_data(given, uncompressed, compressed, offset) + tail;
            let r = fixed + name + (before + (head + data) + behind + fragment) + comment;
            &&& is_record(r)
            &&& entry_at(r, 0).comp_method == le16(fixed, 10)
            &&& entry_at(r, 0).compressed_size == (if given.1 {
                compressed as nat
            } else {
                le32(fixed, 20)
            })
            &&& entry_at(r, 0).header_offset == (if given.2 {
                offset as nat
            } else {
                le32(fixed, 42)
            })
            &&& valid_utf8(name) ==> entry_at(r, 0).filename == slashed(decode_utf8(name))
            &&& !valid_utf8(name) ==> entry_at(r, 0).filename.len() == 0
        }),
{
    let e = fixed_extents(fixed, 0);
    let data = zip64_data(given, uncompressed, compressed, offset) + tail;
    let field = head + data;
    let extra = before + field + behind + fragment;
    let r = fixed + name + extra + comment;
    lemma_parts(fixed, name, extra, comment);
    let at = 46 + name.len() as int;
    let mid = at + before.len();
    let rest = mid + field.len();
    let end = at + extra.len();
    assert(stands_at(r, before, at)) by {
        assert forall|k: int| 0 <= k < before.len() implies r[at + k] == #[trigger] before[k] by {
            assert(extra[k] == before[k]);
        }
    }
    assert(stands_at(r, field, mid)) by {
        assert forall|k: int| 0 <= k < field.len() implies r[mid + k] == #[trigger] field[k] by {
            assert(extra[before.len() + k] == field[k]);
            assert(r[at + (before.len() + k)] == extra[before.len() + k]);
        }
    }
    assert(stands_at(r, behind, rest)) by {
        assert forall|k: int| 0 <= k < behind.len() implies r[rest + k] == #[trigger] behind[k] by {
            let i = before.len() + field.len() + k;
            assert(extra[i] == behind[k]);
            assert(r[at + i] == extra[i]);
        }
    }
    lemma_passed_over(r, before, at, end, e);
    let next = filled(e, given, uncompressed, compressed, offset);
    assert(stands_at(r, data, mid + 4)) by {
        assert forall|k: int| 0 <= k < data.len() implies r[mid + 4 + k] == #[trigger] data[k] by {
            assert(field[4 + k] == data[k]);
            assert(r[mid + (4 + k)] == field[4 + k]);
        }
    }
    lemma_widened(r, mid + 4, e, given, uncompressed, compressed, offset, tail);
    lemma_zip64_field(r, head, data, mid, end, e, next);
    assert(rest == mid + 4 + data.len());
    lemma_passed_over(r, behind, rest, end, next);
    assert(rest + behind.len() + fragment.len() == end);
    assert(consults_extra(r, 0));
}

/// A record whose quantities are deferred but that has no ZIP64 field says what its fixed
/// part holds.
pub proof fn deferred_quantities_stay_without_a_zip64_field(
    fixed: Seq<u8>,
    name: Seq<u8>,
    fields: Seq<u8>,
    fragment: Seq<u8>,
    comment: Seq<u8>,
)
    requires
        passed_over(fields),
        fragment.len() < 4,
        heads(fixed, name, fields + fragment, comment),
    ensures
        ({
            let r = fixed + name + (fields + fragment) + comment;
            &&& is_record(r)
            &&& entry_at(r, 0).comp_method == le16(fixed, 10)
            &&& entry_at(r, 0).compressed_size == le32(fixed, 20)
            &&& entry_at(r, 0).header_offset == le32(fixed, 42)
            &&& valid_utf8(name) ==> entry_at(r, 0).filename == slashed(decode_utf8(name))
            &&& !valid_utf8(name) ==> entry_at(r, 0).filename.len() == 0
        }),
{
    let e = fixed_extents(fixed, 0);
    let extra = fields + fragment;
    let r = fixed + name + extra + comment;
    lemma_parts(fixed, name, extra, comment);
    let at = 46 + name.len() as int;
    let end = at + extra.len();
    assert(stands_at(r, fields, at)) by {
        assert forall|k: int| 0 <= k < fields.len() implies r[at + k] == #[trigger] fields[k] by {
            assert(extra[k] == fields[k]);
        }
    }
    lemma_passed_over(r, fields, at, end, e);
}

/// A record at the end of the directory whose extra fields are cut short is an entry still,
/// the last one, with what its fixed part holds.
pub proof fn cut_extra_fields_are_not_consulted(fixed: Seq<u8>, name: Seq<u8>, some: Seq<u8>)
    requires
        fixed.len() == 46,
        fixed.take(4) == seq![0x50u8, 0x4bu8, 0x01u8, 0x02u8],
        le16(fixed, 28) == name.len(),
        some.len() < le16(fixed, 30),
    ensures
        ({
            let b = fixed + name + some;
            &&& entries_from(b, 0).len() == 1
            &&& entries_from(b, 0)[0].comp_method == le16(fixed, 10)
            &&& entries_from(b, 0)[0].compressed_size == le32(fixed, 20)
            &&& entries_from(b, 0)[0].header_offset == le32(fixed, 42)
            &&& valid_utf8(name) ==> entries_from(b, 0)[0].filename == slashed(decode_utf8(name))
            &&& !valid_utf8(name) ==> entries_from(b, 0)[0].filename.len() == 0
            &&& records_fit(b, 0)
        }),
{
    let b = fixed + name + some;
    assert(stands_at(b, fixed, 0));
    lemma_numbers_move(b, fixed, 0, 10);
    lemma_numbers_move(b, fixed, 0, 20);
    lemma_numbers_move(b, fixed, 0, 24);
    lemma_numbers_move(b, fixed, 0, 28);
    lemma_numbers_move(b, fixed, 0, 30);
    lemma_numbers_move(b, fixed, 0, 32);
    lemma_numbers_move(b, fixed, 0, 42);
    let four = fixed.take(4);
    assert(four[0] == b[0] && four[1] == b[1] && four[2] == b[2] && four[3] == b[3]);
    assert(b.subrange(46, (46 + name.len()) as int) =~= name);
    let next = record_len(b, 0) as int;
    assert(next > b.len());
    assert(entries_from(b, next) =~= Seq::empty());
    assert(records_fit(b, next));
}

/// A directory is refused where a ZIP64 field at its end promises a quantity that it has no
/// room for.
pub proof fn promised_quantity_has_to_be_there(
    fixed: Seq<u8>,
    name: Seq<u8>,
    head: Seq<u8>,
    some: Seq<u8>,
)
    requires
        fixed.len() == 46,
        fixed.take(4) == seq![0x50u8, 0x4bu8, 0x01u8, 0x02u8],
        le16(fixed, 28) == name.len(),
        le16(fixed, 30) == 4 + some.len(),
        le32(fixed, 24) == 0xFFFF_FFFF || le32(fixed, 20) == 0xFFFF_FFFF || le32(fixed, 42)
            == 0xFFFF_FFFF,
        head.len() == 4,
        le16(head, 0) == 1,
        some.len() < 8 <= le16(head, 2),
    ensures
        !records_fit(fixed + name + head + some, 0),
{
    let b = fixed + name + head + some;
    assert(stands_at(b, fixed, 0));
    lemma_numbers_move(b, fixed, 0, 20);
    lemma_numbers_move(b, fixed, 0, 24);
    lemma_numbers_move(b, fixed, 0, 28);
    lemma_numbers_move(b, fixed, 0, 30);
    lemma_numbers_move(b, fixed, 0, 42);
    let four = fixed.take(4);
    assert(four[0] == b[0] && four[1] == b[1] && four[2] == b[2] && four[3] == b[3]);
    let at = 46 + name.len() as int;
    assert(stands_at(b, head, at));
    lemma_numbers_move(b, head, at, 0);
    lemma_numbers_move(b, head, at, 2);
    let e = fixed_extents(b, 0);
    let size = le16(b, at + 2) as int;
    assert(!widening_fits(b, at + 4, size, e));
    assert(consults_extra(b, 0));
    assert(!extension_fits(b, at, at + 4 + some.len(), e));
}

/// What is shorter than a fixed part, bears no signature, or ends inside the name of its
/// record, is no entry, and nothing behind it is read.
pub proof fn what_is_no_record_ends_the_directory(b: Seq<u8>)
    requires
        b.len() < 46 || b.take(4) != seq![0x50u8, 0x4bu8, 0x01u8, 0x02u8] || b.len() < 46 + le16(
            b,
            28,
        ),
    ensures
        entries_from(b, 0).len() == 0,
{
    if b.len() >= 46 && signed(b, 0, 0x01, 0x02) {
        assert(b.take(4) =~= seq![0x50u8, 0x4bu8, 0x01u8, 0x02u8]);
    }
}

/// The variant of a name is the name with `.gz` behind it.
pub proof fn gz_variant_ends_in_gz(name: Seq<char>)
    ensures
        gz_name(name) == name + ".gz"@,
{
    reveal_strlit(".gz");
    assert(".gz"@ =~= seq!['.', 'g', 'z']);
}

/// Entries say what they hold, in their order.
pub proof fn entries_say_what_they_hold(entries: Seq<CdEntry>, i: int)
    requires
        0 <= i < entries.len(),
    ensures
        models(entries).len() == entries.len(),
        models(entries)[i].filename == entries[i].filename@,
        models(entries)[i].header_offset == entries[i].header_offset,
        models(entries)[i].compressed_size == entries[i].compressed_size,
        models(entries)[i].comp_method == entries[i].comp_method,
{
}

/// A lookup table leads from a name to the last entry that bears it, and from a name that no
/// entry bears nowhere.
pub proof fn last_entry_of_a_name_is_found(
    index: Map<Seq<char>, usize>,
    entries: Seq<EntryModel>,
    i: int,
    other: Seq<char>,
)
    requires
        indexes(index, entries),
        0 <= i < entries.len(),
        forall|j: int|
            i < j < entries.len() ==> (#[trigger] entries[j]).filename != entries[i].filename,
    ensures
        index.dom().contains(entries[i].filename) && index[entries[i].filename] == i,
        (forall|j: int| 0 <= j < entries.len() ==> (#[trigger] entries[j]).filename != other)
            ==> !index.dom().contains(other),
{
    let name = entries[i].filename;
    last_named_is_last(entries, name);
    last_named_is_last(entries, other);
    assert(index.contains_key(name) || !index.contains_key(name));
    assert(index.contains_key(other) || !index.contains_key(other));
    if let Some(k) = last_named(entries, name) {
        if k > i {
            assert(entries[k].filename != name);
        }
        if k < i {
            assert(entries[i].filename != name);
        }
    } else {
        assert(entries[i].filename != name);
    }
    if let Some(k) = last_named(entries, other) {
        assert(entries[k].filename == other);
    }
}

/// A record with a deferred quantity says what its extra fields make of its fixed part, from
/// the first of them to the last.
pub proof fn extra_fields_are_gone_through(
    fixed: Seq<u8>,
    name: Seq<u8>,
    extra: Seq<u8>,
    comment: Seq<u8>,
)
    requires
        heads(fixed, name, extra, comment),
        le32(fixed, 24) == 0xFFFF_FFFF || le32(fixed, 20) == 0xFFFF_FFFF || le32(fixed, 42)
            == 0xFFFF_FFFF,
    ensures
        ({
            let r = fixed + name + extra + comment;
            let e = Extents {
                uncompressed: le32(fixed, 24),
                compressed: le32(fixed, 20),
                offset: le32(fixed, 42),
            };
            let at = 46 + name.len() as int;
            let all = extended(r, at, at + extra.len(), e);
            &&& entry_at(r, 0).compressed_size == all.compressed
            &&& entry_at(r, 0).header_offset == all.offset
        }),
{
    lemma_parts(fixed, name, extra, comment);
}

/// Fewer than four bytes are no extra field.
pub proof fn fragment_is_no_field(b: Seq<u8>, at: int, end: int, e: Extents)
    requires
        end < at + 4,
    ensures
        extended(b, at, end, e) == e,
{
}

/// An extra field of another kind changes nothing.
pub proof fn other_fields_are_passed_over(
    b: Seq<u8>,
    head: Seq<u8>,
    data: Seq<u8>,
    at: int,
    end: int,
    e: Extents,
)
    requires
        head.len() == 4,
        le16(head, 0) != 1,
        le16(head, 2) == data.len(),
        stands_at(b, head + data, at),
        at + 4 + data.len() <= end,
    ensures
        extended(b, at, end, e) == extended(b, at + 4 + data.len(), end, e),
{
    let field = head + data;
    assert(stands_at(field, head, 0));
    lemma_numbers_move(field, head, 0, 0);
    lemma_numbers_move(field, head, 0, 2);
    lemma_numbers_move(b, field, at, 0);
    lemma_numbers_move(b, field, at, 2);
}

/// A ZIP64 field fills in the quantities that it gives, and the fields behind it go on from
/// there: a second ZIP64 field can give what the first one left out.
pub proof fn zip64_field_fills_in_what_it_gives(
    b: Seq<u8>,
    head: Seq<u8>,
    given: (bool, bool, bool),
    uncompressed: u64,
    compressed: u64,
    offset: u64,
    tail: Seq<u8>,
    at: int,
    end: int,
    e: Extents,
)
    requires
        gives(
            given,
            (
                e.uncompressed == 0xFFFF_FFFF,
                e.compressed == 0xFFFF_FFFF,
                e.offset == 0xFFFF_FFFF,
            ),
            tail,
        ),
        head.len() == 4,
        le16(head, 0) == 1,
        le16(head, 2) == (zip64_data(given, uncompressed, compressed, offset) + tail).len(),
        stands_at(b, head + (zip64_data(given, uncompressed, compressed, offset) + tail), at),
        at + 4 + le16(head, 2) <= end,
    ensures
        extended(b, at, end, e) == extended(
            b,
            at + 4 + le16(head, 2),
            end,
            Extents {
                uncompressed: if given.0 { uncompressed as nat } else { e.uncompressed },
                compressed: if given.1 { compressed as nat } else { e.compressed },
                offset: if given.2 { offset as nat } else { e.offset },
            },
        ),
{
    let data = zip64_data(given, uncompressed, compressed, offset) + tail;
    let field = head + data;
    assert(stands_at(b, data, at + 4)) by {
        assert forall|k: int| 0 <= k < data.len() implies b[at + 4 + k] == #[trigger] data[k] by {
            assert(field[4 + k] == data[k]);
            assert(b[at + (4 + k)] == field[4 + k]);
        }
    }
    lemma_widened(b, at + 4, e, given, uncompressed, compressed, offset, tail);
    lemma_zip64_field(
        b,
        head,
        data,
        at,
        end,
        e,
        filled(e, given, uncompressed, compressed, offset),
    );
}

} // verus!
