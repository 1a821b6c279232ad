//! The index, the first entry of an archive: for each file the MD5 of its path and the
//! offset of its Local File Header, sorted by the hash, so that a reader finds a file by a
//! binary search without the Central Directory.
use vstd::prelude::*;
use vstd::string::*;
use vstd::utf8::encode_utf8;

use crate::le::{
    le32, le32_bytes, le32_roundtrip, le64, le64_bytes, le64_roundtrip, push_u32, push_u64,
    read_u64,
};
use crate::text::{same_text, slashed, slashed_chars, string_of};

verus! {

/// The MD5 digest of the bytes.
pub uninterp spec fn md5_digest(bytes: Seq<u8>) -> Seq<u8>;

/// The CRC-32 of the bytes.
pub uninterp spec fn crc32_of(bytes: Seq<u8>) -> u32;

/// Calls `md5::compute`. The contract claims that the digest is a function of the bytes
/// alone.
#[verifier::external_body]
fn md5_of(bytes: &[u8]) -> (digest: [u8; 16])
    ensures
        digest@ == md5_digest(bytes@),
{
    md5::compute(bytes).0
}

/// Calls `crc32fast::hash`. The contract claims that the checksum is a function of the
/// bytes alone.
#[verifier::external_body]
fn checksum_of(bytes: &[u8]) -> (crc: u32)
    ensures
        crc == crc32_of(bytes@),
{
    crc32fast::hash(bytes)
}

/// An entry of the archive that was written.
pub struct WrittenEntry {
    pub name: String,
    /// The offset of its Local File Header.
    pub header_start: u64,
    /// The offset of its record in the Central Directory.
    pub central_header_start: u64,
}

/// One record of the index.
pub struct IndexRecord {
    pub md5hash: [u8; 16],
    pub offset: u64,
}

/// What an `IndexRecord` says.
pub struct RecordModel {
    pub hash: Seq<u8>,
    pub offset: u64,
}

impl View for IndexRecord {
    type V = RecordModel;

    open spec fn view(&self) -> RecordModel {
        RecordModel { hash: self.md5hash@, offset: self.offset }
    }
}

/// What the records say.
pub open spec fn record_models(records: Seq<IndexRecord>) -> Seq<RecordModel> {
    records.map_values(|record: IndexRecord| record@)
}

/// The hash under which a file is found: that of its path, with forward slashes.
pub open spec fn path_hash(name: Seq<char>) -> Seq<u8> {
    md5_digest(encode_utf8(slashed(name)))
}

/// The records of the files: one for each entry but the index itself, in the order of the
/// archive.
pub open spec fn file_records(entries: Seq<WrittenEntry>, index_name: Seq<char>) -> Seq<RecordModel>
    decreases entries.len(),
{
    if entries.len() == 0 {
        Seq::empty()
    } else if entries.last().name@ == index_name {
        file_records(entries.drop_last(), index_name)
    } else {
        file_records(entries.drop_last(), index_name).push(
            RecordModel {
                hash: path_hash(entries.last().name@),
                offset: entries.last().header_start,
            },
        )
    }
}

/// The offsets of the index entry's own headers: those of the last entry with its name, and
/// zero where there is none.
pub open spec fn index_headers(entries: Seq<WrittenEntry>, index_name: Seq<char>) -> (u64, u64)
    decreases entries.len(),
{
    if entries.len() == 0 {
        (0, 0)
    } else if entries.last().name@ == index_name {
        (entries.last().header_start, entries.last().central_header_start)
    } else {
        index_headers(entries.drop_last(), index_name)
    }
}

/// The record of a file.
fn record_for(name: &str, header_start: u64) -> (record: IndexRecord)
    ensures
        record@ == (RecordModel { hash: path_hash(name@), offset: header_start }),
{
    let path = string_of(slashed_chars(name).as_slice());
    IndexRecord { md5hash: md5_of(path.as_str().as_bytes()), offset: header_start }
}

/// The records of the files, and the offsets of the index entry's own headers.
pub fn collect_records(entries: &Vec<WrittenEntry>, index_name: &str) -> (r: (
    Vec<IndexRecord>,
    u64,
    u64,
))
    ensures
        record_models(r.0@) == file_records(entries@, index_name@),
        (r.1, r.2) == index_headers(entries@, index_name@),
{
    let mut records: Vec<IndexRecord> = Vec::new();
    let mut header_offset: u64 = 0;
    let mut central_header_start: u64 = 0;
    let mut i: usize = 0;
    assert(record_models(records@) =~= file_records(entries@.take(0), index_name@));
    while i < entries.len()
        invariant
            i <= entries@.len(),
            record_models(records@) == file_records(entries@.take(i as int), index_name@),
            (header_offset, central_header_start) == index_headers(
                entries@.take(i as int),
                index_name@,
            ),
        decreases entries@.len() - i,
    {
        proof {
            let upto = entries@.take(i + 1);
            assert(upto.drop_last() =~= entries@.take(i as int));
            assert(upto.last() == entries@[i as int]);
        }
        if same_text(entries[i].name.as_str(), index_name) {
            header_offset = entries[i].header_start;
            central_header_start = entries[i].central_header_start;
        } else {
            let ghost before = records@;
            let record = record_for(entries[i].name.as_str(), entries[i].header_start);
            records.push(record);
            assert(record_models(records@) =~= record_models(before).push(record@));
        }
        i += 1;
    }
    assert(entries@.take(i as int) =~= entries@);
    (records, header_offset, central_header_start)
}

/// By what a record is sorted: the two halves of its hash as little-endian numbers.
pub open spec fn sort_key(record: RecordModel) -> (nat, nat) {
    (le64(record.hash, 0), le64(record.hash, 8))
}

/// Whether the record at position `a` is sorted before that at position `b`. Records with
/// one key keep their order.
pub open spec fn precedes(keys: Seq<(nat, nat)>, a: int, b: int) -> bool {
    ||| keys[a].0 < keys[b].0
    ||| keys[a].0 == keys[b].0 && keys[a].1 < keys[b].1
    ||| keys[a] == keys[b] && a < b
}

/// `order` names each position from `from` up to `to` once, sorted.
pub open spec fn is_order(keys: Seq<(nat, nat)>, order: Seq<int>, from: int, to: int) -> bool {
    &&& order.len() == to - from
    &&& forall|i: int| 0 <= i < order.len() ==> from <= #[trigger] order[i] < to
    &&& forall|i: int, j: int|
        0 <= i < j < order.len() ==> precedes(keys, #[trigger] order[i], #[trigger] order[j])
    &&& forall|k: int| from <= k < to ==> #[trigger] order.contains(k)
}

/// The keys of the records.
pub open spec fn sort_keys(records: Seq<RecordModel>) -> Seq<(nat, nat)> {
    records.map_values(|record: RecordModel| sort_key(record))
}

/// The keys as natural numbers.
pub open spec fn key_models(keys: Seq<(u64, u64)>) -> Seq<(nat, nat)> {
    keys.map_values(|key: (u64, u64)| (key.0 as nat, key.1 as nat))
}

/// The records in the given order.
pub open spec fn placed(records: Seq<RecordModel>, order: Seq<int>) -> Seq<RecordModel> {
    order.map_values(|i: int| records[i])
}

/// The records, sorted.
pub open spec fn is_sorted_form(records: Seq<RecordModel>, sorted: Seq<RecordModel>) -> bool {
    exists|order: Seq<int>|
        is_order(sort_keys(records), order, 0, records.len() as int) && sorted == placed(
            records,
            order,
        )
}

/// The positions as integers.
pub open spec fn places(order: Seq<usize>) -> Seq<int> {
    order.map_values(|i: usize| i as int)
}

/// Whether the record at position `a` is sorted before that at position `b`.
fn comes_first(keys: &Vec<(u64, u64)>, a: usize, b: usize) -> (r: bool)
    requires
        a < keys@.len(),
        b < keys@.len(),
    ensures
        r == precedes(key_models(keys@), a as int, b as int),
{
    let x: (u64, u64) = keys[a];
    let y: (u64, u64) = keys[b];
    x.0 < y.0 || (x.0 == y.0 && (x.1 < y.1 || (x.1 == y.1 && a < b)))
}

/// What two sorted runs give when merged up to here: sorted, with the right positions, and
/// before all that is left.
spec fn is_merged(
    keys: Seq<(nat, nat)>,
    out: Seq<int>,
    left: Seq<int>,
    right: Seq<int>,
    i: int,
    j: int,
) -> bool {
    &&& out.len() == i + j
    &&& forall|k: int| 0 <= k < i ==> out.contains(#[trigger] left[k])
    &&& forall|k: int| 0 <= k < j ==> out.contains(#[trigger] right[k])
    &&& forall|m: int| 0 <= m < out.len() ==> left.contains(#[trigger] out[m]) || right.contains(out[m])
    &&& forall|m: int, n: int|
        0 <= m < n < out.len() ==> precedes(keys, #[trigger] out[m], #[trigger] out[n])
    &&& forall|m: int, k: int|
        0 <= m < out.len() && i <= k < left.len() ==> precedes(
            keys,
            #[trigger] out[m],
            #[trigger] left[k],
        )
    &&& forall|m: int, k: int|
        0 <= m < out.len() && j <= k < right.len() ==> precedes(
            keys,
            #[trigger] out[m],
            #[trigger] right[k],
        )
}

/// Taking the first of a run that comes before all of the other run keeps the merge.
proof fn lemma_take_left(
    keys: Seq<(nat, nat)>,
    out: Seq<int>,
    left: Seq<int>,
    right: Seq<int>,
    i: int,
    j: int,
)
    requires
        is_merged(keys, out, left, right, i, j),
        0 <= i < left.len(),
        0 <= j <= right.len(),
        forall|m: int, n: int|
            0 <= m < n < left.len() ==> precedes(keys, #[trigger] left[m], #[trigger] left[n]),
        forall|k: int| j <= k < right.len() ==> precedes(keys, left[i], #[trigger] right[k]),
    ensures
        is_merged(keys, out.push(left[i]), left, right, i + 1, j),
{
    let next = out.push(left[i]);
    assert forall|x: int| out.contains(x) implies #[trigger] next.contains(x) by {
        let m = choose|m: int| 0 <= m < out.len() && out[m] == x;
        assert(next[m] == x);
    }
    assert(next[out.len() as int] == left[i]);
    assert forall|m: int| 0 <= m < next.len() implies left.contains(#[trigger] next[m])
        || right.contains(next[m]) by {
        if m < out.len() {
            assert(next[m] == out[m]);
        }
    }
}

/// The same for the other run.
proof fn lemma_take_right(
    keys: Seq<(nat, nat)>,
    out: Seq<int>,
    left: Seq<int>,
    right: Seq<int>,
    i: int,
    j: int,
)
    requires
        is_merged(keys, out, left, right, i, j),
        0 <= i <= left.len(),
        0 <= j < right.len(),
        forall|m: int, n: int|
            0 <= m < n < right.len() ==> precedes(keys, #[trigger] right[m], #[trigger] right[n]),
        forall|k: int| i <= k < left.len() ==> precedes(keys, right[j], #[trigger] left[k]),
    ensures
        is_merged(keys, out.push(right[j]), left, right, i, j + 1),
{
    let next = out.push(right[j]);
    assert forall|x: int| out.contains(x) implies #[trigger] next.contains(x) by {
        let m = choose|m: int| 0 <= m < out.len() && out[m] == x;
        assert(next[m] == x);
    }
    assert(next[out.len() as int] == right[j]);
    assert forall|m: int| 0 <= m < next.len() implies left.contains(#[trigger] next[m])
        || right.contains(next[m]) by {
        if m < out.len() {
            assert(next[m] == out[m]);
        }
    }
}

/// The two runs, merged.
fn merge(
    keys: &Vec<(u64, u64)>,
    left: &Vec<usize>,
    right: &Vec<usize>,
    Ghost(from): Ghost<int>,
    Ghost(mid): Ghost<int>,
    Ghost(to): Ghost<int>,
) -> (r: Vec<usize>)
    requires
        0 <= from <= mid <= to <= keys@.len(),
        is_order(key_models(keys@), places(left@), from, mid),
        is_order(key_models(keys@), places(right@), mid, to),
    ensures
        is_order(key_models(keys@), places(r@), from, to),
{
    let ghost models = key_models(keys@);
    let ghost ls = places(left@);
    let ghost rs = places(right@);
    let mut r: Vec<usize> = Vec::new();
    let mut i: usize = 0;
    let mut j: usize = 0;
    while i < left.len() || j < right.len()
        invariant
            0 <= from <= mid <= to <= keys@.len(),
            models == key_models(keys@),
            ls == places(left@),
            rs == places(right@),
            is_order(models, ls, from, mid),
            is_order(models, rs, mid, to),
            i <= left@.len(),
            j <= right@.len(),
            is_merged(models, places(r@), ls, rs, i as int, j as int),
        decreases (left@.len() - i) + (right@.len() - j),
    {
        let ghost before = r@;
        let take_left = if i >= left.len() {
            false
        } else if j >= right.len() {
            true
        } else {
            assert(ls[i as int] < to && rs[j as int] < to);
            comes_first(keys, left[i], right[j])
        };
        if take_left {
            proof {
                assert(ls[i as int] == left@[i as int]);
                assert forall|k: int| j <= k < rs.len() implies precedes(
                    models,
                    ls[i as int],
                    #[trigger] rs[k],
                ) by {
                    if k > j {
                        assert(precedes(models, rs[j as int], rs[k]));
                    }
                }
                lemma_take_left(models, places(before), ls, rs, i as int, j as int);
            }
            r.push(left[i]);
            assert(places(r@) =~= places(before).push(ls[i as int]));
            i += 1;
        } else {
            proof {
                assert(rs[j as int] == right@[j as int]);
                assert forall|k: int| i <= k < ls.len() implies precedes(
                    models,
                    rs[j as int],
                    #[trigger] ls[k],
                ) by {
                    assert(precedes(models, rs[j as int], ls[i as int]));
                    if k > i {
                        assert(precedes(models, ls[i as int], ls[k]));
                    }
                }
                lemma_take_right(models, places(before), ls, rs, i as int, j as int);
            }
            r.push(right[j]);
            assert(places(r@) =~= places(before).push(rs[j as int]));
            j += 1;
        }
    }
    proof {
        let out = places(r@);
        assert forall|k: int| from <= k < to implies #[trigger] out.contains(k) by {
            if k < mid {
                assert(ls.contains(k));
                let m = choose|m: int| 0 <= m < ls.len() && ls[m] == k;
                assert(out.contains(ls[m]));
            } else {
                assert(rs.contains(k));
                let m = choose|m: int| 0 <= m < rs.len() && rs[m] == k;
                assert(out.contains(rs[m]));
            }
        }
        assert forall|m: int| 0 <= m < out.len() implies from <= #[trigger] out[m] < to by {
            if ls.contains(out[m]) {
                let k = choose|k: int| 0 <= k < ls.len() && ls[k] == out[m];
                assert(ls[k] == out[m]);
            } else {
                let k = choose|k: int| 0 <= k < rs.len() && rs[k] == out[m];
                assert(rs[k] == out[m]);
            }
        }
    }
    r
}

/// The positions from `from` up to `to`, sorted.
fn sorted_order(keys: &Vec<(u64, u64)>, from: usize, to: usize) -> (r: Vec<usize>)
    requires
        from <= to <= keys@.len(),
    ensures
        is_order(key_models(keys@), places(r@), from as int, to as int),
    decreases to - from,
{
    let mut r: Vec<usize> = Vec::new();
    if to - from == 0 {
        r
    } else if to - from == 1 {
        r.push(from);
        assert(places(r@)[0] == from);
        r
    } else {
        let mid: usize = from + (to - from) / 2;
        let left = sorted_order(keys, from, mid);
        let right = sorted_order(keys, mid, to);
        merge(keys, &left, &right, Ghost(from as int), Ghost(mid as int), Ghost(to as int))
    }
}

/// The index: for each record its hash and its offset.
pub open spec fn index_bytes(records: Seq<RecordModel>) -> Seq<u8>
    decreases records.len(),
{
    if records.len() == 0 {
        Seq::empty()
    } else {
        index_bytes(records.drop_last()) + records.last().hash + le64_bytes(
            records.last().offset as nat,
        )
    }
}

/// The keys of the records.
fn keys_of(records: &Vec<IndexRecord>) -> (keys: Vec<(u64, u64)>)
    ensures
        key_models(keys@) == sort_keys(record_models(records@)),
{
    let mut keys: Vec<(u64, u64)> = Vec::new();
    let mut i: usize = 0;
    while i < records.len()
        invariant
            i <= records@.len(),
            key_models(keys@) =~= sort_keys(record_models(records@)).take(i as int),
        decreases records@.len() - i,
    {
        let ghost before = keys@;
        let hash = records[i].md5hash.as_slice();
        let key: (u64, u64) = (read_u64(hash, 0), read_u64(hash, 8));
        keys.push(key);
        proof {
            assert(record_models(records@)[i as int].hash == records@[i as int].md5hash@);
            assert(key_models(keys@) =~= key_models(before).push((key.0 as nat, key.1 as nat)));
        }
        i += 1;
    }
    keys
}

/// Append the bytes of a hash.
fn push_hash(out: &mut Vec<u8>, hash: &[u8; 16])
    ensures
        final(out)@ == old(out)@ + hash@,
{
    let mut k: usize = 0;
    while k < 16
        invariant
            k <= 16,
            out@ =~= old(out)@ + hash@.take(k as int),
        decreases 16 - k,
    {
        out.push(hash[k]);
        k += 1;
    }
    assert(hash@.take(16) =~= hash@);
}

/// The index over the given records, sorted by hash. Which of two records with one hash
/// comes first, their order decides.
pub fn build_index(records: &Vec<IndexRecord>) -> (bytes: Vec<u8>)
    ensures
        exists|sorted: Seq<RecordModel>| #[trigger]
            is_sorted_form(record_models(records@), sorted) && bytes@ == index_bytes(sorted),
        bytes@.len() == index_len(records@.len()),
{
    let keys = keys_of(records);
    let ghost models = record_models(records@);
    let order = sorted_order(&keys, 0, keys.len());
    let ghost sorted = placed(models, places(order@));
    assert(keys@.len() == key_models(keys@).len());
    assert(is_sorted_form(models, sorted));
    let mut bytes: Vec<u8> = Vec::new();
    let mut i: usize = 0;
    assert(bytes@ =~= index_bytes(sorted.take(0)));
    while i < order.len()
        invariant
            i <= order@.len(),
            models == record_models(records@),
            sorted == placed(models, places(order@)),
            is_order(sort_keys(models), places(order@), 0, models.len() as int),
            bytes@ == index_bytes(sorted.take(i as int)),
        decreases order@.len() - i,
    {
        proof {
            let upto = sorted.take(i + 1);
            assert(upto.drop_last() =~= sorted.take(i as int));
            assert(0 <= places(order@)[i as int] < models.len());
            assert(upto.last() == models[order@[i as int] as int]);
        }
        let at: usize = order[i];
        push_hash(&mut bytes, &records[at].md5hash);
        push_u64(&mut bytes, records[at].offset);
        i += 1;
    }
    assert(sorted.take(i as int) =~= sorted);
    proof {
        assert forall|k: int| 0 <= k < sorted.len() implies (#[trigger] sorted[k]).hash.len()
            == 16 by {
            let at = places(order@)[k];
            assert(sorted[k] == models[at]);
            assert(models[at].hash == records@[at].md5hash@);
        }
        index_fills_placeholder(sorted);
    }
    bytes
}

/// How long the index over `count` files is.
pub open spec fn index_len(count: nat) -> nat {
    count * 24
}

/// Room for the index over `count` files.
pub fn placeholder(count: usize) -> (bytes: Vec<u8>)
    requires
        index_len(count as nat) <= usize::MAX,
    ensures
        bytes@ == Seq::new(index_len(count as nat), |i: int| 0u8),
{
    let len: usize = count * 24;
    let mut bytes: Vec<u8> = Vec::new();
    let mut i: usize = 0;
    while i < len
        invariant
            i <= len,
            bytes@ =~= Seq::new(i as nat, |k: int| 0u8),
        decreases len - i,
    {
        bytes.push(0);
        i += 1;
    }
    bytes
}

/// Bytes to write over those of the archive at an offset.
pub struct Patch {
    pub at: u64,
    pub bytes: Vec<u8>,
}

/// The patches that put the index with the checksum `crc` into its place: its bytes, and
/// the checksum in the entry's Local File Header and in its record in the Central Directory.
pub fn patches_with(
    index: Vec<u8>,
    crc: u32,
    payload_offset: u64,
    header_offset: u64,
    central_header_start: u64,
) -> (r: (Patch, Patch, Patch))
    requires
        header_offset + 14 <= u64::MAX,
        central_header_start + 16 <= u64::MAX,
    ensures
        r.0.at == payload_offset && r.0.bytes@ == index@,
        r.1.at == header_offset + 14 && r.1.bytes@ == le32_bytes(crc as nat),
        r.2.at == central_header_start + 16 && r.2.bytes@ == le32_bytes(crc as nat),
{
    let mut local: Vec<u8> = Vec::new();
    push_u32(&mut local, crc);
    let mut central: Vec<u8> = Vec::new();
    push_u32(&mut central, crc);
    (
        Patch { at: payload_offset, bytes: index },
        Patch { at: header_offset + 14, bytes: local },
        Patch { at: central_header_start + 16, bytes: central },
    )
}

/// The patches that put the index into its place, with its CRC-32.
pub fn index_patches(
    index: Vec<u8>,
    payload_offset: u64,
    header_offset: u64,
    central_header_start: u64,
) -> (r: (Patch, Patch, Patch))
    requires
        header_offset + 14 <= u64::MAX,
        central_header_start + 16 <= u64::MAX,
    ensures
        r.0.at == payload_offset && r.0.bytes@ == index@,
        r.1.at == header_offset + 14 && r.1.bytes@ == le32_bytes(crc32_of(index@) as nat),
        r.2.at == central_header_start + 16 && r.2.bytes@ == le32_bytes(crc32_of(index@) as nat),
{
    let crc: u32 = checksum_of(index.as_slice());
    patches_with(index, crc, payload_offset, header_offset, central_header_start)
}

/// There is one sorted order only.
pub proof fn order_is_unique(keys: Seq<(nat, nat)>, a: Seq<int>, b: Seq<int>)
    requires
        is_order(keys, a, 0, keys.len() as int),
        is_order(keys, b, 0, keys.len() as int),
    ensures
        a == b,
{
    assert forall|i: int| 0 <= i < a.len() implies #[trigger] a[i] == b[i] by {
        lemma_same_place(keys, a, b, i);
    }
    assert(a =~= b);
}

/// Two sorted orders have the same position at place `i`.
proof fn lemma_same_place(keys: Seq<(nat, nat)>, a: Seq<int>, b: Seq<int>, i: int)
    requires
        is_order(keys, a, 0, keys.len() as int),
        is_order(keys, b, 0, keys.len() as int),
        0 <= i < a.len(),
    ensures
        a[i] == b[i],
    decreases i,
{
    assert forall|k: int| 0 <= k < i implies #[trigger] a[k] == b[k] by {
        lemma_same_place(keys, a, b, k);
    }
    assert(b.contains(a[i]) && a.contains(b[i]));
    let m = choose|m: int| 0 <= m < b.len() && b[m] == a[i];
    let n = choose|n: int| 0 <= n < a.len() && a[n] == b[i];
    if m < i {
        assert(a[m] == b[m]);
        assert(precedes(keys, a[m], a[i]));
    }
    if n < i {
        assert(a[n] == b[n]);
        assert(precedes(keys, b[n], b[i]));
    }
    if m > i && n > i {
        assert(precedes(keys, b[i], b[m]));
        assert(precedes(keys, a[i], a[n]));
    }
}

/// The sorted form of records is one only, so that the index over them is.
pub proof fn sorted_form_is_unique(
    records: Seq<RecordModel>,
    a: Seq<RecordModel>,
    b: Seq<RecordModel>,
)
    requires
        is_sorted_form(records, a),
        is_sorted_form(records, b),
    ensures
        a == b,
{
    let n = records.len() as int;
    let p = choose|p: Seq<int>| is_order(sort_keys(records), p, 0, n) && a == placed(records, p);
    let q = choose|q: Seq<int>| is_order(sort_keys(records), q, 0, n) && b == placed(records, q);
    order_is_unique(sort_keys(records), p, q);
}

/// No two neighbours, nor any two records, of the index are out of order.
pub proof fn index_is_sorted(records: Seq<RecordModel>, sorted: Seq<RecordModel>, i: int, j: int)
    requires
        is_sorted_form(records, sorted),
        0 <= i < j < sorted.len(),
    ensures
        sort_key(sorted[i]).0 < sort_key(sorted[j]).0 || (sort_key(sorted[i]).0 == sort_key(
            sorted[j],
        ).0 && sort_key(sorted[i]).1 <= sort_key(sorted[j]).1),
{
    let n = records.len() as int;
    let p = choose|p: Seq<int>|
        is_order(sort_keys(records), p, 0, n) && sorted == placed(records, p);
    assert(precedes(sort_keys(records), p[i], p[j]));
}

/// Every record is in the index, and there are no others: sorting neither loses nor makes
/// any.
pub proof fn sorting_keeps_records(
    records: Seq<RecordModel>,
    sorted: Seq<RecordModel>,
    record: RecordModel,
)
    requires
        is_sorted_form(records, sorted),
    ensures
        sorted.len() == records.len(),
        sorted.contains(record) <==> records.contains(record),
{
    let n = records.len() as int;
    let p = choose|p: Seq<int>|
        is_order(sort_keys(records), p, 0, n) && sorted == placed(records, p);
    if sorted.contains(record) {
        let i = choose|i: int| 0 <= i < sorted.len() && sorted[i] == record;
        assert(0 <= p[i] < n);
        assert(records[p[i]] == record);
    }
    if records.contains(record) {
        let k = choose|k: int| 0 <= k < records.len() && records[k] == record;
        assert(p.contains(k));
        let i = choose|i: int| 0 <= i < p.len() && p[i] == k;
        assert(sorted[i] == record);
    }
}

/// Every file of the archive has its record.
pub proof fn every_file_has_a_record(
    entries: Seq<WrittenEntry>,
    index_name: Seq<char>,
    i: int,
)
    requires
        0 <= i < entries.len(),
        entries[i].name@ != index_name,
    ensures
        file_records(entries, index_name).contains(
            RecordModel { hash: path_hash(entries[i].name@), offset: entries[i].header_start },
        ),
    decreases entries.len(),
{
    let all = file_records(entries, index_name);
    if i == entries.len() - 1 {
        assert(all[all.len() - 1] == all.last());
    } else {
        every_file_has_a_record(entries.drop_last(), index_name, i);
        let some = file_records(entries.drop_last(), index_name);
        let wanted = RecordModel {
            hash: path_hash(entries[i].name@),
            offset: entries[i].header_start,
        };
        let j = choose|j: int| 0 <= j < some.len() && some[j] == wanted;
        assert(all[j] == wanted);
    }
}

/// The index over records with full hashes fills the room that was left for it.
pub proof fn index_fills_placeholder(records: Seq<RecordModel>)
    requires
        forall|i: int| 0 <= i < records.len() ==> (#[trigger] records[i]).hash.len() == 16,
    ensures
        index_bytes(records).len() == index_len(records.len()),
    decreases records.len(),
{
    if records.len() > 0 {
        let before = records.drop_last();
        assert forall|i: int| 0 <= i < before.len() implies (#[trigger] before[i]).hash.len()
            == 16 by {
            assert(before[i] == records[i]);
        }
        index_fills_placeholder(before);
        assert(records.last() == records[records.len() - 1]);
    }
}

/// Reading the index back gives each record.
pub proof fn index_reads_back(records: Seq<RecordModel>, i: int)
    requires
        forall|k: int| 0 <= k < records.len() ==> (#[trigger] records[k]).hash.len() == 16,
        0 <= i < records.len(),
    ensures
        24 * i + 24 <= index_bytes(records).len(),
        index_bytes(records).subrange(24 * i, 24 * i + 16) == records[i].hash,
        le64(index_bytes(records), 24 * i + 16) == records[i].offset,
    decreases records.len(),
{
    let before = records.drop_last();
    assert forall|k: int| 0 <= k < before.len() implies (#[trigger] before[k]).hash.len()
        == 16 by {
        assert(before[k] == records[k]);
    }
    index_fills_placeholder(before);
    index_fills_placeholder(records);
    let head = index_bytes(before);
    let all = index_bytes(records);
    let last = records[records.len() - 1];
    assert(last == records.last() && last.hash.len() == 16);
    if i == records.len() - 1 {
        assert(all.subrange(24 * i, 24 * i + 16) =~= last.hash);
        le64_roundtrip(last.offset as nat);
        let tail = le64_bytes(last.offset as nat);
        assert(forall|k: int| 0 <= k < 8 ==> all[24 * i + 16 + k] == #[trigger] tail[k]);
        assert(le64(all, 24 * i + 16) == le64(tail, 0)) by {
            assert(all.subrange(24 * i + 16, 24 * i + 24) =~= tail);
            assert(tail[0] == all[24 * i + 16] && tail[1] == all[24 * i + 17] && tail[2] == all[24
                * i + 18] && tail[3] == all[24 * i + 19] && tail[4] == all[24 * i + 20] && tail[5]
                == all[24 * i + 21] && tail[6] == all[24 * i + 22] && tail[7] == all[24 * i + 23]);
        }
    } else {
        index_reads_back(before, i);
        assert(before[i] == records[i]);
        assert(forall|k: int| 0 <= k < head.len() ==> all[k] == #[trigger] head[k]);
        assert(all.subrange(24 * i, 24 * i + 16) =~= head.subrange(24 * i, 24 * i + 16));
        assert(head[24 * i + 16] == all[24 * i + 16] && head[24 * i + 17] == all[24 * i + 17]
            && head[24 * i + 18] == all[24 * i + 18] && head[24 * i + 19] == all[24 * i + 19]
            && head[24 * i + 20] == all[24 * i + 20] && head[24 * i + 21] == all[24 * i + 21]
            && head[24 * i + 22] == all[24 * i + 22] && head[24 * i + 23] == all[24 * i + 23]);
    }
}

/// Every file of the archive is found in the index: some row of it holds the hash of the
/// file's path and the offset of its header.
pub proof fn every_file_is_in_the_index(
    entries: Seq<WrittenEntry>,
    index_name: Seq<char>,
    sorted: Seq<RecordModel>,
    i: int,
)
    requires
        is_sorted_form(file_records(entries, index_name), sorted),
        forall|k: int| 0 <= k < sorted.len() ==> (#[trigger] sorted[k]).hash.len() == 16,
        0 <= i < entries.len(),
        entries[i].name@ != index_name,
    ensures
        exists|row: int|
            0 <= row < sorted.len() && #[trigger] index_bytes(sorted).subrange(
                24 * row,
                24 * row + 16,
            ) == path_hash(entries[i].name@) && le64(index_bytes(sorted), 24 * row + 16)
                == entries[i].header_start,
{
    let record = RecordModel {
        hash: path_hash(entries[i].name@),
        offset: entries[i].header_start,
    };
    every_file_has_a_record(entries, index_name, i);
    sorting_keeps_records(file_records(entries, index_name), sorted, record);
    let row = choose|row: int| 0 <= row < sorted.len() && sorted[row] == record;
    index_reads_back(sorted, row);
    assert(index_bytes(sorted).subrange(24 * row, 24 * row + 16) == record.hash);
}

/// A file is found under the hash of its path, whichever way its slashes lean; without
/// backslashes that is the digest of the bytes of the path.
pub proof fn hash_is_that_of_the_slashed_path(name: Seq<char>)
    ensures
        path_hash(slashed(name)) == path_hash(name),
        !name.contains('\\') ==> path_hash(name) == md5_digest(encode_utf8(name)),
{
    assert(slashed(slashed(name)) =~= slashed(name));
    if !name.contains('\\') {
        assert forall|i: int| 0 <= i < name.len() implies name[i] != '\\' by {
            if name[i] == '\\' {
                assert(name.contains('\\'));
            }
        }
        assert(slashed(name) =~= name);
    }
}

/// Records are made one after the other.
pub proof fn records_are_made_in_turn(
    first: Seq<WrittenEntry>,
    second: Seq<WrittenEntry>,
    index_name: Seq<char>,
)
    ensures
        file_records(first + second, index_name) == file_records(first, index_name)
            + file_records(second, index_name),
    decreases second.len(),
{
    let all = first + second;
    let before = file_records(first, index_name);
    if second.len() == 0 {
        assert(all =~= first);
        assert(before + file_records(second, index_name) =~= before);
    } else {
        records_are_made_in_turn(first, second.drop_last(), index_name);
        assert(all.drop_last() =~= first + second.drop_last());
        assert(all.last() == second.last());
        assert(file_records(all, index_name) =~= before + file_records(second, index_name));
    }
}

/// A file has one record, with the hash of its path and the offset of its Local File Header;
/// the index itself has none.
pub proof fn file_has_one_record(entry: WrittenEntry, index_name: Seq<char>)
    ensures
        entry.name@ != index_name ==> file_records(seq![entry], index_name) == seq![
            RecordModel { hash: path_hash(entry.name@), offset: entry.header_start },
        ],
        entry.name@ == index_name ==> file_records(seq![entry], index_name).len() == 0,
{
    let one = seq![entry];
    assert(one.drop_last() =~= Seq::<WrittenEntry>::empty());
    assert(file_records(one.drop_last(), index_name) =~= Seq::empty());
    assert(one.last() == entry);
    if entry.name@ != index_name {
        assert(file_records(one, index_name) =~= seq![
            RecordModel { hash: path_hash(entry.name@), offset: entry.header_start },
        ]);
    }
}

/// The headers of the index are those of the last entry with its name: its Local File Header
/// first, and its record in the Central Directory second.
pub proof fn index_headers_are_those_of_its_entry(
    before: Seq<WrittenEntry>,
    entry: WrittenEntry,
    behind: Seq<WrittenEntry>,
    index_name: Seq<char>,
)
    requires
        entry.name@ == index_name,
        forall|i: int| 0 <= i < behind.len() ==> (#[trigger] behind[i]).name@ != index_name,
    ensures
        index_headers(before + seq![entry] + behind, index_name) == (
            entry.header_start,
            entry.central_header_start,
        ),
    decreases behind.len(),
{
    let all = before + seq![entry] + behind;
    if behind.len() == 0 {
        assert(all.last() == entry);
    } else {
        let front = behind.drop_last();
        assert(all.last() == behind[behind.len() - 1]);
        assert(all.drop_last() =~= before + seq![entry] + front);
        assert forall|i: int| 0 <= i < front.len() implies (#[trigger] front[i]).name@
            != index_name by {
            assert(front[i] == behind[i]);
        }
        index_headers_are_those_of_its_entry(before, entry, front, index_name);
    }
}

/// Without an index entry its headers are at zero.
pub proof fn missing_index_has_no_headers(entries: Seq<WrittenEntry>, index_name: Seq<char>)
    requires
        forall|i: int| 0 <= i < entries.len() ==> (#[trigger] entries[i]).name@ != index_name,
    ensures
        index_headers(entries, index_name) == (0u64, 0u64),
    decreases entries.len(),
{
    if entries.len() > 0 {
        let front = entries.drop_last();
        assert(entries.last() == entries[entries.len() - 1]);
        assert forall|i: int| 0 <= i < front.len() implies (#[trigger] front[i]).name@
            != index_name by {
            assert(front[i] == entries[i]);
        }
        missing_index_has_no_headers(front, index_name);
    }
}

/// The index is sorted by the first eight bytes of the hashes as little-endian numbers, and
/// by the last eight bytes where the first are the same.
pub proof fn index_is_sorted_by_halves(
    records: Seq<RecordModel>,
    sorted: Seq<RecordModel>,
    i: int,
    j: int,
)
    requires
        is_sorted_form(records, sorted),
        0 <= i < j < sorted.len(),
    ensures
        le64(sorted[i].hash, 0) <= le64(sorted[j].hash, 0),
        le64(sorted[i].hash, 0) == le64(sorted[j].hash, 0) ==> le64(sorted[i].hash, 8) <= le64(
            sorted[j].hash,
            8,
        ),
{
    index_is_sorted(records, sorted, i, j);
}

/// Sorting moves every record to one place, and records with one hash keep their order.
pub proof fn equal_hashes_keep_their_order(records: Seq<RecordModel>, sorted: Seq<RecordModel>)
    requires
        is_sorted_form(records, sorted),
    ensures
        exists|order: Seq<int>|
            {
                &&& #[trigger] order.len() == records.len()
                &&& sorted.len() == records.len()
                &&& forall|i: int|
                    0 <= i < order.len() ==> 0 <= #[trigger] order[i] < records.len() && sorted[i]
                        == records[order[i]]
                &&& forall|i: int, j: int|
                    0 <= i < j < order.len() ==> #[trigger] order[i] != #[trigger] order[j]
                &&& forall|i: int, j: int|
                    0 <= i < j < order.len() && records[order[i]].hash == records[order[j]].hash
                        ==> #[trigger] order[i] < #[trigger] order[j]
            },
{
    let n = records.len() as int;
    let keys = sort_keys(records);
    let order = choose|order: Seq<int>|
        is_order(keys, order, 0, n) && sorted == placed(records, order);
    assert forall|i: int, j: int| 0 <= i < j < order.len() implies #[trigger] order[i]
        != #[trigger] order[j] by {
        assert(precedes(keys, order[i], order[j]));
    }
    assert forall|i: int, j: int|
        0 <= i < j < order.len() && records[order[i]].hash == records[order[j]].hash
            implies #[trigger] order[i] < #[trigger] order[j] by {
        assert(precedes(keys, order[i], order[j]));
    }
    assert(order.len() == records.len());
}

/// A record of the index takes up twenty-four bytes.
pub proof fn index_has_room_for_every_file(count: nat)
    ensures
        index_len(count) == 24 * count,
{
}

/// Records say what they hold, in their order.
pub proof fn records_say_what_they_hold(records: Seq<IndexRecord>, i: int)
    requires
        0 <= i < records.len(),
    ensures
        record_models(records).len() == records.len(),
        record_models(records)[i].hash == records[i].md5hash@,
        record_models(records)[i].offset == records[i].offset,
{
}

/// The index goes to its place, and its checksum into byte 14 of its Local File Header and
/// byte 16 of its record in the Central Directory, low byte first.
pub proof fn checksum_goes_into_both_headers(
    index: Vec<u8>,
    payload_offset: u64,
    header_offset: u64,
    central_header_start: u64,
    r: (Patch, Patch, Patch),
)
    requires
        call_ensures(
            index_patches,
            (index, payload_offset, header_offset, central_header_start),
            r,
        ),
    ensures
        r.0.at == payload_offset,
        r.0.bytes@ == index@,
        r.1.at == header_offset + 14,
        r.2.at == central_header_start + 16,
        r.1.bytes@ == r.2.bytes@,
        r.1.bytes@.len() == 4,
        le32(r.1.bytes@, 0) == crc32_of(index@),
{
    le32_roundtrip(crc32_of(index@) as nat);
}

/// The room for the index is as long as the index over as many files.
pub proof fn room_is_as_long_as_the_index(
    records: &Vec<IndexRecord>,
    bytes: Vec<u8>,
    room: Vec<u8>,
    count: usize,
)
    requires
        call_ensures(build_index, (records,), bytes),
        call_ensures(placeholder, (count,), room),
        count == records@.len(),
    ensures
        bytes@.len() == room@.len(),
        room@.len() == 24 * count,
        forall|i: int| 0 <= i < room@.len() ==> #[trigger] room@[i] == 0,
{
}

} // verus!
