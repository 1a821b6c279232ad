//! Finding the Central Directory: the End Of Central Directory record, its ZIP64
//! counterparts, and the chunk-wise search for archives whose end does not show it.
use vstd::prelude::*;

use crate::directory::{has_signature, signed};
use crate::le::{le32, le64, read_u32, read_u64};

verus! {

/// Where a Central Directory lies in its archive.
#[derive(Debug, Clone, Copy, PartialEq, Eq, Structural)]
pub struct DirectorySpan {
    pub size: u64,
    pub offset: u64,
}

/// The size of the chunks of the fallback search.
pub const CHUNK_SIZE: u64 = 16384;

/// How far back from the end of the file the fallback search goes.
pub const MAX_EOCD_SEARCH_SIZE: u64 = 1048576;

/// How much of the end of the file is read first.
pub const TAIL_SIZE: u64 = 65536;

/// The highest position up to `i` at which the signature `P`, `K`, `a`, `c` stands.
pub open spec fn highest(b: Seq<u8>, a: u8, c: u8, i: int) -> Option<int>
    decreases i + 1,
{
    if i < 0 {
        None
    } else if signed(b, i, a, c) {
        Some(i)
    } else {
        highest(b, a, c, i - 1)
    }
}

/// Size and offset of the Central Directory by the End Of Central Directory record at `i`.
pub open spec fn eocd_values(b: Seq<u8>, i: int) -> (nat, nat) {
    (le32(b, i + 12), le32(b, i + 16))
}

/// Size and offset of the Central Directory by the last whole End Of Central Directory
/// record in the tail of an archive.
pub open spec fn eocd_in(tail: Seq<u8>) -> Option<(nat, nat)> {
    match highest(tail, 0x05, 0x06, tail.len() - 22) {
        Some(i) => Some(eocd_values(tail, i)),
        None => None,
    }
}

/// The offset that the last whole ZIP64 locator in the tail of an archive holds.
pub open spec fn locator_in(tail: Seq<u8>) -> Option<nat> {
    match highest(tail, 0x06, 0x07, tail.len() - 20) {
        Some(i) => Some(le64(tail, i + 8)),
        None => None,
    }
}

/// Size and offset of the Central Directory by a whole ZIP64 End Of Central Directory
/// record.
pub open spec fn zip64_values(record: Seq<u8>) -> Option<(nat, nat)> {
    if record.len() >= 56 && signed(record, 0, 0x06, 0x06) {
        Some((le64(record, 40), le64(record, 48)))
    } else {
        None
    }
}

/// The highest position up to `start` at which the signature stands.
fn search_back(b: &[u8], a: u8, c: u8, start: usize) -> (r: Option<usize>)
    ensures
        match r {
            Some(i) => highest(b@, a, c, start as int) == Some(i as int),
            None => highest(b@, a, c, start as int) is None,
        },
        r matches Some(i) ==> i <= start && signed(b@, i as int, a, c),
{
    let mut i: usize = start;
    loop
        invariant
            i <= start,
            highest(b@, a, c, start as int) == highest(b@, a, c, i as int),
        decreases i,
    {
        if has_signature(b, i, a, c) {
            return Some(i);
        }
        if i == 0 {
            assert(highest(b@, a, c, -1) is None);
            return None;
        }
        i -= 1;
    }
}

/// Scan a tail chunk of the archive for the End Of Central Directory record and give the
/// size and offset of the Central Directory. The last such record wins: a file comment
/// could hold the signature bytes too.
pub fn find_eocd(tail: &[u8]) -> (r: Option<(u64, u64)>)
    ensures
        match r {
            Some((size, offset)) => eocd_in(tail@) == Some((size as nat, offset as nat)),
            None => eocd_in(tail@) is None,
        },
{
    let n: usize = tail.len();
    if n < 22 {
        return None;
    }
    match search_back(tail, 0x05, 0x06, n - 22) {
        Some(i) => Some((read_u32(tail, i + 12) as u64, read_u32(tail, i + 16) as u64)),
        None => None,
    }
}

/// Scan a tail chunk for the ZIP64 locator and give the absolute offset of the ZIP64 End
/// Of Central Directory record that it points at.
pub fn find_zip64_locator(tail: &[u8]) -> (r: Option<u64>)
    ensures
        match r {
            Some(offset) => locator_in(tail@) == Some(offset as nat),
            None => locator_in(tail@) is None,
        },
{
    let n: usize = tail.len();
    if n < 20 {
        return None;
    }
    match search_back(tail, 0x06, 0x07, n - 20) {
        Some(i) => Some(read_u64(tail, i + 8)),
        None => None,
    }
}

/// Read size and offset of the Central Directory from a ZIP64 record.
pub fn read_zip64_record(record: &[u8]) -> (r: Option<DirectorySpan>)
    ensures
        match r {
            Some(span) => zip64_values(record@) == Some((span.size as nat, span.offset as nat)),
            None => zip64_values(record@) is None,
        },
{
    if record.len() >= 56 && has_signature(record, 0, 0x06, 0x06) {
        Some(DirectorySpan { size: read_u64(record, 40), offset: read_u64(record, 48) })
    } else {
        None
    }
}

/// The inclusive byte range of the end of the file that is read first. Nothing shorter
/// than an End Of Central Directory record can be an archive.
pub fn tail_range(file_size: u64) -> (r: Option<(u64, u64)>)
    ensures
        match r {
            Some((start, end)) => file_size >= 22 && end == file_size - 1 && start == (if file_size
                > TAIL_SIZE {
                file_size - TAIL_SIZE
            } else {
                0
            }),
            None => file_size < 22,
        },
{
    if file_size < 22 {
        return None;
    }
    let start: u64 = if file_size > TAIL_SIZE { file_size - TAIL_SIZE } else { 0 };
    Some((start, file_size - 1))
}

/// The inclusive byte range of the ZIP64 record at `offset`.
pub fn zip64_record_range(offset: u64) -> (r: (u64, u64))
    requires
        offset + 55 <= u64::MAX,
    ensures
        r == (offset, (offset + 55) as u64),
{
    (offset, offset + 55)
}

/// What the end of the file and, where it has a locator, the record that the locator
/// points at say of the Central Directory: a valid ZIP64 record overrides the 32-bit one,
/// and where neither is there the size is zero.
pub open spec fn span_by_tail(tail: Seq<u8>, zip64_record: Option<Seq<u8>>) -> (nat, nat) {
    let narrow = match eocd_in(tail) {
        Some(v) => v,
        None => (0nat, 0nat),
    };
    match zip64_record {
        Some(record) => match zip64_values(record) {
            Some(v) => v,
            None => narrow,
        },
        None => narrow,
    }
}

/// Where the Central Directory lies, by the end of the file and the ZIP64 record.
pub fn directory_by_tail(tail: &[u8], zip64_record: Option<&[u8]>) -> (span: DirectorySpan)
    ensures
        (span.size as nat, span.offset as nat) == span_by_tail(
            tail@,
            match zip64_record {
                Some(record) => Some(record@),
                None => None,
            },
        ),
{
    let narrow = match find_eocd(tail) {
        Some((size, offset)) => DirectorySpan { size, offset },
        None => DirectorySpan { size: 0, offset: 0 },
    };
    match zip64_record {
        Some(record) => match read_zip64_record(record) {
            Some(span) => span,
            None => narrow,
        },
        None => narrow,
    }
}

/// The inclusive byte range of a Central Directory.
pub fn directory_range(span: DirectorySpan) -> (r: Option<(u64, u64)>)
    requires
        span.offset + span.size <= u64::MAX,
    ensures
        match r {
            Some((start, end)) => span.size > 0 && start == span.offset && end == span.offset
                + span.size - 1,
            None => span.size == 0,
        },
{
    if span.size == 0 {
        None
    } else {
        Some((span.offset, span.offset + (span.size - 1)))
    }
}

/// The chunk-wise search for the Central Directory, from the end of the file backwards.
#[derive(Debug, Clone, Copy, PartialEq, Eq, Structural)]
pub enum DirectoryScan {
    /// Look for the End Of Central Directory record in the chunk before `position`.
    Chunk { position: u64 },
    /// Look for the ZIP64 locator right before the record at `eocd`; `standard` is what
    /// that record says, where its chunk holds it whole.
    Locator { eocd: u64, standard: Option<DirectorySpan> },
    /// Read the ZIP64 record at `at`.
    Record { at: u64, standard: Option<DirectorySpan> },
    /// The Central Directory was found.
    Found { span: DirectorySpan },
    /// The search went as far back as it goes and found nothing.
    Exhausted,
}

/// The lowest position at which the search still looks.
pub open spec fn scan_floor(file_size: u64) -> u64 {
    if file_size > MAX_EOCD_SEARCH_SIZE {
        (file_size - MAX_EOCD_SEARCH_SIZE) as u64
    } else {
        0
    }
}

/// The start of the chunk that ends before `position`.
pub open spec fn chunk_start(position: u64) -> u64 {
    if position > CHUNK_SIZE {
        (position - CHUNK_SIZE) as u64
    } else {
        0
    }
}

/// The last position at which a chunk is looked at.
pub open spec fn last_look(chunk: Seq<u8>) -> int {
    if chunk.len() >= 22 {
        chunk.len() - 22
    } else {
        0
    }
}

/// What the record at `i` of the chunk says, where the chunk holds it.
pub open spec fn standard_in(chunk: Seq<u8>, i: int) -> Option<DirectorySpan> {
    if i + 20 <= chunk.len() {
        Some(
            DirectorySpan {
                size: eocd_values(chunk, i).0 as u64,
                offset: eocd_values(chunk, i).1 as u64,
            },
        )
    } else {
        None
    }
}

/// The search is over with what the End Of Central Directory record said.
pub open spec fn settled(standard: Option<DirectorySpan>) -> DirectoryScan {
    match standard {
        Some(span) => DirectoryScan::Found { span },
        None => DirectoryScan::Exhausted,
    }
}

/// Where the search goes after the bytes that it asked for.
pub open spec fn scan_next(scan: DirectoryScan, file_size: u64, bytes: Seq<u8>) -> DirectoryScan {
    match scan {
        DirectoryScan::Chunk { position } => match highest(bytes, 0x05, 0x06, last_look(bytes)) {
            Some(i) => {
                let eocd = chunk_start(position) + i;
                let standard = standard_in(bytes, i);
                if eocd >= 20 {
                    DirectoryScan::Locator { eocd: eocd as u64, standard }
                } else {
                    settled(standard)
                }
            },
            None => if chunk_start(position) > scan_floor(file_size) {
                DirectoryScan::Chunk { position: chunk_start(position) }
            } else {
                DirectoryScan::Exhausted
            },
        },
        DirectoryScan::Locator { eocd, standard } => if signed(bytes, 0, 0x06, 0x07) {
            DirectoryScan::Record { at: le64(bytes, 8) as u64, standard }
        } else {
            settled(standard)
        },
        DirectoryScan::Record { at, standard } => if signed(bytes, 0, 0x06, 0x06) {
            DirectoryScan::Found {
                span: DirectorySpan {
                    size: le64(bytes, 40) as u64,
                    offset: le64(bytes, 48) as u64,
                },
            }
        } else {
            settled(standard)
        },
        DirectoryScan::Found { .. } => scan,
        DirectoryScan::Exhausted => scan,
    }
}

/// The bytes reach as far as the step reads them: four for the signature, and the fields
/// of the record that the signature announces.
pub open spec fn scan_fits(scan: DirectoryScan, bytes: Seq<u8>) -> bool {
    match scan {
        DirectoryScan::Chunk { position } => {
            &&& bytes.len() >= 4
            &&& match highest(bytes, 0x05, 0x06, last_look(bytes)) {
                Some(i) => {
                    &&& chunk_start(position) + i <= u64::MAX
                    &&& chunk_start(position) + i < 20 ==> i + 20 <= bytes.len()
                },
                None => true,
            }
        },
        DirectoryScan::Locator { eocd, standard } => {
            &&& bytes.len() >= 4
            &&& signed(bytes, 0, 0x06, 0x07) ==> bytes.len() >= 16
            &&& !signed(bytes, 0, 0x06, 0x07) ==> standard is Some
        },
        DirectoryScan::Record { at, standard } => {
            &&& bytes.len() >= 4
            &&& signed(bytes, 0, 0x06, 0x06) ==> bytes.len() >= 56
            &&& !signed(bytes, 0, 0x06, 0x06) ==> standard is Some
        },
        _ => true,
    }
}

/// The inclusive byte range that a step asks for.
pub open spec fn scan_range(scan: DirectoryScan) -> Option<(int, int)> {
    match scan {
        DirectoryScan::Chunk { position } => Some((chunk_start(position) as int, position - 1)),
        DirectoryScan::Locator { eocd, .. } => Some((eocd - 20, eocd - 1)),
        DirectoryScan::Record { at, .. } => Some((at as int, at + 55)),
        DirectoryScan::Found { .. } => None,
        DirectoryScan::Exhausted => None,
    }
}

fn settle(standard: Option<DirectorySpan>) -> (r: DirectoryScan)
    ensures
        r == settled(standard),
{
    match standard {
        Some(span) => DirectoryScan::Found { span },
        None => DirectoryScan::Exhausted,
    }
}

fn start_of_chunk(position: u64) -> (r: u64)
    ensures
        r == chunk_start(position),
{
    if position > CHUNK_SIZE {
        position - CHUNK_SIZE
    } else {
        0
    }
}

impl DirectoryScan {
    /// The step is one that the search can reach: ranges do not run below zero.
    pub open spec fn wf(self) -> bool {
        match self {
            DirectoryScan::Chunk { position } => position > 0,
            DirectoryScan::Locator { eocd, .. } => eocd >= 20,
            _ => true,
        }
    }

    /// Begin at the end of the file.
    pub fn new(file_size: u64) -> (scan: DirectoryScan)
        requires
            file_size >= 22,
        ensures
            scan == (DirectoryScan::Chunk { position: file_size }),
            scan.wf(),
    {
        DirectoryScan::Chunk { position: file_size }
    }

    /// The inclusive byte range to read next, until the search is over.
    pub fn wanted(&self) -> (r: Option<(u64, u64)>)
        requires
            self.wf(),
            *self matches DirectoryScan::Record { at, .. } ==> at + 55 <= u64::MAX,
        ensures
            match r {
                Some((start, end)) => scan_range(*self) == Some((start as int, end as int)),
                None => scan_range(*self) is None,
            },
    {
        match *self {
            DirectoryScan::Chunk { position } => Some((start_of_chunk(position), position - 1)),
            DirectoryScan::Locator { eocd, .. } => Some((eocd - 20, eocd - 1)),
            DirectoryScan::Record { at, .. } => Some((at, at + 55)),
            DirectoryScan::Found { .. } => None,
            DirectoryScan::Exhausted => None,
        }
    }

    /// Whether the bytes reach as far as the step reads them.
    pub fn accepts(&self, bytes: &[u8]) -> (r: bool)
        ensures
            r == scan_fits(*self, bytes@),
    {
        let n: usize = bytes.len();
        match *self {
            DirectoryScan::Chunk { position } => {
                if n < 4 {
                    return false;
                }
                let from: usize = if n >= 22 { n - 22 } else { 0 };
                match search_back(bytes, 0x05, 0x06, from) {
                    Some(i) => {
                        let start: u64 = start_of_chunk(position);
                        if i as u64 > u64::MAX - start {
                            return false;
                        }
                        start + i as u64 >= 20 || n - i >= 20
                    },
                    None => true,
                }
            },
            DirectoryScan::Locator { standard, .. } => {
                if n < 4 {
                    false
                } else if has_signature(bytes, 0, 0x06, 0x07) {
                    n >= 16
                } else {
                    standard.is_some()
                }
            },
            DirectoryScan::Record { standard, .. } => {
                if n < 4 {
                    false
                } else if has_signature(bytes, 0, 0x06, 0x06) {
                    n >= 56
                } else {
                    standard.is_some()
                }
            },
            DirectoryScan::Found { .. } => true,
            DirectoryScan::Exhausted => true,
        }
    }

    /// Go on with the bytes that were asked for.
    pub fn next(&self, file_size: u64, bytes: &[u8]) -> (r: DirectoryScan)
        requires
            self.wf(),
            scan_fits(*self, bytes@),
        ensures
            r == scan_next(*self, file_size, bytes@),
            r.wf(),
    {
        let n: usize = bytes.len();
        match *self {
            DirectoryScan::Chunk { position } => {
                let start: u64 = start_of_chunk(position);
                let from: usize = if n >= 22 { n - 22 } else { 0 };
                match search_back(bytes, 0x05, 0x06, from) {
                    Some(i) => {
                        let eocd: u64 = start + i as u64;
                        let standard = if n - i >= 20 {
                            Some(
                                DirectorySpan {
                                    size: read_u32(bytes, i + 12) as u64,
                                    offset: read_u32(bytes, i + 16) as u64,
                                },
                            )
                        } else {
                            None
                        };
                        if eocd >= 20 {
                            DirectoryScan::Locator { eocd, standard }
                        } else {
                            settle(standard)
                        }
                    },
                    None => {
                        let floor: u64 = if file_size > MAX_EOCD_SEARCH_SIZE {
                            file_size - MAX_EOCD_SEARCH_SIZE
                        } else {
                            0
                        };
                        if start > floor {
                            DirectoryScan::Chunk { position: start }
                        } else {
                            DirectoryScan::Exhausted
                        }
                    },
                }
            },
            DirectoryScan::Locator { standard, .. } => {
                if has_signature(bytes, 0, 0x06, 0x07) {
                    DirectoryScan::Record { at: read_u64(bytes, 8), standard }
                } else {
                    settle(standard)
                }
            },
            DirectoryScan::Record { standard, .. } => {
                if has_signature(bytes, 0, 0x06, 0x06) {
                    DirectoryScan::Found {
                        span: DirectorySpan {
                            size: read_u64(bytes, 40),
                            offset: read_u64(bytes, 48),
                        },
                    }
                } else {
                    settle(standard)
                }
            },
            DirectoryScan::Found { .. } => *self,
            DirectoryScan::Exhausted => *self,
        }
    }
}

/// What `highest` finds bears the signature, and no position between it and the start
/// does; where it finds nothing, no position does.
pub proof fn highest_is_last(b: Seq<u8>, a: u8, c: u8, start: int)
    ensures
        match highest(b, a, c, start) {
            Some(i) => 0 <= i <= start && signed(b, i, a, c) && forall|j: int|
                i < j <= start ==> !signed(b, j, a, c),
            None => forall|j: int| 0 <= j <= start ==> !signed(b, j, a, c),
        },
    decreases start + 1,
{
    if start >= 0 && !signed(b, start, a, c) {
        highest_is_last(b, a, c, start - 1);
    }
}

/// An archive without a comment ends with its End Of Central Directory record, and that
/// record is the one that is found.
pub proof fn eocd_at_exact_end(tail: Seq<u8>)
    requires
        signed(tail, tail.len() - 22, 0x05, 0x06),
    ensures
        eocd_in(tail) == Some(eocd_values(tail, tail.len() - 22)),
{
}

/// The search comes to an end: each chunk lies before the one searched last, and the
/// other steps lead on only to later ones.
pub proof fn scan_moves_on(scan: DirectoryScan, file_size: u64, bytes: Seq<u8>)
    requires
        scan.wf(),
        scan_fits(scan, bytes),
    ensures
        scan_rank(scan_next(scan, file_size, bytes)) < scan_rank(scan) || scan_range(scan) is None,
{
}

/// A number that falls with every step of the search.
pub open spec fn scan_rank(scan: DirectoryScan) -> int {
    match scan {
        DirectoryScan::Chunk { position } => 3 + position,
        DirectoryScan::Locator { .. } => 2,
        DirectoryScan::Record { .. } => 1,
        DirectoryScan::Found { .. } => 0,
        DirectoryScan::Exhausted => 0,
    }
}

/// The signature with these last two bytes stands at `i`.
pub open spec fn bears(b: Seq<u8>, i: int, a: u8, c: u8) -> bool {
    0 <= i && i + 4 <= b.len() && b.subrange(i, i + 4) == seq![0x50u8, 0x4bu8, a, c]
}

proof fn lemma_bears(b: Seq<u8>, i: int, a: u8, c: u8)
    ensures
        bears(b, i, a, c) == signed(b, i, a, c),
{
    if 0 <= i && i + 4 <= b.len() {
        let four = b.subrange(i, i + 4);
        assert(four[0] == b[i] && four[1] == b[i + 1] && four[2] == b[i + 2] && four[3] == b[i
            + 3]);
        if signed(b, i, a, c) {
            assert(four =~= seq![0x50u8, 0x4bu8, a, c]);
        }
    }
}

/// The end record that counts is the last one that leaves room for its 22 bytes: its size
/// stands at byte 12 and its offset at byte 16. There is none exactly where no signature
/// leaves that room.
pub proof fn last_end_record_counts(tail: Seq<u8>, i: int)
    ensures
        bears(tail, i, 0x05, 0x06) && i + 22 <= tail.len() && (forall|j: int|
            i < j && j + 22 <= tail.len() ==> !#[trigger] bears(tail, j, 0x05, 0x06))
            ==> eocd_in(tail) == Some((le32(tail, i + 12), le32(tail, i + 16))),
        (forall|j: int| j + 22 <= tail.len() ==> !#[trigger] bears(tail, j, 0x05, 0x06))
            <==> eocd_in(tail) is None,
{
    let start = tail.len() - 22;
    highest_is_last(tail, 0x05, 0x06, start);
    assert forall|j: int| #[trigger] bears(tail, j, 0x05, 0x06) == signed(tail, j, 0x05, 0x06) by {
        lemma_bears(tail, j, 0x05, 0x06);
    }
    if tail.len() >= 22 {
        if let Some(k) = highest(tail, 0x05, 0x06, start) {
            assert(bears(tail, k, 0x05, 0x06));
            if bears(tail, i, 0x05, 0x06) && i + 22 <= tail.len() {
                assert(!(i > k));
            }
        }
    }
}

/// The locator that counts is the last one that leaves room for its 20 bytes; the offset of
/// the record that it points at stands at byte 8.
pub proof fn last_locator_counts(tail: Seq<u8>, i: int)
    ensures
        bears(tail, i, 0x06, 0x07) && i + 20 <= tail.len() && (forall|j: int|
            i < j && j + 20 <= tail.len() ==> !#[trigger] bears(tail, j, 0x06, 0x07))
            ==> locator_in(tail) == Some(le64(tail, i + 8)),
        (forall|j: int| j + 20 <= tail.len() ==> !#[trigger] bears(tail, j, 0x06, 0x07))
            <==> locator_in(tail) is None,
{
    let start = tail.len() - 20;
    highest_is_last(tail, 0x06, 0x07, start);
    assert forall|j: int| #[trigger] bears(tail, j, 0x06, 0x07) == signed(tail, j, 0x06, 0x07) by {
        lemma_bears(tail, j, 0x06, 0x07);
    }
    if tail.len() >= 20 {
        if let Some(k) = highest(tail, 0x06, 0x07, start) {
            assert(bears(tail, k, 0x06, 0x07));
            if bears(tail, i, 0x06, 0x07) && i + 20 <= tail.len() {
                assert(!(i > k));
            }
        }
    }
}

/// A ZIP64 record of at least 56 bytes with its signature decides, whatever the 32-bit record
/// says: the size at its byte 40 and the offset at its byte 48. Any other record changes
/// nothing, and without both records the size is zero.
pub proof fn valid_zip64_record_decides(tail: Seq<u8>, record: Seq<u8>)
    ensures
        record.len() >= 56 && bears(record, 0, 0x06, 0x06) ==> span_by_tail(tail, Some(record)) == (
            le64(record, 40),
            le64(record, 48),
        ),
        record.len() < 56 || !bears(record, 0, 0x06, 0x06) ==> span_by_tail(tail, Some(record))
            == span_by_tail(tail, None),
        eocd_in(tail) matches Some(span) ==> span_by_tail(tail, None) == span,
        eocd_in(tail) is None ==> span_by_tail(tail, None).0 == 0,
{
    lemma_bears(record, 0, 0x06, 0x06);
}

/// A chunk without the signature leads to the chunk right before it, of 16384 bytes or as
/// many as there are, as long as less than a mebibyte was searched, and then to the end of the
/// search.
pub proof fn search_leaves_no_gap(position: u64, file_size: u64, chunk: Seq<u8>)
    requires
        0 < position <= file_size,
        forall|i: int| i + 22 <= chunk.len() || i == 0 ==> !#[trigger] bears(chunk, i, 0x05, 0x06),
    ensures
        ({
            let scan = DirectoryScan::Chunk { position };
            let (start, end) = scan_range(scan)->0;
            let next = scan_next(scan, file_size, chunk);
            &&& scan_range(scan) is Some
            &&& end == position - 1
            &&& start == 0 || start == position - 16384
            &&& start == 0 ==> position <= 16384
            &&& start > 0 && file_size - start < 1048576 ==> next == (DirectoryScan::Chunk {
                position: start as u64,
            })
            &&& start == 0 || file_size - start >= 1048576 ==> next == DirectoryScan::Exhausted
        }),
{
    highest_is_last(chunk, 0x05, 0x06, last_look(chunk));
    if let Some(i) = highest(chunk, 0x05, 0x06, last_look(chunk)) {
        lemma_bears(chunk, i, 0x05, 0x06);
        assert(bears(chunk, i, 0x05, 0x06));
    }
}

/// The last end record of a chunk is followed up: where twenty bytes stand before it in the
/// file, these are read, in search of a locator; else what it says counts.
pub proof fn found_record_is_followed_up(
    position: u64,
    file_size: u64,
    chunk: Seq<u8>,
    i: int,
)
    requires
        0 < position <= file_size,
        bears(chunk, i, 0x05, 0x06),
        i + 22 <= chunk.len(),
        forall|j: int| i < j && j + 22 <= chunk.len() ==> !#[trigger] bears(chunk, j, 0x05, 0x06),
        position + chunk.len() <= u64::MAX,
    ensures
        ({
            let scan = DirectoryScan::Chunk { position };
            let at = (scan_range(scan)->0).0 + i;
            let says = DirectorySpan {
                size: le32(chunk, i + 12) as u64,
                offset: le32(chunk, i + 16) as u64,
            };
            let next = scan_next(scan, file_size, chunk);
            &&& at >= 20 ==> scan_range(next) == Some((at - 20, at - 1)) && next
                == (DirectoryScan::Locator { eocd: at as u64, standard: Some(says) })
            &&& at < 20 ==> next == (DirectoryScan::Found { span: says })
        }),
{
    highest_is_last(chunk, 0x05, 0x06, last_look(chunk));
    assert forall|j: int| #[trigger] bears(chunk, j, 0x05, 0x06) == signed(
        chunk,
        j,
        0x05,
        0x06,
    ) by {
        lemma_bears(chunk, j, 0x05, 0x06);
    }
    assert(signed(chunk, i, 0x05, 0x06));
    let k = highest(chunk, 0x05, 0x06, last_look(chunk))->0;
    assert(bears(chunk, k, 0x05, 0x06));
}

/// A locator leads to the 56 bytes of the record that it points at, and that record decides
/// where it bears its signature. Where one of the two does not, the end record that was found
/// first counts.
pub proof fn locator_leads_to_its_record(
    eocd: u64,
    at: u64,
    standard: DirectorySpan,
    file_size: u64,
    bytes: Seq<u8>,
)
    ensures
        ({
            let scan = DirectoryScan::Locator { eocd, standard: Some(standard) };
            let next = scan_next(scan, file_size, bytes);
            let to = le64(bytes, 8) as u64;
            &&& bears(bytes, 0, 0x06, 0x07) ==> scan_range(next) == Some((to as int, to + 55))
                && next == (DirectoryScan::Record { at: to, standard: Some(standard) })
            &&& !bears(bytes, 0, 0x06, 0x07) ==> next == (DirectoryScan::Found { span: standard })
        }),
        ({
            let scan = DirectoryScan::Record { at, standard: Some(standard) };
            let next = scan_next(scan, file_size, bytes);
            &&& bears(bytes, 0, 0x06, 0x06) ==> next == (DirectoryScan::Found {
                span: DirectorySpan {
                    size: le64(bytes, 40) as u64,
                    offset: le64(bytes, 48) as u64,
                },
            })
            &&& !bears(bytes, 0, 0x06, 0x06) ==> next == (DirectoryScan::Found { span: standard })
        }),
{
    lemma_bears(bytes, 0, 0x06, 0x07);
    lemma_bears(bytes, 0, 0x06, 0x06);
}

/// The last 65536 bytes of a file are read first.
pub proof fn tail_is_sixty_four_kibibytes()
    ensures
        TAIL_SIZE == 64 * 1024,
{
}

/// A chunk that is shorter than an End Of Central Directory record is looked at where it
/// begins. What the record says counts where the chunk holds its size and offset whole.
pub proof fn short_chunk_is_looked_at_its_start(position: u64, file_size: u64, chunk: Seq<u8>)
    requires
        0 < position <= file_size,
        chunk.len() < 22,
        bears(chunk, 0, 0x05, 0x06),
    ensures
        ({
            let scan = DirectoryScan::Chunk { position };
            let at = (scan_range(scan)->0).0;
            let next = scan_next(scan, file_size, chunk);
            let says = if chunk.len() >= 20 {
                Some(
                    DirectorySpan {
                        size: le32(chunk, 12) as u64,
                        offset: le32(chunk, 16) as u64,
                    },
                )
            } else {
                None
            };
            &&& at >= 20 ==> next == (DirectoryScan::Locator { eocd: at as u64, standard: says })
            &&& at < 20 && says is Some ==> next == (DirectoryScan::Found { span: says->0 })
            &&& at < 20 && says is None ==> next == DirectoryScan::Exhausted
        }),
{
    lemma_bears(chunk, 0, 0x05, 0x06);
    highest_is_last(chunk, 0x05, 0x06, 0);
}

/// Without a 32-bit record to fall back on, a search that finds no ZIP64 record is over, and
/// one that finds it takes what it says.
pub proof fn search_without_fallback(eocd: u64, at: u64, file_size: u64, bytes: Seq<u8>)
    ensures
        ({
            let next = scan_next(
                DirectoryScan::Locator { eocd, standard: None },
                file_size,
                bytes,
            );
            &&& bears(bytes, 0, 0x06, 0x07) ==> next == (DirectoryScan::Record {
                at: le64(bytes, 8) as u64,
                standard: None,
            })
            &&& !bears(bytes, 0, 0x06, 0x07) ==> next == DirectoryScan::Exhausted
        }),
        ({
            let next = scan_next(DirectoryScan::Record { at, standard: None }, file_size, bytes);
            &&& bears(bytes, 0, 0x06, 0x06) ==> next == (DirectoryScan::Found {
                span: DirectorySpan {
                    size: le64(bytes, 40) as u64,
                    offset: le64(bytes, 48) as u64,
                },
            })
            &&& !bears(bytes, 0, 0x06, 0x06) ==> next == DirectoryScan::Exhausted
        }),
{
    lemma_bears(bytes, 0, 0x06, 0x07);
    lemma_bears(bytes, 0, 0x06, 0x06);
}

/// A search that is over stays where it is and asks for nothing.
pub proof fn finished_search_stays(span: DirectorySpan, file_size: u64, bytes: Seq<u8>)
    ensures
        scan_next(DirectoryScan::Found { span }, file_size, bytes) == (DirectoryScan::Found {
            span,
        }),
        scan_next(DirectoryScan::Exhausted, file_size, bytes) == DirectoryScan::Exhausted,
        scan_range(DirectoryScan::Found { span }) is None,
        scan_range(DirectoryScan::Exhausted) is None,
{
}

/// The directory that is found is the one that a valid ZIP64 record names, whatever the end of
/// the file says.
pub proof fn directory_that_is_found_is_that_of_the_zip64_record(
    tail: &[u8],
    record: &[u8],
    span: DirectorySpan,
)
    requires
        call_ensures(directory_by_tail, (tail, Some(record)), span),
        record@.len() >= 56,
        bears(record@, 0, 0x06, 0x06),
    ensures
        span.size == le64(record@, 40),
        span.offset == le64(record@, 48),
{
    valid_zip64_record_decides(tail@, record@);
}

/// The end of a file that is read first is the last 65536 bytes, or all of a shorter file;
/// what has no room for an End Of Central Directory record is not read.
pub proof fn tail_reaches_to_the_end(file_size: u64, r: Option<(u64, u64)>)
    requires
        call_ensures(tail_range, (file_size,), r),
    ensures
        r is None <==> file_size < 22,
        r matches Some((start, end)) ==> {
            &&& end + 1 == file_size
            &&& file_size >= 65536 ==> end - start + 1 == 65536
            &&& file_size < 65536 ==> start == 0
        },
{
}

/// A ZIP64 record is read with its 56 bytes.
pub proof fn zip64_record_has_fifty_six_bytes(offset: u64, r: (u64, u64))
    requires
        offset + 55 <= u64::MAX,
        call_ensures(zip64_record_range, (offset,), r),
    ensures
        r.0 == offset,
        r.1 - r.0 + 1 == 56,
{
}

/// A directory is read from its offset on, with as many bytes as it has; an empty one is not
/// read.
pub proof fn directory_is_read_whole(span: DirectorySpan, r: Option<(u64, u64)>)
    requires
        call_ensures(directory_range, (span,), r),
    ensures
        r is None <==> span.size == 0,
        r matches Some((start, end)) ==> start == span.offset && end - start + 1 == span.size,
{
}

/// A search begins at the end of the file.
pub proof fn search_begins_at_the_end(file_size: u64, scan: DirectoryScan)
    requires
        call_ensures(DirectoryScan::new, (file_size,), scan),
    ensures
        scan == (DirectoryScan::Chunk { position: file_size }),
{
}

/// A chunk that can hold a record is taken in; so are a locator and a ZIP64 record with all
/// their bytes, and other bytes in their place where there is a 32-bit record to fall back on.
pub proof fn whole_pieces_are_taken_in(
    position: u64,
    eocd: u64,
    at: u64,
    standard: Option<DirectorySpan>,
    bytes: Seq<u8>,
)
    ensures
        bytes.len() >= 22 && position + bytes.len() <= u64::MAX ==> scan_fits(
            DirectoryScan::Chunk { position },
            bytes,
        ),
        bytes.len() >= 20 && bears(bytes, 0, 0x06, 0x07) ==> scan_fits(
            DirectoryScan::Locator { eocd, standard },
            bytes,
        ),
        bytes.len() >= 20 && standard is Some ==> scan_fits(
            DirectoryScan::Locator { eocd, standard },
            bytes,
        ),
        bytes.len() >= 56 && bears(bytes, 0, 0x06, 0x06) ==> scan_fits(
            DirectoryScan::Record { at, standard },
            bytes,
        ),
        bytes.len() >= 56 && standard is Some ==> scan_fits(
            DirectoryScan::Record { at, standard },
            bytes,
        ),
{
    highest_is_last(bytes, 0x05, 0x06, last_look(bytes));
    lemma_bears(bytes, 0, 0x06, 0x07);
    lemma_bears(bytes, 0, 0x06, 0x06);
}

/// Pieces without room for a signature, and records that end before what they announce, are
/// not taken in.
pub proof fn cut_pieces_are_not_taken_in(
    position: u64,
    eocd: u64,
    at: u64,
    standard: Option<DirectorySpan>,
    bytes: Seq<u8>,
)
    ensures
        bytes.len() < 4 ==> {
            &&& !scan_fits(DirectoryScan::Chunk { position }, bytes)
            &&& !scan_fits(DirectoryScan::Locator { eocd, standard }, bytes)
            &&& !scan_fits(DirectoryScan::Record { at, standard }, bytes)
        },
        bytes.len() < 16 && bears(bytes, 0, 0x06, 0x07) ==> !scan_fits(
            DirectoryScan::Locator { eocd, standard },
            bytes,
        ),
        bytes.len() < 56 && bears(bytes, 0, 0x06, 0x06) ==> !scan_fits(
            DirectoryScan::Record { at, standard },
            bytes,
        ),
{
    lemma_bears(bytes, 0, 0x06, 0x07);
    lemma_bears(bytes, 0, 0x06, 0x06);
}

} // verus!
