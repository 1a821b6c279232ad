//! Reading one entry out of an archive: its Local File Header and payload in a single
//! range request, with an exact second request where the header is unusually long.
use vstd::prelude::*;
use vstd::string::*;
use vstd::utf8::encode_utf8;

use crate::directory::CdEntry;
use crate::le::{le16, read_u16};

verus! {

/// Extra-field slop added to the read of an entry's Local File Header, so that the header
/// and its payload arrive in a single range request. The header's extra field has a
/// length that the Central Directory does not tell; this covers the common layouts.
pub const LFH_EXTRA_SLOP: u64 = 128;

/// The length of the entry's name in bytes.
pub open spec fn name_len(entry: CdEntry) -> nat {
    (encode_utf8(entry.filename@).len() as usize) as nat
}

/// How many bytes the first read of an entry asks for.
pub open spec fn speculative_len(entry: CdEntry) -> nat {
    30 + name_len(entry) + LFH_EXTRA_SLOP as nat + entry.compressed_size as nat
}

/// The inclusive byte range of the first read: header, name, slop and payload. Directory
/// markers and empty files have no payload, and nothing is read for them.
pub fn first_read(entry: &CdEntry) -> (r: Option<(u64, u64)>)
    requires
        entry.compressed_size > 0 ==> entry.header_offset + speculative_len(*entry) <= u64::MAX,
    ensures
        match r {
            Some((start, end)) => entry.compressed_size > 0 && start == entry.header_offset && end
                == entry.header_offset + speculative_len(*entry) - 1,
            None => entry.compressed_size == 0,
        },
{
    if entry.compressed_size == 0 {
        return None;
    }
    let name: u64 = entry.filename.as_str().len() as u64;
    let len: u64 = 30 + name + LFH_EXTRA_SLOP + entry.compressed_size;
    Some((entry.header_offset, entry.header_offset + (len - 1)))
}

/// Whether the first read of an entry stays below the end of the 64-bit range.
pub fn first_read_fits(entry: &CdEntry) -> (r: bool)
    ensures
        r == (entry.compressed_size == 0 || entry.header_offset + speculative_len(*entry)
            <= u64::MAX),
{
    if entry.compressed_size == 0 {
        return true;
    }
    let name: u64 = entry.filename.as_str().len() as u64;
    let fixed: u64 = 30 + LFH_EXTRA_SLOP;
    if name > u64::MAX - fixed {
        return false;
    }
    if entry.compressed_size > u64::MAX - fixed - name {
        return false;
    }
    entry.header_offset <= u64::MAX - fixed - name - entry.compressed_size
}

/// Where the payload is.
#[derive(Debug)]
pub enum Payload {
    /// The first read holds it.
    Here { data: Vec<u8> },
    /// It has to be read from this inclusive byte range.
    Elsewhere { start: u64, end: u64 },
}

/// Why an entry cannot be read.
#[derive(Debug, Clone, Copy, PartialEq, Eq, Structural)]
pub enum PayloadError {
    /// The archive ends inside the Local File Header.
    ShortHeader,
    /// The payload would end beyond the 64-bit range.
    ImplausibleExtent,
}

/// The length of the Local File Header at the start of `buf`, name and extra field
/// included.
pub open spec fn payload_start(buf: Seq<u8>) -> nat {
    30 + le16(buf, 26) + le16(buf, 28)
}

/// What the first read tells of the payload.
pub enum Located {
    Short,
    Implausible,
    Here { data: Seq<u8> },
    Elsewhere { start: int, end: int },
}

/// What a first read of `entry` that gave `buf` tells: the payload itself where `buf`
/// reaches to its end, else the inclusive byte range that holds it.
pub open spec fn located(entry: CdEntry, buf: Seq<u8>) -> Located {
    let end = payload_start(buf) + entry.compressed_size;
    if buf.len() < 30 {
        Located::Short
    } else if end > u64::MAX {
        Located::Implausible
    } else if end <= buf.len() {
        Located::Here { data: buf.subrange(payload_start(buf) as int, end) }
    } else {
        Located::Elsewhere {
            start: entry.header_offset + payload_start(buf),
            end: entry.header_offset + end - 1,
        }
    }
}

/// A second read, where one is asked for, ends inside the 64-bit range.
pub open spec fn second_read_fits(entry: CdEntry, buf: Seq<u8>) -> bool {
    located(entry, buf) matches Located::Elsewhere { start, end } ==> end < u64::MAX
}

/// Take the payload out of the first read, or tell where it is. `buf` starts at the
/// entry's Local File Header.
pub fn locate_payload(entry: &CdEntry, buf: Vec<u8>) -> (r: Result<Payload, PayloadError>)
    requires
        entry.compressed_size > 0,
        second_read_fits(*entry, buf@),
    ensures
        match r {
            Err(PayloadError::ShortHeader) => located(*entry, buf@) is Short,
            Err(PayloadError::ImplausibleExtent) => located(*entry, buf@) is Implausible,
            Ok(Payload::Here { data }) => located(*entry, buf@) == (Located::Here { data: data@ }),
            Ok(Payload::Elsewhere { start, end }) => located(*entry, buf@) == (Located::Elsewhere {
                start: start as int,
                end: end as int,
            }),
        },
{
    let ghost whole = buf@;
    let n: usize = buf.len();
    if n < 30 {
        return Err(PayloadError::ShortHeader);
    }
    let name: u64 = read_u16(buf.as_slice(), 26) as u64;
    let extra: u64 = read_u16(buf.as_slice(), 28) as u64;
    let start: u64 = 30 + name + extra;
    if entry.compressed_size > u64::MAX - start {
        return Err(PayloadError::ImplausibleExtent);
    }
    let end: u64 = start + entry.compressed_size;
    if end <= n as u64 {
        let mut head = buf;
        head.truncate(end as usize);
        let data = head.split_off(start as usize);
        assert(data@ =~= whole.subrange(start as int, end as int));
        return Ok(Payload::Here { data });
    }
    let from: u64 = entry.header_offset + start;
    Ok(Payload::Elsewhere { start: from, end: from + (entry.compressed_size - 1) })
}

/// Whether the exact read that `locate_payload` may ask for stays below the end of the
/// 64-bit range.
pub fn payload_fits(entry: &CdEntry, buf: &[u8]) -> (r: bool)
    ensures
        r == second_read_fits(*entry, buf@),
{
    let n: usize = buf.len();
    if n < 30 {
        return true;
    }
    let start: u64 = 30 + read_u16(buf, 26) as u64 + read_u16(buf, 28) as u64;
    if entry.compressed_size > u64::MAX - start {
        return true;
    }
    let end: u64 = start + entry.compressed_size;
    end <= n as u64 || entry.header_offset <= u64::MAX - end
}

/// The error in words, for the entry with the given name.
pub fn payload_error_message(error: PayloadError, filename: &str) -> (s: String)
    ensures
        s@ == (match error {
            PayloadError::ShortHeader => "Short LFH header for '"@,
            PayloadError::ImplausibleExtent => "Implausible payload extent for '"@,
        }) + filename@ + "'"@,
{
    let mut s = match error {
        PayloadError::ShortHeader => "Short LFH header for '".to_owned(),
        PayloadError::ImplausibleExtent => "Implausible payload extent for '".to_owned(),
    };
    s.append(filename);
    s.append("'");
    s
}

/// The payload of the entry: the bytes of the archive right behind its Local File Header,
/// as many as the Central Directory says.
pub open spec fn payload_in(archive: Seq<u8>, entry: CdEntry) -> Seq<u8> {
    let header = archive.subrange(entry.header_offset as int, archive.len() as int);
    let start = entry.header_offset + payload_start(header);
    archive.subrange(start, start + entry.compressed_size)
}

/// Whichever way an entry is read, the result is its payload. `buf` is what the first read
/// of the archive gives, which the end of the archive may cut short.
pub proof fn both_reads_give_the_payload(archive: Seq<u8>, entry: CdEntry, buf: Seq<u8>)
    requires
        entry.header_offset + buf.len() <= archive.len(),
        buf == archive.subrange(entry.header_offset as int, entry.header_offset + buf.len()),
        buf.len() >= 30,
        entry.header_offset + payload_start(buf) + entry.compressed_size <= archive.len(),
        archive.len() <= u64::MAX,
    ensures
        match located(entry, buf) {
            Located::Here { data } => data == payload_in(archive, entry),
            Located::Elsewhere { start, end } => archive.subrange(start, end + 1) == payload_in(
                archive,
                entry,
            ),
            _ => false,
        },
{
    let header = archive.subrange(entry.header_offset as int, archive.len() as int);
    assert(payload_start(header) == payload_start(buf));
    if let Located::Here { data } = located(entry, buf) {
        assert(data =~= payload_in(archive, entry));
    }
}

/// The payload stands behind the thirty fixed bytes of the Local File Header, the name and
/// the extra field, whose lengths the header tells at bytes 26 and 28; as many bytes are
/// taken as the Central Directory says, whatever follows.
pub proof fn payload_stands_behind_its_header(
    entry: CdEntry,
    fixed: Seq<u8>,
    name: Seq<u8>,
    extra: Seq<u8>,
    data: Seq<u8>,
    rest: Seq<u8>,
)
    requires
        fixed.len() == 30,
        le16(fixed, 26) == name.len(),
        le16(fixed, 28) == extra.len(),
        entry.compressed_size == data.len(),
        30 + name.len() + extra.len() + data.len() <= u64::MAX,
    ensures
        located(entry, fixed + name + extra + data + rest) == (Located::Here { data }),
{
    let buf = fixed + name + extra + data + rest;
    assert(buf[26] == fixed[26] && buf[27] == fixed[27]);
    assert(buf[28] == fixed[28] && buf[29] == fixed[29]);
    let start = (30 + name.len() + extra.len()) as int;
    assert(buf.subrange(start, start + data.len()) =~= data);
}

/// Where the first read ends inside the payload, all of the payload is read again: from the
/// byte behind the header on, and as many bytes as the Central Directory says.
pub proof fn payload_is_read_again_as_a_whole(entry: CdEntry, buf: Seq<u8>)
    requires
        buf.len() >= 30,
        buf.len() < 30 + le16(buf, 26) + le16(buf, 28) + entry.compressed_size <= u64::MAX,
    ensures
        located(entry, buf) matches Located::Elsewhere { start, end } && {
            &&& start == entry.header_offset + 30 + le16(buf, 26) + le16(buf, 28)
            &&& end - start + 1 == entry.compressed_size
        },
{
}

/// A first read of fewer than thirty bytes holds no header, and a payload that would end
/// beyond the 64-bit range is refused.
pub proof fn unreadable_headers_are_refused(entry: CdEntry, buf: Seq<u8>)
    ensures
        buf.len() < 30 ==> located(entry, buf) is Short,
        buf.len() >= 30 && 30 + le16(buf, 26) + le16(buf, 28) + entry.compressed_size > u64::MAX
            ==> located(entry, buf) is Implausible,
{
}

/// One read is enough wherever the name is as long as the Central Directory says and the
/// extra field has no more than 128 bytes.
pub proof fn one_read_is_enough(entry: CdEntry, buf: Seq<u8>)
    requires
        buf.len() == speculative_len(entry),
        buf.len() <= u64::MAX,
        le16(buf, 26) == name_len(entry),
        le16(buf, 28) <= 128,
    ensures
        located(entry, buf) is Here,
{
}

/// The first read asks for the fixed header, the name, room for the extra field and the
/// payload.
pub proof fn first_read_covers_header_and_payload(entry: CdEntry)
    requires
        encode_utf8(entry.filename@).len() <= usize::MAX,
    ensures
        speculative_len(entry) == 30 + encode_utf8(entry.filename@).len() + 128
            + entry.compressed_size,
        name_len(entry) == encode_utf8(entry.filename@).len(),
{
}

/// A second read fits unless it is needed and would end at or beyond the last 64-bit offset.
pub proof fn second_read_fits_below_the_limit(entry: CdEntry, buf: Seq<u8>)
    ensures
        buf.len() < 30 ==> second_read_fits(entry, buf),
        buf.len() >= 30 && 30 + le16(buf, 26) + le16(buf, 28) + entry.compressed_size <= buf.len()
            ==> second_read_fits(entry, buf),
        buf.len() >= 30 && entry.header_offset + 30 + le16(buf, 26) + le16(buf, 28)
            + entry.compressed_size <= u64::MAX ==> second_read_fits(entry, buf),
{
}

/// The first read starts at the Local File Header and asks for as many bytes as header, name,
/// room and payload take; an entry without a payload is not read.
pub proof fn first_read_starts_at_the_header(entry: &CdEntry, r: Option<(u64, u64)>)
    requires
        call_ensures(first_read, (entry,), r),
    ensures
        r is None <==> entry.compressed_size == 0,
        r matches Some((start, end)) ==> start == entry.header_offset && end - start + 1
            == speculative_len(*entry),
{
}

/// The payload that is found is the one behind the header.
pub proof fn payload_that_is_found_stands_behind_its_header(
    entry: &CdEntry,
    buf: Vec<u8>,
    r: Result<Payload, PayloadError>,
    fixed: Seq<u8>,
    name: Seq<u8>,
    extra: Seq<u8>,
    data: Seq<u8>,
    rest: Seq<u8>,
)
    requires
        call_ensures(locate_payload, (entry, buf), r),
        buf@ == fixed + name + extra + data + rest,
        fixed.len() == 30,
        le16(fixed, 26) == name.len(),
        le16(fixed, 28) == extra.len(),
        entry.compressed_size == data.len(),
        30 + name.len() + extra.len() + data.len() <= u64::MAX,
    ensures
        r matches Ok(Payload::Here { data: found }) && found@ == data,
{
    payload_stands_behind_its_header(*entry, fixed, name, extra, data, rest);
}

/// A short header and an implausible extent are told apart.
pub proof fn unreadable_headers_are_told_apart(
    entry: &CdEntry,
    buf: Vec<u8>,
    r: Result<Payload, PayloadError>,
)
    requires
        call_ensures(locate_payload, (entry, buf), r),
    ensures
        buf@.len() < 30 <==> r == Err::<Payload, PayloadError>(PayloadError::ShortHeader),
        r == Err::<Payload, PayloadError>(PayloadError::ImplausibleExtent) <==> buf@.len() >= 30
            && 30 + le16(buf@, 26) + le16(buf@, 28) + entry.compressed_size > u64::MAX,
{
}

} // verus!
