//! The compression layers of an entry: DEFLATE and Zstandard as zip methods, gzip as a
//! content encoding. Decoding is capped: an entry that would grow beyond the cap is an
//! error and never comes back truncated.
use std::io::Read;
use std::io::Write;

use vstd::prelude::*;
use vstd::string::*;

use crate::text::{decimal, decimal_of, prefix_is_what_comes_first, starts_with};

verus! {

/// The error of a read from a decompression stream.
#[verifier::external_type_specification]
#[verifier::external_body]
pub struct ExIoError(std::io::Error);

/// What reading at most `limit` bytes from the DEFLATE decoder of the input gives, or
/// nothing where the read fails.
pub uninterp spec fn inflated_upto(compressed: Seq<u8>, limit: u64) -> Option<Seq<u8>>;

/// What reading at most `limit` bytes from the gzip decoder of the input gives, or nothing
/// where the read fails.
pub uninterp spec fn gunzipped_upto(compressed: Seq<u8>, limit: u64) -> Option<Seq<u8>>;

/// What reading at most `limit` bytes from the Zstandard decoder of the input gives, or
/// nothing where the read fails.
pub uninterp spec fn unzstd_upto(compressed: Seq<u8>, limit: u64) -> Option<Seq<u8>>;

/// `flate2::read::DeflateDecoder`, read to its end through `Read::take`: the result is a
/// function of the input and the limit, no longer than the limit, and where it is shorter
/// the stream has ended there, so that a higher limit gives the same.
#[verifier::external_body]
fn read_deflate(compressed: &[u8], limit: u64) -> (r: Result<Vec<u8>, std::io::Error>)
    ensures
        match r {
            Ok(out) => inflated_upto(compressed@, limit) == Some(out@),
            Err(_) => inflated_upto(compressed@, limit) is None,
        },
        r matches Ok(out) ==> out@.len() <= limit && (out@.len() < limit ==> forall|l: u64|
            l >= limit ==> #[trigger] inflated_upto(compressed@, l) == Some(out@)),
{
    let mut out = Vec::new();
    flate2::read::DeflateDecoder::new(compressed).take(limit).read_to_end(&mut out)?;
    Ok(out)
}

/// `flate2::read::GzDecoder`, read to its end through `Read::take`: the result is a
/// function of the input and the limit, no longer than the limit, and where it is shorter
/// the stream has ended there, so that a higher limit gives the same.
#[verifier::external_body]
fn read_gzip(compressed: &[u8], limit: u64) -> (r: Result<Vec<u8>, std::io::Error>)
    ensures
        match r {
            Ok(out) => gunzipped_upto(compressed@, limit) == Some(out@),
            Err(_) => gunzipped_upto(compressed@, limit) is None,
        },
        r matches Ok(out) ==> out@.len() <= limit && (out@.len() < limit ==> forall|l: u64|
            l >= limit ==> #[trigger] gunzipped_upto(compressed@, l) == Some(out@)),
{
    let mut out = Vec::new();
    flate2::read::GzDecoder::new(compressed).take(limit).read_to_end(&mut out)?;
    Ok(out)
}

/// `zstd::Decoder`, read to its end through `Read::take`: the result is a function of the
/// input and the limit, no longer than the limit, and where it is shorter the stream has
/// ended there, so that a higher limit gives the same.
#[verifier::external_body]
fn read_zstd(compressed: &[u8], limit: u64) -> (r: Result<Vec<u8>, std::io::Error>)
    ensures
        match r {
            Ok(out) => unzstd_upto(compressed@, limit) == Some(out@),
            Err(_) => unzstd_upto(compressed@, limit) is None,
        },
        r matches Ok(out) ==> out@.len() <= limit && (out@.len() < limit ==> forall|l: u64|
            l >= limit ==> #[trigger] unzstd_upto(compressed@, l) == Some(out@)),
{
    let mut out = Vec::new();
    zstd::Decoder::new(compressed)?.take(limit).read_to_end(&mut out)?;
    Ok(out)
}

/// `flate2::write::GzEncoder` at its default level, writing to a `Vec`: it does not fail,
/// and what it writes, the gzip decoder reads back, whatever the limit, as long as the limit
/// covers the data. Which bytes it writes is left open.
#[verifier::external_body]
fn write_gzip(data: &[u8]) -> (r: Result<Vec<u8>, std::io::Error>)
    ensures
        r is Ok,
        r matches Ok(out) ==> forall|limit: u64|
            limit >= data@.len() ==> #[trigger] gunzipped_upto(out@, limit) == Some(data@),
{
    let mut encoder = flate2::write::GzEncoder::new(Vec::new(), flate2::Compression::default());
    encoder.write_all(data)?;
    encoder.finish()
}

/// Why an entry cannot be decoded.
#[derive(Debug)]
pub enum DecodeError {
    /// The entry grows beyond the cap.
    TooLarge { max_bytes: u64 },
    /// The stream is damaged.
    Stream { error: std::io::Error },
}

/// The two ways of failing, without the particulars.
pub enum DecodeFault {
    TooLarge,
    Stream,
}

impl DecodeError {
    /// Which way it failed.
    pub open spec fn fault(self) -> DecodeFault {
        match self {
            DecodeError::TooLarge { .. } => DecodeFault::TooLarge,
            DecodeError::Stream { .. } => DecodeFault::Stream,
        }
    }

    /// The error in words where the cap is at fault; a damaged stream has its own words.
    pub fn message(&self) -> (r: Option<String>)
        ensures
            match r {
                Some(s) => *self matches DecodeError::TooLarge { max_bytes } && s@
                    == "Entry exceeds the "@ + decimal((max_bytes / 1048576) as nat)
                    + " MiB decompressed-size limit (raise --max-entry-size to keep it)"@,
                None => *self is Stream,
            },
    {
        match self {
            DecodeError::TooLarge { max_bytes } => {
                let mut s = "Entry exceeds the ".to_owned();
                let mib = decimal_of(*max_bytes / 1048576);
                s.append(mib.as_str());
                s.append(" MiB decompressed-size limit (raise --max-entry-size to keep it)");
                Some(s)
            },
            DecodeError::Stream { .. } => None,
        }
    }
}

/// What a capped read amounts to when one byte more than the cap was asked for: the whole
/// output where it stays within the cap.
pub open spec fn capped(read: Option<Seq<u8>>, max_bytes: u64) -> Result<Seq<u8>, DecodeFault> {
    match read {
        None => Err(DecodeFault::Stream),
        Some(out) => if out.len() > max_bytes {
            Err(DecodeFault::TooLarge)
        } else {
            Ok(out)
        },
    }
}

/// A result as its contract speaks of it.
pub open spec fn outcome(r: Result<Vec<u8>, DecodeError>) -> Result<Seq<u8>, DecodeFault> {
    match r {
        Ok(data) => Ok(data@),
        Err(e) => Err(e.fault()),
    }
}

/// What a read gave, without the particulars of a failure.
pub open spec fn read_outcome(r: Result<Vec<u8>, std::io::Error>) -> Option<Seq<u8>> {
    match r {
        Ok(data) => Some(data@),
        Err(_) => None,
    }
}

/// Accept what a decompression stream gave when asked for one byte more than `max_bytes`,
/// and fail, rather than truncate, where it gave more than `max_bytes`.
pub fn read_capped(read: Result<Vec<u8>, std::io::Error>, max_bytes: u64) -> (r: Result<
    Vec<u8>,
    DecodeError,
>)
    ensures
        outcome(r) == capped(read_outcome(read), max_bytes),
        read matches Err(e) ==> (r matches Err(DecodeError::Stream { error }) && error == e),
        r matches Err(DecodeError::TooLarge { max_bytes: cap }) ==> cap == max_bytes,
{
    match read {
        Ok(buf) => {
            if buf.len() as u64 > max_bytes {
                Err(DecodeError::TooLarge { max_bytes })
            } else {
                Ok(buf)
            }
        },
        Err(error) => Err(DecodeError::Stream { error }),
    }
}

/// Undo DEFLATE.
pub fn decompress_deflate(compressed: &[u8], max_bytes: u64) -> (r: Result<Vec<u8>, DecodeError>)
    requires
        max_bytes < u64::MAX,
    ensures
        outcome(r) == capped(inflated_upto(compressed@, (max_bytes + 1) as u64), max_bytes),
        r matches Ok(data) ==> forall|cap: u64|
            max_bytes <= cap < u64::MAX ==> #[trigger] capped(
                inflated_upto(compressed@, (cap + 1) as u64),
                cap,
            ) == Ok::<Seq<u8>, DecodeFault>(data@),
        r matches Err(DecodeError::TooLarge { max_bytes: cap }) ==> cap == max_bytes,
{
    read_capped(read_deflate(compressed, max_bytes + 1), max_bytes)
}

/// Undo gzip.
pub fn decompress_gzip(compressed: &[u8], max_bytes: u64) -> (r: Result<Vec<u8>, DecodeError>)
    requires
        max_bytes < u64::MAX,
    ensures
        outcome(r) == capped(gunzipped_upto(compressed@, (max_bytes + 1) as u64), max_bytes),
        r matches Ok(data) ==> forall|cap: u64|
            max_bytes <= cap < u64::MAX ==> #[trigger] capped(
                gunzipped_upto(compressed@, (cap + 1) as u64),
                cap,
            ) == Ok::<Seq<u8>, DecodeFault>(data@),
        r matches Err(DecodeError::TooLarge { max_bytes: cap }) ==> cap == max_bytes,
{
    read_capped(read_gzip(compressed, max_bytes + 1), max_bytes)
}

/// Undo Zstandard.
pub fn decompress_zstd(compressed: &[u8], max_bytes: u64) -> (r: Result<Vec<u8>, DecodeError>)
    requires
        max_bytes < u64::MAX,
    ensures
        outcome(r) == capped(unzstd_upto(compressed@, (max_bytes + 1) as u64), max_bytes),
        r matches Ok(data) ==> forall|cap: u64|
            max_bytes <= cap < u64::MAX ==> #[trigger] capped(
                unzstd_upto(compressed@, (cap + 1) as u64),
                cap,
            ) == Ok::<Seq<u8>, DecodeFault>(data@),
        r matches Err(DecodeError::TooLarge { max_bytes: cap }) ==> cap == max_bytes,
{
    read_capped(read_zstd(compressed, max_bytes + 1), max_bytes)
}

/// An entry without its zip layer: DEFLATE for method 8, Zstandard for method 93, and the
/// bytes as they are for every other method.
pub open spec fn unzipped(raw: Seq<u8>, comp_method: u16, max_bytes: u64) -> Result<
    Seq<u8>,
    DecodeFault,
> {
    if comp_method == 8 {
        capped(inflated_upto(raw, (max_bytes + 1) as u64), max_bytes)
    } else if comp_method == 93 {
        capped(unzstd_upto(raw, (max_bytes + 1) as u64), max_bytes)
    } else {
        Ok(raw)
    }
}

/// An entry without its zip layer and, where `gunzip` asks for it, without the gzip
/// encoding below. What counts against the cap is the size after decoding, also of a stored
/// entry; besides, each compressed layer is capped by itself.
pub open spec fn decoded(raw: Seq<u8>, comp_method: u16, gunzip: bool, max_bytes: u64) -> Result<
    Seq<u8>,
    DecodeFault,
> {
    match unzipped(raw, comp_method, max_bytes) {
        Ok(data) => if gunzip {
            capped(gunzipped_upto(data, (max_bytes + 1) as u64), max_bytes)
        } else {
            capped(Some(data), max_bytes)
        },
        Err(e) => Err(e),
    }
}

/// Undo an entry's zip layer and, only where `gunzip` asks for it, its gzip encoding.
pub fn decode_entry(raw: Vec<u8>, comp_method: u16, gunzip: bool, max_bytes: u64) -> (r: Result<
    Vec<u8>,
    DecodeError,
>)
    requires
        max_bytes < u64::MAX,
    ensures
        outcome(r) == decoded(raw@, comp_method, gunzip, max_bytes),
        // Raising the cap changes nothing for an entry that fits.
        r matches Ok(data) ==> forall|cap: u64|
            max_bytes <= cap < u64::MAX ==> #[trigger] decoded(raw@, comp_method, gunzip, cap)
                == Ok::<Seq<u8>, DecodeFault>(data@),
        r matches Err(DecodeError::TooLarge { max_bytes: cap }) ==> cap == max_bytes,
{
    let file_data = match comp_method {
        8 => match decompress_deflate(raw.as_slice(), max_bytes) {
            Ok(data) => data,
            Err(e) => {
                return Err(e);
            },
        },
        93 => match decompress_zstd(raw.as_slice(), max_bytes) {
            Ok(data) => data,
            Err(e) => {
                return Err(e);
            },
        },
        _ => raw,
    };
    if gunzip {
        decompress_gzip(file_data.as_slice(), max_bytes)
    } else {
        read_capped(Ok(file_data), max_bytes)
    }
}

/// Encode a rewritten document as gzip again. That does not fail, and decoding gives the
/// document back under any cap that it fits in.
pub fn encode_gzip(data: &[u8]) -> (r: Result<Vec<u8>, DecodeError>)
    ensures
        r is Ok,
        r matches Ok(out) ==> forall|max_bytes: u64|
            data@.len() <= max_bytes < u64::MAX ==> #[trigger] decoded(out@, 0, true, max_bytes)
                == Ok::<Seq<u8>, DecodeFault>(data@),
{
    match write_gzip(data) {
        Ok(out) => Ok(out),
        Err(error) => Err(DecodeError::Stream { error }),
    }
}

/// Whether a payload of `len` bytes needs per-entry ZIP64 headers when written: only past
/// the largest size that 32 bits describe.
pub fn needs_zip64(len: usize) -> (r: bool)
    ensures
        r == (len > u32::MAX),
{
    len as u64 > u32::MAX as u64
}

/// Where the zip layer alone is undone, a stored entry within the cap comes back as it was.
pub proof fn stored_entry_is_unchanged(raw: Seq<u8>, comp_method: u16, max_bytes: u64)
    requires
        comp_method != 8,
        comp_method != 93,
        raw.len() <= max_bytes,
    ensures
        decoded(raw, comp_method, false, max_bytes) == Ok::<Seq<u8>, DecodeFault>(raw),
{
}

/// Decoding with the gzip encoding is decoding without it and undoing gzip then. Left out are
/// stored entries above the cap: there the gzip stream itself is refused, while its content
/// may fit.
pub proof fn gunzip_comes_last(raw: Seq<u8>, comp_method: u16, max_bytes: u64)
    requires
        comp_method == 8 || comp_method == 93 || raw.len() <= max_bytes,
    ensures
        decoded(raw, comp_method, true, max_bytes) == (match decoded(
            raw,
            comp_method,
            false,
            max_bytes,
        ) {
            Ok(data) => capped(gunzipped_upto(data, (max_bytes + 1) as u64), max_bytes),
            Err(fault) => Err(fault),
        }),
{
}

/// No entry ever yields more than the cap, stored or compressed.
pub proof fn decoded_stays_within_cap(raw: Seq<u8>, comp_method: u16, gunzip: bool, max_bytes: u64)
    ensures
        decoded(raw, comp_method, gunzip, max_bytes) matches Ok(data) ==> data.len() <= max_bytes,
{
}

/// A read that failed is a damaged stream; one that gave more than the cap is too large; any
/// other gives all that it read, also where that is exactly the cap.
pub proof fn cap_refuses_only_what_exceeds_it(out: Seq<u8>, max_bytes: u64)
    ensures
        capped(None, max_bytes) == Err::<Seq<u8>, DecodeFault>(DecodeFault::Stream),
        out.len() <= max_bytes ==> capped(Some(out), max_bytes) == Ok::<Seq<u8>, DecodeFault>(out),
        out.len() > max_bytes ==> capped(Some(out), max_bytes) == Err::<Seq<u8>, DecodeFault>(
            DecodeFault::TooLarge,
        ),
{
}

/// An entry of method 8 is what its DEFLATE stream gives, and one of method 93 what its
/// Zstandard stream gives, each asked for one byte more than the cap.
pub proof fn method_tells_the_stream(raw: Seq<u8>, data: Seq<u8>, max_bytes: u64)
    requires
        max_bytes < u64::MAX,
    ensures
        inflated_upto(raw, (max_bytes + 1) as u64) == Some(data) && data.len() <= max_bytes
            ==> decoded(raw, 8, false, max_bytes) == Ok::<Seq<u8>, DecodeFault>(data),
        unzstd_upto(raw, (max_bytes + 1) as u64) == Some(data) && data.len() <= max_bytes
            ==> decoded(raw, 93, false, max_bytes) == Ok::<Seq<u8>, DecodeFault>(data),
        inflated_upto(raw, (max_bytes + 1) as u64) is None ==> decoded(raw, 8, false, max_bytes)
            == Err::<Seq<u8>, DecodeFault>(DecodeFault::Stream),
        unzstd_upto(raw, (max_bytes + 1) as u64) is None ==> decoded(raw, 93, false, max_bytes)
            == Err::<Seq<u8>, DecodeFault>(DecodeFault::Stream),
        inflated_upto(raw, (max_bytes + 1) as u64) == Some(data) && data.len() > max_bytes
            ==> decoded(raw, 8, false, max_bytes) == Err::<Seq<u8>, DecodeFault>(
            DecodeFault::TooLarge,
        ),
        unzstd_upto(raw, (max_bytes + 1) as u64) == Some(data) && data.len() > max_bytes
            ==> decoded(raw, 93, false, max_bytes) == Err::<Seq<u8>, DecodeFault>(
            DecodeFault::TooLarge,
        ),
{
}

/// The gzip encoding is undone on what the zip layer holds: on the bytes themselves for a
/// stored entry, and on what came out of the stream for a compressed one.
pub proof fn gunzip_undoes_the_inner_encoding(
    raw: Seq<u8>,
    comp_method: u16,
    inner: Seq<u8>,
    data: Seq<u8>,
    max_bytes: u64,
)
    requires
        max_bytes < u64::MAX,
        match comp_method {
            8 => inflated_upto(raw, (max_bytes + 1) as u64) == Some(inner) && inner.len()
                <= max_bytes,
            93 => unzstd_upto(raw, (max_bytes + 1) as u64) == Some(inner) && inner.len()
                <= max_bytes,
            _ => inner == raw,
        },
    ensures
        gunzipped_upto(inner, (max_bytes + 1) as u64) == Some(data) && data.len() <= max_bytes
            ==> decoded(raw, comp_method, true, max_bytes) == Ok::<Seq<u8>, DecodeFault>(data),
        gunzipped_upto(inner, (max_bytes + 1) as u64) == Some(data) && data.len() > max_bytes
            ==> decoded(raw, comp_method, true, max_bytes) == Err::<Seq<u8>, DecodeFault>(
            DecodeFault::TooLarge,
        ),
        gunzipped_upto(inner, (max_bytes + 1) as u64) is None ==> decoded(
            raw,
            comp_method,
            true,
            max_bytes,
        ) == Err::<Seq<u8>, DecodeFault>(DecodeFault::Stream),
{
}

/// A stored entry above the cap is refused.
pub proof fn stored_entry_above_the_cap_is_refused(raw: Seq<u8>, comp_method: u16, max_bytes: u64)
    requires
        comp_method != 8,
        comp_method != 93,
        raw.len() > max_bytes,
    ensures
        decoded(raw, comp_method, false, max_bytes) == Err::<Seq<u8>, DecodeFault>(
            DecodeFault::TooLarge,
        ),
{
}

/// An error tells the way it failed.
pub proof fn errors_tell_their_fault(error: DecodeError, r: Result<Vec<u8>, DecodeError>)
    ensures
        error is TooLarge ==> error.fault() is TooLarge,
        error is Stream ==> error.fault() is Stream,
        r matches Ok(data) ==> outcome(r) == Ok::<Seq<u8>, DecodeFault>(data@),
        r matches Err(e) ==> outcome(r) == Err::<Seq<u8>, DecodeFault>(e.fault()),
{
}

/// Headers of the ZIP64 kind are needed from 4 GiB on.
pub proof fn zip64_is_needed_from_four_gibibytes(len: usize, r: bool)
    requires
        call_ensures(needs_zip64, (len,), r),
    ensures
        r <==> len >= 4 * 1024 * 1024 * 1024,
{
}

/// What is said of an entry above the cap names the cap in MiB.
pub proof fn complaint_names_the_cap(max_bytes: u64, r: Option<String>)
    requires
        call_ensures(DecodeError::message, (&DecodeError::TooLarge { max_bytes },), r),
    ensures
        r matches Some(s) && starts_with(
            s@,
            "Entry exceeds the "@ + decimal((max_bytes / 1048576) as nat) + " MiB"@,
        ),
{
    if let Some(s) = r {
        let tail = " MiB decompressed-size limit (raise --max-entry-size to keep it)"@;
        reveal_strlit(" MiB decompressed-size limit (raise --max-entry-size to keep it)");
        reveal_strlit(" MiB");
        let head = "Entry exceeds the "@ + decimal((max_bytes / 1048576) as nat);
        assert(tail =~= " MiB"@ + tail.skip(4));
        assert(s@ =~= (head + " MiB"@) + tail.skip(4));
        prefix_is_what_comes_first(s@, head + " MiB"@, tail.skip(4));
    }
}

} // verus!
