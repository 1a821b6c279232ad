//! What is sent to an object store: locations, addresses and byte ranges in words.
use vstd::prelude::*;
use vstd::string::*;

use crate::text::{decimal, decimal_of};

verus! {

/// The endpoint that anonymous requests go to by default.
pub fn default_endpoint() -> (r: &'static str)
    ensures
        r@ == "https://s3.amazonaws.com"@,
{
    "https://s3.amazonaws.com"
}

/// The address of an object.
pub fn object_url(base_url: &str, bucket: &str, key: &str) -> (url: String)
    ensures
        url@ == base_url@ + "/"@ + bucket@ + "/"@ + key@,
{
    let mut url = base_url.to_owned();
    url.append("/");
    url.append(bucket);
    url.append("/");
    url.append(key);
    url
}

/// The location of an object, for messages.
pub fn object_location(bucket: &str, key: &str) -> (s: String)
    ensures
        s@ == "s3://"@ + bucket@ + "/"@ + key@,
{
    let mut s = "s3://".to_owned();
    s.append(bucket);
    s.append("/");
    s.append(key);
    s
}

/// The value of the range header for the inclusive byte range from `start` to `end`.
pub fn range_header(start: u64, end: u64) -> (s: String)
    ensures
        s@ == "bytes="@ + decimal(start as nat) + "-"@ + decimal(end as nat),
{
    let mut s = "bytes=".to_owned();
    s.append(decimal_of(start).as_str());
    s.append("-");
    s.append(decimal_of(end).as_str());
    s
}

/// How many bytes the inclusive range from `start` to `end` asks for, up to the largest
/// number that 64 bits hold.
pub fn range_len(start: u64, end: u64) -> (n: u64)
    ensures
        n == (if end < start {
            1
        } else if end - start == u64::MAX {
            u64::MAX as int
        } else {
            end - start + 1
        }),
{
    end.saturating_sub(start).saturating_add(1)
}

/// Said of a request that was not answered with success.
pub fn http_error_message(status: &str, url: &str) -> (s: String)
    ensures
        s@ == "HTTP Error: "@ + status@ + " for url "@ + url@,
{
    let mut s = "HTTP Error: ".to_owned();
    s.append(status);
    s.append(" for url ");
    s.append(url);
    s
}

/// An object has one address: that of the endpoint, the bucket and the key, with a slash
/// between each two.
pub proof fn address_is_endpoint_bucket_and_key(
    base_url: &str,
    bucket: &str,
    key: &str,
    url: String,
    location: String,
)
    requires
        call_ensures(object_url, (base_url, bucket, key), url),
        call_ensures(object_location, (bucket, key), location),
    ensures
        url@ == base_url@ + "/"@ + bucket@ + "/"@ + key@,
        location@ == "s3://"@ + bucket@ + "/"@ + key@,
{
}

/// The range header names the first and the last byte, and the length of the range counts
/// both.
pub proof fn range_counts_both_ends(start: u64, end: u64, header: String, n: u64)
    requires
        call_ensures(range_header, (start, end), header),
        call_ensures(range_len, (start, end), n),
    ensures
        header@ == "bytes="@ + decimal(start as nat) + "-"@ + decimal(end as nat),
        start <= end && end - start < u64::MAX ==> n == end - start + 1,
        start > end ==> n == 1,
        n > 0,
{
}

} // verus!
