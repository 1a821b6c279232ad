//! The options of a run, and the warnings on those that ask for much.
use vstd::prelude::*;
use vstd::string::*;

use crate::text::{decimal, decimal_of, prefix_is_what_comes_first, starts_with};

verus! {

/// The largest decompressed size of an entry that is accepted by default, in MiB.
pub const DEFAULT_MAX_ENTRY_MIB: u64 = 256;

/// How many decompressed bytes may be in memory at once before a warning is due.
pub const MEMORY_CEILING_WARN_BYTES: u64 = 8589934592;

/// How many connections may be open at once before a warning is due.
pub const CONCURRENCY_WARN_THRESHOLD: usize = 200;

/// The options of a run.
#[derive(Clone, Copy, Debug)]
pub struct ClipOptions {
    /// How many downloads of one archive run at once.
    pub concurrency: usize,
    /// How many archives of a package are clipped at once.
    pub archive_concurrency: usize,
    pub progress: bool,
    pub debug: bool,
    /// The largest decompressed size of an entry that is accepted.
    pub max_entry_bytes: u64,
}

/// The limit on an entry in bytes, where 64 bits hold it.
pub fn entry_limit(max_entry_mib: u64) -> (r: Option<u64>)
    ensures
        match r {
            Some(bytes) => bytes == max_entry_mib * 1048576 && bytes < u64::MAX,
            None => max_entry_mib * 1048576 > u64::MAX,
        },
{
    max_entry_mib.checked_mul(1048576)
}

/// The product, or `limit` where it would be larger.
pub open spec fn product_upto(a: nat, b: nat, limit: nat) -> nat {
    if a * b > limit {
        limit
    } else {
        a * b
    }
}

/// Warn where the archives of a package together open many connections.
pub fn connection_warning(archive_concurrency: usize, concurrency: usize) -> (r: Option<String>)
    ensures
        ({
            let total = product_upto(
                archive_concurrency as nat,
                concurrency as nat,
                usize::MAX as nat,
            );
            if total > CONCURRENCY_WARN_THRESHOLD {
                r is Some && r->0@ == "[WARN] --archive-concurrency ("@ + decimal(
                    archive_concurrency as nat,
                ) + ") * --concurrency ("@ + decimal(concurrency as nat) + ") allows up to "@
                    + decimal(total)
                    + " concurrent S3 connections, which may exhaust local sockets or trip S3 rate limits. Consider lowering one of these."@
            } else {
                r is None
            }
        }),
{
    let total: usize = match archive_concurrency.checked_mul(concurrency) {
        Some(total) => total,
        None => usize::MAX,
    };
    if total <= CONCURRENCY_WARN_THRESHOLD {
        return None;
    }
    let mut s = "[WARN] --archive-concurrency (".to_owned();
    s.append(decimal_of(archive_concurrency as u64).as_str());
    s.append(") * --concurrency (");
    s.append(decimal_of(concurrency as u64).as_str());
    s.append(") allows up to ");
    s.append(decimal_of(total as u64).as_str());
    s.append(
        " concurrent S3 connections, which may exhaust local sockets or trip S3 rate limits. Consider lowering one of these.",
    );
    Some(s)
}

/// Warn where the entries that are in flight together could fill the memory.
pub fn memory_warning(max_entry_mib: u64, concurrency: usize, max_entry_bytes: u64) -> (r: Option<
    String,
>)
    ensures
        ({
            let peak = product_upto(max_entry_bytes as nat, concurrency as nat, u64::MAX as nat);
            if peak > MEMORY_CEILING_WARN_BYTES {
                r is Some && r->0@ == "[WARN] --max-entry-size ("@ + decimal(max_entry_mib as nat)
                    + " MiB) * --concurrency ("@ + decimal(concurrency as nat)
                    + ") allows up to "@ + decimal(peak / 1073741824)
                    + " GiB of decompressed entries in memory at once. Consider lowering one of these."@
            } else {
                r is None
            }
        }),
{
    let peak: u64 = match max_entry_bytes.checked_mul(concurrency as u64) {
        Some(peak) => peak,
        None => u64::MAX,
    };
    if peak <= MEMORY_CEILING_WARN_BYTES {
        return None;
    }
    let mut s = "[WARN] --max-entry-size (".to_owned();
    s.append(decimal_of(max_entry_mib).as_str());
    s.append(" MiB) * --concurrency (");
    s.append(decimal_of(concurrency as u64).as_str());
    s.append(") allows up to ");
    s.append(decimal_of(peak / 1073741824).as_str());
    s.append(" GiB of decompressed entries in memory at once. Consider lowering one of these.");
    Some(s)
}

/// A product is held to its limit: it is the product itself as long as that does not exceed
/// the limit, and never more than either.
pub proof fn product_is_held_to_its_limit(a: nat, b: nat, limit: nat)
    ensures
        a * b <= limit ==> product_upto(a, b, limit) == a * b,
        a * b >= limit ==> product_upto(a, b, limit) == limit,
{
}

/// By default an entry may have 256 MiB; a warning is due above 8 GiB in memory and above
/// 200 connections.
pub proof fn warnings_are_due_above_their_limits()
    ensures
        DEFAULT_MAX_ENTRY_MIB == 256,
        MEMORY_CEILING_WARN_BYTES == 8 * 1024 * 1024 * 1024,
        CONCURRENCY_WARN_THRESHOLD == 200,
{
}

/// The limit on an entry is that many MiB, and there is none where 64 bits do not hold it.
pub proof fn entry_limit_counts_in_mebibytes(max_entry_mib: u64, r: Option<u64>)
    requires
        call_ensures(entry_limit, (max_entry_mib,), r),
    ensures
        r matches Some(bytes) ==> bytes == max_entry_mib * 1024 * 1024,
        r is None <==> max_entry_mib * 1024 * 1024 > u64::MAX,
{
}

/// Connections are warned of from 201 on.
pub proof fn many_connections_are_warned_of(
    archives: usize,
    concurrency: usize,
    r: Option<String>,
)
    requires
        call_ensures(connection_warning, (archives, concurrency), r),
    ensures
        r is Some <==> archives * concurrency > 200,
{
    assert(archives as nat * concurrency as nat == archives * concurrency);
}

/// Memory is warned of above 8 GiB.
pub proof fn much_memory_is_warned_of(
    max_entry_mib: u64,
    concurrency: usize,
    max_entry_bytes: u64,
    r: Option<String>,
)
    requires
        call_ensures(memory_warning, (max_entry_mib, concurrency, max_entry_bytes), r),
    ensures
        r is Some <==> max_entry_bytes * concurrency > 8 * 1024 * 1024 * 1024,
{
    assert(max_entry_bytes as nat * concurrency as nat == max_entry_bytes * concurrency);
}

/// The warning on connections names both factors and their product.
pub proof fn connection_warning_names_the_product(
    archives: usize,
    concurrency: usize,
    r: Option<String>,
)
    requires
        call_ensures(connection_warning, (archives, concurrency), r),
        r is Some,
        archives * concurrency <= usize::MAX,
    ensures
        starts_with(
            r->0@,
            "[WARN] --archive-concurrency ("@ + decimal(archives as nat) + ") * --concurrency ("@
                + decimal(concurrency as nat) + ") allows up to "@ + decimal(
                (archives * concurrency) as nat,
            ),
        ),
{
    let total = product_upto(archives as nat, concurrency as nat, usize::MAX as nat);
    assert(archives as nat * concurrency as nat == archives * concurrency);
    let head = "[WARN] --archive-concurrency ("@ + decimal(archives as nat)
        + ") * --concurrency ("@ + decimal(concurrency as nat) + ") allows up to "@ + decimal(
        total,
    );
    prefix_is_what_comes_first(
        r->0@,
        head,
        " concurrent S3 connections, which may exhaust local sockets or trip S3 rate limits. Consider lowering one of these."@,
    );
}

/// The warning on memory names both factors and their product in GiB.
pub proof fn memory_warning_names_the_product(
    max_entry_mib: u64,
    concurrency: usize,
    max_entry_bytes: u64,
    r: Option<String>,
)
    requires
        call_ensures(memory_warning, (max_entry_mib, concurrency, max_entry_bytes), r),
        r is Some,
        max_entry_bytes * concurrency <= u64::MAX,
    ensures
        starts_with(
            r->0@,
            "[WARN] --max-entry-size ("@ + decimal(max_entry_mib as nat)
                + " MiB) * --concurrency ("@ + decimal(concurrency as nat) + ") allows up to "@
                + decimal((max_entry_bytes * concurrency / 1073741824) as nat),
        ),
{
    let peak = product_upto(max_entry_bytes as nat, concurrency as nat, u64::MAX as nat);
    assert(max_entry_bytes as nat * concurrency as nat == max_entry_bytes * concurrency);
    let head = "[WARN] --max-entry-size ("@ + decimal(max_entry_mib as nat)
        + " MiB) * --concurrency ("@ + decimal(concurrency as nat) + ") allows up to "@ + decimal(
        peak / 1073741824,
    );
    prefix_is_what_comes_first(
        r->0@,
        head,
        " GiB of decompressed entries in memory at once. Consider lowering one of these."@,
    );
}

} // verus!
