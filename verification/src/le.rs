//! Little-endian integers inside byte buffers.
use vstd::prelude::*;

verus! {

/// The two bytes at `i`, low byte first.
pub open spec fn le16(b: Seq<u8>, i: int) -> nat {
    b[i] as nat + 0x100 * (b[i + 1] as nat)
}

/// The four bytes at `i`, low byte first.
pub open spec fn le32(b: Seq<u8>, i: int) -> nat {
    le16(b, i) + 0x1_0000 * le16(b, i + 2)
}

/// The eight bytes at `i`, low byte first.
pub open spec fn le64(b: Seq<u8>, i: int) -> nat {
    le32(b, i) + 0x1_0000_0000 * le32(b, i + 4)
}

/// Read the two bytes at `i`.
pub fn read_u16(b: &[u8], i: usize) -> (r: u16)
    requires
        i + 2 <= b@.len(),
    ensures
        r == le16(b@, i as int),
{
    let n: usize = b.len();
    let lo: u16 = b[i] as u16;
    let hi: u16 = b[i + 1] as u16;
    lo + 0x100 * hi
}

/// Read the four bytes at `i`.
pub fn read_u32(b: &[u8], i: usize) -> (r: u32)
    requires
        i + 4 <= b@.len(),
    ensures
        r == le32(b@, i as int),
{
    let n: usize = b.len();
    let lo: u32 = read_u16(b, i) as u32;
    let hi: u32 = read_u16(b, i + 2) as u32;
    lo + 0x1_0000 * hi
}

/// Read the eight bytes at `i`.
pub fn read_u64(b: &[u8], i: usize) -> (r: u64)
    requires
        i + 8 <= b@.len(),
    ensures
        r == le64(b@, i as int),
{
    let n: usize = b.len();
    let lo: u64 = read_u32(b, i) as u64;
    let hi: u64 = read_u32(b, i + 4) as u64;
    lo + 0x1_0000_0000 * hi
}

/// The four bytes of a number, low byte first.
pub open spec fn le32_bytes(n: nat) -> Seq<u8> {
    seq![
        (n % 0x100) as u8,
        (n / 0x100 % 0x100) as u8,
        (n / 0x1_0000 % 0x100) as u8,
        (n / 0x100_0000 % 0x100) as u8,
    ]
}

/// The eight bytes of a number, low byte first.
pub open spec fn le64_bytes(n: nat) -> Seq<u8> {
    le32_bytes(n % 0x1_0000_0000) + le32_bytes(n / 0x1_0000_0000)
}

/// Append the four bytes of `n`.
pub fn push_u32(out: &mut Vec<u8>, n: u32)
    ensures
        final(out)@ == old(out)@ + le32_bytes(n as nat),
{
    out.push((n % 0x100) as u8);
    out.push((n / 0x100 % 0x100) as u8);
    out.push((n / 0x1_0000 % 0x100) as u8);
    out.push((n / 0x100_0000 % 0x100) as u8);
    assert(out@ =~= old(out)@ + le32_bytes(n as nat));
}

/// Append the eight bytes of `n`.
pub fn push_u64(out: &mut Vec<u8>, n: u64)
    ensures
        final(out)@ == old(out)@ + le64_bytes(n as nat),
{
    push_u32(out, (n % 0x1_0000_0000) as u32);
    push_u32(out, (n / 0x1_0000_0000) as u32);
    assert(out@ =~= old(out)@ + le64_bytes(n as nat));
}

/// Writing a number and reading it back gives the number.
pub proof fn le32_roundtrip(n: nat)
    requires
        n <= u32::MAX,
    ensures
        le32_bytes(n).len() == 4,
        le32(le32_bytes(n), 0) == n,
{
}

/// Writing a number and reading it back gives the number.
pub proof fn le64_roundtrip(n: nat)
    requires
        n <= u64::MAX,
    ensures
        le64_bytes(n).len() == 8,
        le64(le64_bytes(n), 0) == n,
{
    let lo = n % 0x1_0000_0000;
    let hi = n / 0x1_0000_0000;
    le32_roundtrip(lo);
    le32_roundtrip(hi);
    let b = le64_bytes(n);
    assert(le32(b, 0) == le32(le32_bytes(lo), 0));
    assert(le32(b, 4) == le32(le32_bytes(hi), 0));
}

/// Each byte weighs 256 times as much as the one before it.
pub proof fn later_bytes_weigh_more(b: Seq<u8>, i: int)
    ensures
        le16(b, i) == b[i] + 256 * b[i + 1],
        le32(b, i) == b[i] + 256 * b[i + 1] + 65536 * b[i + 2] + 16777216 * b[i + 3],
        le64(b, i) == b[i] + 256 * b[i + 1] + 65536 * b[i + 2] + 16777216 * b[i + 3] + 4294967296 * (
        b[i + 4] + 256 * b[i + 5] + 65536 * b[i + 6] + 16777216 * b[i + 7]),
{
}

} // verus!
