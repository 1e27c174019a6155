//! Little-endian numbers in byte sequences.

use vstd::prelude::*;

verus! {

/// The 16-bit number at position `i`, least significant byte first.
#[verifier::opaque]
pub open spec fn le16(s: Seq<u8>, i: int) -> int {
    s[i] + 256 * s[i + 1]
}

/// The 32-bit number at position `i`, least significant byte first.
#[verifier::opaque]
pub open spec fn le32(s: Seq<u8>, i: int) -> int {
    le16(s, i) + 65536 * le16(s, i + 2)
}

/// The 64-bit number at position `i`, least significant byte first.
#[verifier::opaque]
pub open spec fn le64(s: Seq<u8>, i: int) -> int {
    le32(s, i) + 4294967296 * le32(s, i + 4)
}

/// The two bytes of a number, least significant first.
#[verifier::opaque]
pub open spec fn le16_bytes(x: int) -> Seq<u8> {
    seq![(x % 256) as u8, (x / 256 % 256) as u8]
}

/// The four low bytes of a number, least significant first.
#[verifier::opaque]
pub open spec fn le32_bytes(x: int) -> Seq<u8> {
    le16_bytes(x % 65536) + le16_bytes(x / 65536 % 65536)
}

/// The eight bytes of a number, least significant first.
#[verifier::opaque]
pub open spec fn le64_bytes(x: int) -> Seq<u8> {
    le32_bytes(x % 4294967296) + le32_bytes(x / 4294967296 % 4294967296)
}

/// Reading back a written 16-bit number gives the number.
pub proof fn le16_roundtrip(x: int)
    requires
        0 <= x < 65536,
    ensures
        le16_bytes(x).len() == 2,
        le16(le16_bytes(x), 0) == x,
{
    reveal(le16);
    reveal(le16_bytes);
}

/// Reading back a written 32-bit number gives the number.
pub proof fn le32_roundtrip(x: int)
    requires
        0 <= x < 4294967296,
    ensures
        le32_bytes(x).len() == 4,
        le32(le32_bytes(x), 0) == x,
{
    reveal(le16);
    reveal(le32);
    reveal(le32_bytes);
    le16_roundtrip(x % 65536);
    le16_roundtrip(x / 65536 % 65536);
}

/// Reading back a written 64-bit number gives the number.
pub proof fn le64_roundtrip(x: int)
    requires
        0 <= x < 18446744073709551616,
    ensures
        le64_bytes(x).len() == 8,
        le64(le64_bytes(x), 0) == x,
{
    reveal(le16);
    reveal(le32);
    reveal(le64);
    reveal(le64_bytes);
    let lo: int = x % 4294967296;
    let hi: int = x / 4294967296 % 4294967296;
    le32_roundtrip(lo);
    le32_roundtrip(hi);
    let b = le64_bytes(x);
    assert(le32(b, 0) == le32(le32_bytes(lo), 0));
    assert(le32(b, 4) == le32(le32_bytes(hi), 0));
}

/// The 16-bit number at position `i`.
pub fn read16(s: &[u8], i: usize) -> (r: u16)
    requires
        i + 2 <= s.len(),
    ensures
        r == le16(s@, i as int),
{
    proof {
        reveal(le16);
    }
    s[i] as u16 + 256 * (s[i + 1] as u16)
}

/// The 32-bit number at position `i`.
pub fn read32(s: &[u8], i: usize) -> (r: u32)
    requires
        i + 4 <= s.len(),
    ensures
        r == le32(s@, i as int),
{
    proof {
        reveal(le32);
    }
    read16(s, i) as u32 + 65536 * (read16(s, i + 2) as u32)
}

/// The 64-bit number at position `i`.
pub fn read64(s: &[u8], i: usize) -> (r: u64)
    requires
        i + 8 <= s.len(),
    ensures
        r == le64(s@, i as int),
{
    proof {
        reveal(le64);
    }
    read32(s, i) as u64 + 4294967296 * (read32(s, i + 4) as u64)
}

/// Appends the two bytes of a number.
pub fn push16(w: &mut Vec<u8>, x: u16)
    ensures
        final(w)@ == old(w)@ + le16_bytes(x as int),
{
    proof {
        reveal(le16_bytes);
    }
    w.push((x % 256) as u8);
    w.push((x / 256) as u8);
}

/// Appends the four bytes of a number.
pub fn push32(w: &mut Vec<u8>, x: u32)
    ensures
        final(w)@ == old(w)@ + le32_bytes(x as int),
{
    proof {
        reveal(le32_bytes);
    }
    push16(w, (x % 65536) as u16);
    push16(w, (x / 65536) as u16);
}

/// Appends the eight bytes of a number.
pub fn push64(w: &mut Vec<u8>, x: u64)
    ensures
        final(w)@ == old(w)@ + le64_bytes(x as int),
{
    proof {
        reveal(le64_bytes);
    }
    push32(w, (x % 4294967296) as u32);
    push32(w, (x / 4294967296) as u32);
}

/// Appends a run of bytes.
pub fn push_all(w: &mut Vec<u8>, s: &[u8])
    ensures
        final(w)@ == old(w)@ + s@,
{
    let mut i: usize = 0;
    while i < s.len()
        invariant
            i <= s.len(),
            w@ == old(w)@ + s@.take(i as int),
        decreases s.len() - i,
    {
        w.push(s[i]);
        i = i + 1;
        assert(w@ =~= old(w)@ + s@.take(i as int));
    }
    assert(s@.take(i as int) =~= s@);
}

/// A copy of a run of bytes.
pub fn copy_of(s: &[u8]) -> (r: Vec<u8>)
    ensures
        r@ == s@,
{
    let mut out: Vec<u8> = Vec::new();
    push_all(&mut out, s);
    assert(out@ =~= s@);
    out
}

/// Whether two runs of bytes are equal.
pub fn same_bytes(a: &[u8], b: &[u8]) -> (r: bool)
    ensures
        r == (a@ == b@),
{
    if a.len() != b.len() {
        return false;
    }
    let mut i: usize = 0;
    while i < a.len()
        invariant
            i <= a.len(),
            a.len() == b.len(),
            forall|k: int| 0 <= k < i ==> a@[k] == b@[k],
        decreases a.len() - i,
    {
        if a[i] != b[i] {
            return false;
        }
        i = i + 1;
    }
    assert(a@ =~= b@);
    true
}

/// Numbers stand with their low byte first: each further byte counts 256 times
/// as much as the one before it.
pub proof fn low_bytes_come_first(s: Seq<u8>, i: int, x: int)
    requires
        0 <= x,
    ensures
        le16(s, i) == s[i] + 256 * s[i + 1],
        le32(s, i) == s[i] + 256 * s[i + 1] + 65_536 * s[i + 2] + 16_777_216 * s[i + 3],
        le64(s, i) == s[i] + 256 * s[i + 1] + 65_536 * s[i + 2] + 16_777_216 * s[i + 3] + 4_294_967_296 * (s[i + 4] + 256 * s[i + 5] + 65_536 * s[i + 6]
            + 16_777_216 * s[i + 7]),
        x < 65_536 ==> le16_bytes(x)[0] == x % 256 && le16_bytes(x)[1] == x / 256,
        x < 4_294_967_296 ==> le32_bytes(x)[0] == x % 256 && le32_bytes(x)[3] == x / 16_777_216,
        le64_bytes(x)[0] == x % 256,
{
    reveal(le16);
    reveal(le32);
    reveal(le64);
    reveal(le16_bytes);
    reveal(le32_bytes);
    reveal(le64_bytes);
}

} // verus!
