//! Little-endian fixed-width integers, the atoms of the wire format.

use vstd::prelude::*;

verus! {

/// The four bytes of `x`, least significant first.
#[verifier::opaque]
pub open spec fn u32_le(x: u32) -> Seq<u8> {
    seq![
        (x % 256) as u8,
        ((x / 256) % 256) as u8,
        ((x / 65536) % 256) as u8,
        (x / 16777216) as u8,
    ]
}

/// The integer whose little-endian bytes are `b0, b1, b2, b3`.
#[verifier::opaque]
pub open spec fn u32_of_bytes(b0: u8, b1: u8, b2: u8, b3: u8) -> u32 {
    (b0 as int + b1 as int * 256 + b2 as int * 65536 + b3 as int * 16777216) as u32
}

/// The little-endian `u32` stored in `s` at offset `i`.
pub open spec fn u32_at(s: Seq<u8>, i: int) -> u32
    recommends
        0 <= i,
        i + 4 <= s.len(),
{
    u32_of_bytes(s[i], s[i + 1], s[i + 2], s[i + 3])
}

/// The two's-complement bit pattern of `x`.
pub open spec fn i32_bits(x: i32) -> u32 {
    if x >= 0 {
        x as u32
    } else {
        (x + 0x1_0000_0000) as u32
    }
}

/// The signed integer whose two's-complement bit pattern is `u`.
pub open spec fn i32_of_bits(u: u32) -> i32 {
    if u < 0x8000_0000 {
        u as i32
    } else {
        (u - 0x1_0000_0000) as i32
    }
}

/// The four bytes of `x` in two's complement, least significant first.
pub open spec fn i32_le(x: i32) -> Seq<u8> {
    u32_le(i32_bits(x))
}

/// The little-endian `i32` stored in `s` at offset `i`.
pub open spec fn i32_at(s: Seq<u8>, i: int) -> i32
    recommends
        0 <= i,
        i + 4 <= s.len(),
{
    i32_of_bits(u32_at(s, i))
}

/// An integer is written as four bytes.
pub broadcast proof fn lemma_u32_le_len(x: u32)
    ensures
        #[trigger] u32_le(x).len() == 4,
{
    reveal(u32_le);
}

/// A signed integer is written as four bytes.
pub broadcast proof fn lemma_i32_le_len(x: i32)
    ensures
        #[trigger] i32_le(x).len() == 4,
{
    reveal(u32_le);
}

/// Reading back the bytes of an integer gives the integer.
pub proof fn lemma_u32_le_read(x: u32)
    ensures
        u32_le(x).len() == 4,
        u32_at(u32_le(x), 0) == x,
{
    reveal(u32_le);
    reveal(u32_of_bytes);
    let upper = x / 256;
    let top = upper / 256;
    assert(x / 65536 == top);
    assert(x / 16777216 == top / 256);
    assert(x == x % 256 + (upper % 256) * 256 + (top % 256) * 65536 + (top / 256) * 16777216);
}

/// Writing out an integer read from four bytes gives the four bytes.
pub proof fn lemma_u32_read_le(b0: u8, b1: u8, b2: u8, b3: u8)
    ensures
        u32_le(u32_of_bytes(b0, b1, b2, b3)) == seq![b0, b1, b2, b3],
{
    reveal(u32_le);
    reveal(u32_of_bytes);
    let x = u32_of_bytes(b0, b1, b2, b3);
    let upper = b1 as int + b2 as int * 256 + b3 as int * 65536;
    let top = b2 as int + b3 as int * 256;
    assert(x == b0 as int + upper * 256);
    assert(x / 256 == upper && x % 256 == b0);
    assert(upper == b1 as int + top * 256);
    assert(upper / 256 == top && upper % 256 == b1);
    assert(x / 65536 == top);
    assert(top / 256 == b3 as int && top % 256 == b2);
    assert(x / 16777216 == b3 as int);
    assert(u32_le(x) =~= seq![b0, b1, b2, b3]);
}

/// A signed integer and its bit pattern determine each other.
pub proof fn lemma_i32_bits_inverse(x: i32, u: u32)
    ensures
        i32_of_bits(i32_bits(x)) == x,
        i32_bits(i32_of_bits(u)) == u,
{
}

/// An integer written between any two byte sequences is read back where it
/// was written.
pub proof fn lemma_u32_at_written(before: Seq<u8>, x: u32, behind: Seq<u8>)
    ensures
        u32_at(before + u32_le(x) + behind, before.len() as int) == x,
{
    let s = before + u32_le(x) + behind;
    let i = before.len() as int;
    lemma_u32_le_read(x);
    assert(s[i] == u32_le(x)[0]);
    assert(s[i + 1] == u32_le(x)[1]);
    assert(s[i + 2] == u32_le(x)[2]);
    assert(s[i + 3] == u32_le(x)[3]);
}

/// A signed integer written between any two byte sequences is read back
/// where it was written.
pub proof fn lemma_i32_at_written(before: Seq<u8>, x: i32, behind: Seq<u8>)
    ensures
        i32_at(before + i32_le(x) + behind, before.len() as int) == x,
{
    lemma_u32_at_written(before, i32_bits(x), behind);
    lemma_i32_bits_inverse(x, 0);
}

/// What is read inside the first of two joined sequences does not depend on
/// the second.
pub proof fn lemma_u32_at_front(front: Seq<u8>, back: Seq<u8>, i: int)
    requires
        0 <= i,
        i + 4 <= front.len(),
    ensures
        u32_at(front + back, i) == u32_at(front, i),
{
}

/// What is read inside the second of two joined sequences does not depend on
/// the first, but for the offset.
pub proof fn lemma_u32_at_back(front: Seq<u8>, back: Seq<u8>, i: int)
    requires
        0 <= i,
        i + 4 <= back.len(),
    ensures
        u32_at(front + back, front.len() + i) == u32_at(back, i),
{
}

/// Appends the little-endian bytes of `x` to `out`.
pub fn put_u32(out: &mut Vec<u8>, x: u32)
    ensures
        final(out)@ == old(out)@ + u32_le(x),
{
    proof {
        reveal(u32_le);
    }
    out.push((x % 256) as u8);
    out.push(((x / 256) % 256) as u8);
    out.push(((x / 65536) % 256) as u8);
    out.push((x / 16777216) as u8);
    assert(out@ =~= old(out)@ + u32_le(x));
}

/// Appends the little-endian two's-complement bytes of `x` to `out`.
pub fn put_i32(out: &mut Vec<u8>, x: i32)
    ensures
        final(out)@ == old(out)@ + i32_le(x),
{
    let bits: u32 = if x >= 0 {
        x as u32
    } else {
        (x as i64 + 0x1_0000_0000i64) as u32
    };
    put_u32(out, bits);
}

/// Reads the little-endian `u32` stored in `bytes` at offset `at`.
pub fn read_u32(bytes: &Vec<u8>, at: usize) -> (x: u32)
    requires
        at + 4 <= bytes.len(),
    ensures
        x == u32_at(bytes@, at as int),
{
    proof {
        reveal(u32_of_bytes);
    }
    let b0: u32 = bytes[at] as u32;
    let b1: u32 = bytes[at + 1] as u32;
    let b2: u32 = bytes[at + 2] as u32;
    let b3: u32 = bytes[at + 3] as u32;
    b0 + b1 * 256 + b2 * 65536 + b3 * 16777216
}

/// Reads the little-endian `i32` stored in `bytes` at offset `at`.
pub fn read_i32(bytes: &Vec<u8>, at: usize) -> (x: i32)
    requires
        at + 4 <= bytes.len(),
    ensures
        x == i32_at(bytes@, at as int),
{
    let u: u32 = read_u32(bytes, at);
    if u < 0x8000_0000 {
        u as i32
    } else {
        (u as i64 - 0x1_0000_0000i64) as i32
    }
}

} // verus!
