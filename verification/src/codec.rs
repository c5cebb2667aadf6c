//! Big-endian words and the running two-word checksum of the write-ahead-log
//! format.

use byteorder::ByteOrder;
use vstd::prelude::*;

verus! {

/// The number that four bytes spell in big-endian order.
pub open spec fn be_u32(b: Seq<u8>) -> u32
    recommends
        b.len() >= 4,
{
    (b[0] as int * 0x100_0000 + b[1] as int * 0x1_0000 + b[2] as int * 0x100 + b[3] as int) as u32
}

/// The four bytes that spell `v` in big-endian order.
pub open spec fn be_bytes(v: u32) -> Seq<u8> {
    seq![
        (v / 0x100_0000) as u8,
        ((v / 0x1_0000) % 0x100) as u8,
        ((v / 0x100) % 0x100) as u8,
        (v % 0x100) as u8,
    ]
}

/// Reading back the bytes of a number gives the number, so distinct numbers
/// have distinct bytes.
pub proof fn lemma_be_round_trip(v: u32)
    ensures
        be_bytes(v).len() == 4,
        be_u32(be_bytes(v)) == v,
{
}

/// `byteorder::BigEndian::read_u32`: the first four bytes of `buf`, most
/// significant first, as one number. Shorter buffers are excluded because the
/// call panics on them.
#[verifier::external_body]
pub(crate) fn read_be_u32(buf: &[u8]) -> (v: u32)
    requires
        buf@.len() >= 4,
    ensures
        v == be_u32(buf@),
{
    byteorder::BigEndian::read_u32(buf)
}

/// `rand::random::<u32>`: a number from the thread's random generator. Nothing
/// is known of it.
#[verifier::external_body]
pub(crate) fn random_u32() -> (v: u32)
{
    rand::random::<u32>()
}

/// `byteorder::BigEndian::write_u32` on a four-byte buffer: the bytes of `v`,
/// most significant first.
#[verifier::external_body]
pub(crate) fn be_bytes_of(v: u32) -> (out: [u8; 4])
    ensures
        out@ == be_bytes(v),
{
    let mut out = [0u8; 4];
    byteorder::BigEndian::write_u32(&mut out, v);
    out
}

/// The big-endian word at byte offset `at` of `data`.
pub open spec fn word_at(data: Seq<u8>, at: int) -> u32
    recommends
        0 <= at,
        at + 4 <= data.len(),
{
    be_u32(data.subrange(at, at + 4))
}

/// Reads the big-endian word at byte offset `at`.
pub fn read_word(data: &[u8], at: usize) -> (v: u32)
    requires
        at + 4 <= data@.len(),
    ensures
        v == word_at(data@, at as int),
{
    let len = data.len();
    assert(at + 4 <= len);
    let part = vstd::slice::slice_subrange(data, at, at + 4);
    read_be_u32(part)
}

/// Appends the big-endian bytes of `v` to `out`.
pub fn push_word(out: &mut Vec<u8>, v: u32)
    ensures
        final(out)@ == old(out)@ + be_bytes(v),
{
    let bytes = be_bytes_of(v);
    out.push(bytes[0]);
    out.push(bytes[1]);
    out.push(bytes[2]);
    out.push(bytes[3]);
    assert(out@ =~= old(out)@ + be_bytes(v));
}

/// One step of the checksum: folds the two words `a` and `b` into the running
/// pair `(s0, s1)`, with wrapping arithmetic.
pub open spec fn chksum_step(s: (u32, u32), a: u32, b: u32) -> (u32, u32) {
    let s0 = s.0.wrapping_add(a).wrapping_add(s.1);
    let s1 = s.1.wrapping_add(b).wrapping_add(s0);
    (s0, s1)
}

/// The checksum of `data`, a whole number of eight-byte word pairs, threaded
/// forward from the seed `s`.
pub open spec fn chksum(s: (u32, u32), data: Seq<u8>) -> (u32, u32)
    decreases data.len(),
{
    if data.len() < 8 {
        s
    } else {
        let n = data.len() - 8;
        chksum_step(chksum(s, data.subrange(0, n)), word_at(data, n), word_at(data, n + 4))
    }
}

/// Computes the running checksum of `data` from the seed `(s0, s1)`.
pub fn sqlite_chksum(s0: u32, s1: u32, data: &[u8]) -> (sum: (u32, u32))
    requires
        data@.len() % 8 == 0,
    ensures
        sum == chksum((s0, s1), data@),
{
    let mut sum: (u32, u32) = (s0, s1);
    let mut i: usize = 0;
    assert(data@.subrange(0, 0).len() == 0);
    while i < data.len()
        invariant
            data@.len() % 8 == 0,
            i % 8 == 0,
            i <= data@.len(),
            sum == chksum((s0, s1), data@.subrange(0, i as int)),
        decreases data@.len() - i,
    {
        let a = read_word(data, i);
        let b = read_word(data, i + 4);
        proof {
            let next = data@.subrange(0, i + 8);
            assert(next.subrange(0, i as int) =~= data@.subrange(0, i as int));
            assert(next.subrange(i as int, i + 4) =~= data@.subrange(i as int, i + 4));
            assert(next.subrange(i + 4, i + 8) =~= data@.subrange(i + 4, i + 8));
        }
        let n0 = sum.0.wrapping_add(a).wrapping_add(sum.1);
        let n1 = sum.1.wrapping_add(b).wrapping_add(n0);
        sum = (n0, n1);
        i += 8;
    }
    assert(data@.subrange(0, i as int) =~= data@);
    sum
}

} // verus!
