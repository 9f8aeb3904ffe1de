//! Little-endian integer fields inside byte buffers.

use vstd::prelude::*;

verus! {

/// The four bytes of `x`, least significant first.
pub open spec fn u32_bytes(x: u32) -> Seq<u8> {
    seq![
        (x % 0x100) as u8,
        (x / 0x100 % 0x100) as u8,
        (x / 0x1_0000 % 0x100) as u8,
        (x / 0x100_0000) as u8,
    ]
}

/// The integer whose bytes, least significant first, are the first four of `s`.
pub open spec fn u32_of(s: Seq<u8>) -> u32 {
    (s[0] + s[1] * 0x100 + s[2] * 0x1_0000 + s[3] * 0x100_0000) as u32
}

/// The eight bytes of `x`, least significant first.
pub open spec fn u64_bytes(x: u64) -> Seq<u8> {
    u32_bytes((x % 0x1_0000_0000) as u32) + u32_bytes((x / 0x1_0000_0000) as u32)
}

/// The integer whose bytes, least significant first, are the first eight of `s`.
pub open spec fn u64_of(s: Seq<u8>) -> u64 {
    (u32_of(s) + u32_of(s.skip(4)) * 0x1_0000_0000) as u64
}

/// `data` with the bytes from `off` on replaced by `bytes`.
pub open spec fn splice(data: Seq<u8>, off: int, bytes: Seq<u8>) -> Seq<u8> {
    Seq::new(
        data.len(),
        |i: int|
            if off <= i < off + bytes.len() {
                bytes[i - off]
            } else {
                data[i]
            },
    )
}

/// The `u32` field of `data` at `off`.
pub open spec fn u32_at(data: Seq<u8>, off: int) -> u32 {
    u32_of(data.skip(off))
}

/// The `i32` field of `data` at `off`.
pub open spec fn i32_at(data: Seq<u8>, off: int) -> i32 {
    u32_at(data, off) as i32
}

/// The `u64` field of `data` at `off`.
pub open spec fn u64_at(data: Seq<u8>, off: int) -> u64 {
    u64_of(data.skip(off))
}

/// Writing the bytes of an integer and reading them back gives the integer.
pub proof fn law_u32_round_trip(x: u32)
    ensures
        u32_bytes(x).len() == 4,
        u32_of(u32_bytes(x)) == x,
{
}

/// Writing the bytes of an integer and reading them back gives the integer.
pub proof fn law_u64_round_trip(x: u64)
    ensures
        u64_bytes(x).len() == 8,
        u64_of(u64_bytes(x)) == x,
{
    let lo = (x % 0x1_0000_0000) as u32;
    let hi = (x / 0x1_0000_0000) as u32;
    law_u32_round_trip(lo);
    law_u32_round_trip(hi);
    assert(u64_bytes(x).skip(4) =~= u32_bytes(hi));
}

/// An `i32` survives the trip through its unsigned bit pattern.
pub proof fn law_i32_bits(v: i32)
    ensures
        (v as u32) as i32 == v,
{
    assert((v as u32) as i32 == v) by (bit_vector);
}

/// A field that lies outside a spliced range is unchanged.
pub proof fn lemma_splice_frame(data: Seq<u8>, off: int, bytes: Seq<u8>, at: int)
    requires
        0 <= off,
        0 <= at,
    ensures
        at + 4 <= data.len() && (at + 4 <= off || off + bytes.len() <= at) ==> u32_at(
            splice(data, off, bytes),
            at,
        ) == u32_at(data, at),
        at + 8 <= data.len() && (at + 8 <= off || off + bytes.len() <= at) ==> u64_at(
            splice(data, off, bytes),
            at,
        ) == u64_at(data, at),
{
    let d2 = splice(data, off, bytes);
    if at + 8 <= data.len() {
        assert(d2.skip(at).skip(4) =~= d2.skip(at + 4));
        assert(data.skip(at).skip(4) =~= data.skip(at + 4));
    }
}

/// A spliced field reads back as what was spliced in.
pub proof fn lemma_splice_read(data: Seq<u8>, off: int, x: u64, y: u32)
    requires
        0 <= off,
    ensures
        off + 8 <= data.len() ==> u64_at(splice(data, off, u64_bytes(x)), off) == x,
        off + 4 <= data.len() ==> u32_at(splice(data, off, u32_bytes(y)), off) == y,
{
    law_u64_round_trip(x);
    law_u32_round_trip(y);
    if off + 8 <= data.len() {
        let d2 = splice(data, off, u64_bytes(x)).skip(off);
        assert(d2.take(8) =~= u64_bytes(x));
        assert(forall|i: int| 0 <= i < 8 ==> d2[i] == #[trigger] u64_bytes(x)[i]);
        assert(forall|i: int| 0 <= i < 4 ==> d2.skip(4)[i] == #[trigger] u64_bytes(x).skip(4)[i]);
    }
    if off + 4 <= data.len() {
        let d2 = splice(data, off, u32_bytes(y)).skip(off);
        assert(forall|i: int| 0 <= i < 4 ==> d2[i] == #[trigger] u32_bytes(y)[i]);
    }
}

/// A field that lies within `data` reads the same when more bytes follow.
pub proof fn lemma_append_frame(data: Seq<u8>, more: Seq<u8>, at: int)
    requires
        0 <= at,
    ensures
        at + 4 <= data.len() ==> u32_at(data + more, at) == u32_at(data, at),
        at + 8 <= data.len() ==> u64_at(data + more, at) == u64_at(data, at),
{
    if at + 8 <= data.len() {
        assert((data + more).skip(at).skip(4) =~= (data + more).skip(at + 4));
        assert(data.skip(at).skip(4) =~= data.skip(at + 4));
    }
}

/// Reads the `u32` field at `off`.
pub fn read_u32(data: &[u8], off: usize) -> (x: u32)
    requires
        off + 4 <= data@.len(),
    ensures
        x == u32_at(data@, off as int),
{
    let a: u32 = data[off] as u32;
    let b: u32 = data[off + 1] as u32;
    let c: u32 = data[off + 2] as u32;
    let d: u32 = data[off + 3] as u32;
    a + b * 0x100 + c * 0x1_0000 + d * 0x100_0000
}

/// Reads the `i32` field at `off`.
pub fn read_i32(data: &[u8], off: usize) -> (x: i32)
    requires
        off + 4 <= data@.len(),
    ensures
        x == i32_at(data@, off as int),
{
    read_u32(data, off) as i32
}

/// Reads the `u64` field at `off`.
pub fn read_u64(data: &[u8], off: usize) -> (x: u64)
    requires
        off + 8 <= data@.len(),
    ensures
        x == u64_at(data@, off as int),
{
    assert(off + 8 <= data.len());
    let lo: u64 = read_u32(data, off) as u64;
    let hi: u64 = read_u32(data, off + 4) as u64;
    assert(data@.skip(off as int).skip(4) =~= data@.skip(off + 4));
    lo + hi * 0x1_0000_0000
}

/// Writes the `u32` field at `off`.
pub fn write_u32(data: &mut [u8], off: usize, x: u32)
    requires
        off + 4 <= old(data)@.len(),
    ensures
        final(data)@ == splice(old(data)@, off as int, u32_bytes(x)),
{
    data[off] = (x % 0x100) as u8;
    data[off + 1] = (x / 0x100 % 0x100) as u8;
    data[off + 2] = (x / 0x1_0000 % 0x100) as u8;
    data[off + 3] = (x / 0x100_0000) as u8;
    assert(data@ =~= splice(old(data)@, off as int, u32_bytes(x)));
}

/// Writes the `i32` field at `off`.
pub fn write_i32(data: &mut [u8], off: usize, x: i32)
    requires
        off + 4 <= old(data)@.len(),
    ensures
        final(data)@ == splice(old(data)@, off as int, u32_bytes(x as u32)),
{
    write_u32(data, off, x as u32);
}

/// Writes the `u64` field at `off`.
pub fn write_u64(data: &mut [u8], off: usize, x: u64)
    requires
        off + 8 <= old(data)@.len(),
    ensures
        final(data)@ == splice(old(data)@, off as int, u64_bytes(x)),
{
    assert(off + 8 <= data.len());
    write_u32(data, off, (x % 0x1_0000_0000) as u32);
    write_u32(data, off + 4, (x / 0x1_0000_0000) as u32);
    assert(data@ =~= splice(old(data)@, off as int, u64_bytes(x)));
}

/// Copies `src` to the bytes from `off` on.
pub fn write_bytes(data: &mut [u8], off: usize, src: &[u8])
    requires
        off + src@.len() <= old(data)@.len(),
    ensures
        final(data)@ == splice(old(data)@, off as int, src@),
{
    let mut i: usize = 0;
    let n: usize = src.len();
    while i < n
        invariant
            n == src@.len(),
            i <= n,
            off + n <= old(data)@.len(),
            data@ == splice(old(data)@, off as int, src@.take(i as int)),
        decreases n - i,
    {
        assert(off + i < data.len());
        data[off + i] = src[i];
        assert(data@ =~= splice(old(data)@, off as int, src@.take(i + 1)));
        i += 1;
    }
    assert(src@.take(n as int) =~= src@);
}

/// The `u64` field of `data` at `off`, with zero bytes past the end of `data`.
pub open spec fn padded_u64_at(data: Seq<u8>, off: int) -> u64 {
    u64_of(data.skip(off) + seq![0u8, 0u8, 0u8, 0u8, 0u8, 0u8, 0u8, 0u8])
}

/// Reads the `u64` field at `off`; bytes past the end of `data` count as zero.
pub fn read_u64_padded(data: &[u8], off: usize) -> (x: u64)
    requires
        off <= data@.len(),
    ensures
        x == padded_u64_at(data@, off as int),
{
    let ghost padded = data@.skip(off as int) + seq![0u8, 0u8, 0u8, 0u8, 0u8, 0u8, 0u8, 0u8];
    let mut buf: Vec<u8> = Vec::with_capacity(8);
    let mut i: usize = 0;
    while i < 8
        invariant
            i <= 8,
            off <= data@.len(),
            padded == data@.skip(off as int) + seq![0u8, 0u8, 0u8, 0u8, 0u8, 0u8, 0u8, 0u8],
            buf@ == padded.take(i as int),
        decreases 8 - i,
    {
        let byte: u8 = if i < data.len() - off {
            data[off + i]
        } else {
            0
        };
        buf.push(byte);
        assert(buf@ =~= padded.take(i + 1));
        i += 1;
    }
    let x: u64 = read_u64(buf.as_slice(), 0);
    proof {
        assert(buf@.skip(0) =~= buf@);
        assert(buf@.skip(4) =~= padded.skip(4).take(4));
    }
    x
}

/// The bytes of an integer are its digits to the base 256, least significant first.
pub proof fn law_digits(x: u32, y: u64)
    ensures
        u32_bytes(x).len() == 4,
        x == u32_bytes(x)[0] + 0x100 * u32_bytes(x)[1] + 0x1_0000 * u32_bytes(x)[2] + 0x100_0000
            * u32_bytes(x)[3],
        u64_bytes(y).len() == 8,
        y == u64_bytes(y)[0] + 0x100 * u64_bytes(y)[1] + 0x1_0000 * u64_bytes(y)[2] + 0x100_0000
            * u64_bytes(y)[3] + 0x1_0000_0000 * u64_bytes(y)[4] + 0x100_0000_0000 * u64_bytes(y)[5]
            + 0x1_0000_0000_0000 * u64_bytes(y)[6] + 0x100_0000_0000_0000 * u64_bytes(y)[7],
{
    law_u32_round_trip((y % 0x1_0000_0000) as u32);
    law_u32_round_trip((y / 0x1_0000_0000) as u32);
}

/// Reading a field takes in its bytes and no others: the bytes of what is read are
/// those of the field.
pub proof fn law_field_read(data: Seq<u8>, off: int)
    requires
        0 <= off,
    ensures
        off + 4 <= data.len() ==> u32_bytes(u32_at(data, off)) == data.subrange(off, off + 4),
        off + 4 <= data.len() ==> u32_bytes(i32_at(data, off) as u32) == data.subrange(
            off,
            off + 4,
        ),
        off + 8 <= data.len() ==> u64_bytes(u64_at(data, off)) == data.subrange(off, off + 8),
{
    if off + 4 <= data.len() {
        let x = u32_at(data, off);
        assert(((x as i32) as u32) == x) by (bit_vector);
        lemma_u32_back(data.skip(off));
        assert(data.skip(off).take(4) =~= data.subrange(off, off + 4));
    }
    if off + 8 <= data.len() {
        let lo = u32_of(data.skip(off));
        let hi = u32_of(data.skip(off).skip(4));
        lemma_u32_back(data.skip(off));
        lemma_u32_back(data.skip(off).skip(4));
        lemma_halves(lo, hi);
        assert(data.skip(off).take(4) + data.skip(off).skip(4).take(4) =~= data.subrange(
            off,
            off + 8,
        ));
    }
}

/// Four bytes are those of the integer that they make up.
proof fn lemma_u32_back(s: Seq<u8>)
    requires
        s.len() >= 4,
    ensures
        u32_bytes(u32_of(s)) == s.take(4),
{
    let a = s[0] as int;
    let b = s[1] as int;
    let c = s[2] as int;
    let d = s[3] as int;
    let x = a + b * 0x100 + c * 0x1_0000 + d * 0x100_0000;
    assert(u32_of(s) == x);
    assert(x % 0x100 == a);
    assert(x / 0x100 == b + c * 0x100 + d * 0x1_0000);
    assert(x / 0x100 % 0x100 == b);
    assert(x / 0x1_0000 == c + d * 0x100);
    assert(x / 0x1_0000 % 0x100 == c);
    assert(x / 0x100_0000 == d);
    assert(u32_bytes(u32_of(s)) =~= s.take(4));
}

/// The bytes of an integer made of two halves are those of the halves.
proof fn lemma_halves(lo: u32, hi: u32)
    ensures
        u64_bytes((lo + hi * 0x1_0000_0000) as u64) == u32_bytes(lo) + u32_bytes(hi),
{
    let y = lo + hi * 0x1_0000_0000;
    assert(y % 0x1_0000_0000 == lo);
    assert(y / 0x1_0000_0000 == hi);
}

/// Writing bytes puts them where they belong and changes nothing else.
pub proof fn law_splice(data: Seq<u8>, off: int, bytes: Seq<u8>)
    requires
        0 <= off,
        off + bytes.len() <= data.len(),
    ensures
        splice(data, off, bytes) == data.take(off) + bytes + data.skip((off + bytes.len()) as int),
{
    assert(splice(data, off, bytes) =~= data.take(off) + bytes + data.skip(
        (off + bytes.len()) as int,
    ));
}

/// A padded read takes in the bytes that are there, and zeros past the end.
pub proof fn law_padded_read(data: Seq<u8>, off: int, j: int)
    requires
        0 <= off <= data.len(),
        0 <= j < 8,
    ensures
        u64_bytes(padded_u64_at(data, off)).len() == 8,
        u64_bytes(padded_u64_at(data, off))[j] == (if off + j < data.len() {
            data[off + j]
        } else {
            0
        }),
        off + 8 <= data.len() ==> padded_u64_at(data, off) == u64_at(data, off),
{
    let padded = data.skip(off) + seq![0u8, 0u8, 0u8, 0u8, 0u8, 0u8, 0u8, 0u8];
    law_field_read(padded, 0);
    assert(padded.skip(0) =~= padded);
    assert(u64_bytes(padded_u64_at(data, off))[j] == padded.subrange(0, 8)[j]);
    if off + 8 <= data.len() {
        let d = data.skip(off);
        assert(padded.skip(4)[0] == d.skip(4)[0] && padded.skip(4)[1] == d.skip(4)[1]
            && padded.skip(4)[2] == d.skip(4)[2] && padded.skip(4)[3] == d.skip(4)[3]);
    }
}

} // verus!
