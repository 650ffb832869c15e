//! Big-endian integers and byte buffers, as the binary encoding lays them out.
use vstd::prelude::*;

verus! {

/// The unsigned number that four bytes spell, most significant byte first.
pub open spec fn u32_of_bytes(b: Seq<u8>) -> u32
    recommends
        b.len() >= 4,
{
    (b[0] as int * 16777216 + b[1] as int * 65536 + b[2] as int * 256 + b[3] as int) as u32
}

/// The four bytes of an unsigned number, most significant byte first.
pub open spec fn bytes_of_u32(n: u32) -> Seq<u8> {
    seq![
        (n as int / 16777216) as u8,
        (n as int / 65536 % 256) as u8,
        (n as int / 256 % 256) as u8,
        (n as int % 256) as u8,
    ]
}

/// The unsigned number that eight bytes spell, most significant byte first.
pub open spec fn u64_of_bytes(b: Seq<u8>) -> u64
    recommends
        b.len() >= 8,
{
    (u32_of_bytes(b) as int * 4294967296 + u32_of_bytes(b.skip(4)) as int) as u64
}

/// The eight bytes of an unsigned number, most significant byte first.
pub open spec fn bytes_of_u64(n: u64) -> Seq<u8> {
    bytes_of_u32((n as int / 4294967296) as u32) + bytes_of_u32((n as int % 4294967296) as u32)
}

/// The signed number with the same 32 bits, in two's complement.
pub open spec fn i32_of_u32(u: u32) -> i32 {
    if u < 0x8000_0000 {
        u as i32
    } else {
        (u as int - 0x1_0000_0000) as i32
    }
}

/// The unsigned number with the same 32 bits, in two's complement.
pub open spec fn u32_of_i32(i: i32) -> u32 {
    if i >= 0 {
        i as u32
    } else {
        (i as int + 0x1_0000_0000) as u32
    }
}

/// The signed number with the same 64 bits, in two's complement.
pub open spec fn i64_of_u64(u: u64) -> i64 {
    if u < 0x8000_0000_0000_0000 {
        u as i64
    } else {
        (u as int - 0x1_0000_0000_0000_0000) as i64
    }
}

/// The unsigned number with the same 64 bits, in two's complement.
pub open spec fn u64_of_i64(i: i64) -> u64 {
    if i >= 0 {
        i as u64
    } else {
        (i as int + 0x1_0000_0000_0000_0000) as u64
    }
}

/// Reading back the bytes of a number gives the number.
pub proof fn lemma_u32_round_trip(n: u32)
    ensures
        bytes_of_u32(n).len() == 4,
        u32_of_bytes(bytes_of_u32(n)) == n,
{
}

/// Reading back the bytes of a number gives the number.
pub proof fn lemma_u64_round_trip(n: u64)
    ensures
        bytes_of_u64(n).len() == 8,
        u64_of_bytes(bytes_of_u64(n)) == n,
{
    let hi = (n as int / 4294967296) as u32;
    let lo = (n as int % 4294967296) as u32;
    lemma_u32_round_trip(hi);
    lemma_u32_round_trip(lo);
    let b = bytes_of_u64(n);
    assert(b.skip(4) =~= bytes_of_u32(lo));
    assert(b[0] == bytes_of_u32(hi)[0]);
    assert(b[1] == bytes_of_u32(hi)[1]);
    assert(b[2] == bytes_of_u32(hi)[2]);
    assert(b[3] == bytes_of_u32(hi)[3]);
}

/// The two's complement readings are inverse to each other.
pub proof fn lemma_signed_round_trip(i: i32, d: i64)
    ensures
        i32_of_u32(u32_of_i32(i)) == i,
        i64_of_u64(u64_of_i64(d)) == d,
{
}

/// Reads four bytes at `pos` as an unsigned number.
pub fn read_u32(b: &[u8], pos: usize) -> (n: u32)
    requires
        pos + 4 <= b@.len(),
    ensures
        n == u32_of_bytes(b@.skip(pos as int)),
{
    let len = b.len();
    assert(pos + 4 <= len);
    let n: u32 = (b[pos] as u32) * 16777216 + (b[pos + 1] as u32) * 65536 + (b[pos + 2] as u32)
        * 256 + (b[pos + 3] as u32);
    n
}

/// Reads eight bytes at `pos` as an unsigned number.
pub fn read_u64(b: &[u8], pos: usize) -> (n: u64)
    requires
        pos + 8 <= b@.len(),
    ensures
        n == u64_of_bytes(b@.skip(pos as int)),
{
    let len = b.len();
    assert(pos + 8 <= len);
    let hi = read_u32(b, pos);
    let lo = read_u32(b, pos + 4);
    assert(b@.skip(pos as int).skip(4) =~= b@.skip(pos as int + 4));
    (hi as u64) * 4294967296 + (lo as u64)
}

/// The signed reading of 32 bits.
pub fn to_i32(u: u32) -> (i: i32)
    ensures
        i == i32_of_u32(u),
{
    if u < 0x8000_0000 {
        u as i32
    } else {
        ((u - 0x8000_0000) as i32) + i32::MIN
    }
}

/// The unsigned reading of 32 bits.
pub fn to_u32(i: i32) -> (u: u32)
    ensures
        u == u32_of_i32(i),
{
    if i >= 0 {
        i as u32
    } else {
        ((i - i32::MIN) as u32) + 0x8000_0000
    }
}

/// The signed reading of 64 bits.
pub fn to_i64(u: u64) -> (i: i64)
    ensures
        i == i64_of_u64(u),
{
    if u < 0x8000_0000_0000_0000 {
        u as i64
    } else {
        ((u - 0x8000_0000_0000_0000) as i64) + i64::MIN
    }
}

/// The unsigned reading of 64 bits.
pub fn to_u64(i: i64) -> (u: u64)
    ensures
        u == u64_of_i64(i),
{
    if i >= 0 {
        i as u64
    } else {
        ((i - i64::MIN) as u64) + 0x8000_0000_0000_0000
    }
}

/// Appends the four bytes of a number.
pub fn write_u32(out: &mut Vec<u8>, n: u32)
    ensures
        final(out)@ == old(out)@ + bytes_of_u32(n),
{
    out.push((n / 16777216) as u8);
    out.push((n / 65536 % 256) as u8);
    out.push((n / 256 % 256) as u8);
    out.push((n % 256) as u8);
    assert(out@ =~= old(out)@ + bytes_of_u32(n));
}

/// Appends the eight bytes of a number.
pub fn write_u64(out: &mut Vec<u8>, n: u64)
    ensures
        final(out)@ == old(out)@ + bytes_of_u64(n),
{
    write_u32(out, (n / 4294967296) as u32);
    write_u32(out, (n % 4294967296) as u32);
    assert(out@ =~= old(out)@ + bytes_of_u64(n));
}

/// Appends a run of bytes.
pub fn write_bytes(out: &mut Vec<u8>, b: &[u8])
    ensures
        final(out)@ == old(out)@ + b@,
{
    let mut i: usize = 0;
    while i < b.len()
        invariant
            i <= b@.len(),
            out@ == old(out)@ + b@.take(i as int),
        decreases b@.len() - i,
    {
        out.push(b[i]);
        i = i + 1;
        assert(out@ =~= old(out)@ + b@.take(i as int));
    }
    assert(b@.take(b@.len() as int) =~= b@);
}

/// The bytes `b[from..to]`, copied.
pub fn copy_range(b: &[u8], from: usize, to: usize) -> (v: Vec<u8>)
    requires
        from <= to <= b@.len(),
    ensures
        v@ == b@.subrange(from as int, to as int),
{
    let mut v: Vec<u8> = Vec::new();
    let mut i: usize = from;
    while i < to
        invariant
            from <= i <= to <= b@.len(),
            v@ == b@.subrange(from as int, i as int),
        decreases to - i,
    {
        v.push(b[i]);
        i = i + 1;
        assert(v@ =~= b@.subrange(from as int, i as int));
    }
    v
}

} // verus!
