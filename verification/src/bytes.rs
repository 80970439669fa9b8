//! Big-endian integer views over byte buffers, two's-complement
//! conversions, and 4-byte padding arithmetic.
use vstd::prelude::*;
use vstd::pervasive::VecAdditionalExecFns;

verus! {

/// The big-endian 16-bit value of two bytes.
pub open spec fn be16(b1: u8, b0: u8) -> u16 {
    (b1 * 256 + b0) as u16
}

/// The big-endian 32-bit value of four bytes.
pub open spec fn be32(b3: u8, b2: u8, b1: u8, b0: u8) -> u32 {
    (b3 * 0x1000000 + b2 * 0x10000 + b1 * 0x100 + b0) as u32
}

/// The signed (two's complement) reading of a 16-bit value.
pub open spec fn sval16(v: u16) -> int {
    if v < 0x8000 {
        v as int
    } else {
        v as int - 0x10000
    }
}

/// The unsigned (two's complement) 16-bit carrier of a signed value.
pub open spec fn uval16(v: i16) -> u16 {
    if v >= 0 {
        v as u16
    } else {
        (v + 0x10000) as u16
    }
}

/// A signed integer reduced into the 16-bit two's-complement range, as
/// wrapping arithmetic leaves it.
pub open spec fn wrap16(v: int) -> int {
    let m = v % 0x10000;
    if m >= 0x8000 {
        m - 0x10000
    } else {
        m
    }
}

/// The length `n` rounded up to the next multiple of 4.
pub open spec fn pad4(n: int) -> int {
    if n % 4 == 0 {
        n
    } else {
        n + 4 - n % 4
    }
}

/// The high byte of a 16-bit value.
pub open spec fn hi8(x: u16) -> u8 {
    (x / 256) as u8
}

/// The low byte of a 16-bit value.
pub open spec fn lo8(x: u16) -> u8 {
    (x % 256) as u8
}

/// Reads the big-endian 16-bit integer at `pos`.
pub fn get_u16(data: &Vec<u8>, pos: usize) -> (r: u16)
    requires
        pos + 2 <= data@.len(),
    ensures
        r == be16(data@[pos as int], data@[pos as int + 1]),
{
    let n = data.len();
    proof {
        // The length fits in usize, so `pos + 1` cannot overflow.
        assert(pos + 2 <= n);
    }
    (data[pos] as u16) * 256 + (data[pos + 1] as u16)
}

/// Reads the big-endian 32-bit integer at `pos`.
pub fn get_u32(data: &Vec<u8>, pos: usize) -> (r: u32)
    requires
        pos + 4 <= data@.len(),
    ensures
        r == be32(
            data@[pos as int],
            data@[pos as int + 1],
            data@[pos as int + 2],
            data@[pos as int + 3],
        ),
{
    let n = data.len();
    proof {
        // The length fits in usize, so the index sums cannot overflow.
        assert(pos + 4 <= n);
    }
    (data[pos] as u32) * 0x1000000 + (data[pos + 1] as u32) * 0x10000 + (data[pos + 2] as u32)
        * 0x100 + (data[pos + 3] as u32)
}

/// Turns an unsigned 16-bit carrier back into the signed value it encodes.
pub fn to_i16(v: u16) -> (r: i16)
    ensures
        r as int == sval16(v),
        uval16(r) == v,
{
    if v < 0x8000 {
        v as i16
    } else {
        let d: u32 = 0x10000 - (v as u32);
        let n: i32 = -(d as i32);
        n as i16
    }
}

/// Encodes a signed 16-bit value as its unsigned two's-complement carrier.
pub fn to_u16(v: i16) -> (r: u16)
    ensures
        r == uval16(v),
        sval16(r) == v as int,
{
    if v >= 0 {
        v as u16
    } else {
        let d: i32 = (v as i32) + 0x10000;
        d as u16
    }
}

/// Appends a 16-bit integer in big-endian order.
pub fn push_u16(data: &mut Vec<u8>, x: u16)
    ensures
        final(data)@ =~= old(data)@ + seq![hi8(x), lo8(x)],
        final(data)@.len() == old(data)@.len() + 2,
        be16(final(data)@[old(data)@.len() as int], final(data)@[old(data)@.len() as int + 1]) == x,
{
    data.push((x / 256) as u8);
    data.push((x % 256) as u8);
}

/// Appends a 32-bit integer in big-endian order.
pub fn push_u32(data: &mut Vec<u8>, x: u32)
    ensures
        final(data)@.len() == old(data)@.len() + 4,
        forall|i: int| 0 <= i < old(data)@.len() ==> final(data)@[i] == old(data)@[i],
        be32(
            final(data)@[old(data)@.len() as int],
            final(data)@[old(data)@.len() as int + 1],
            final(data)@[old(data)@.len() as int + 2],
            final(data)@[old(data)@.len() as int + 3],
        ) == x,
{
    let r0: u32 = x % 0x100;
    let q0: u32 = x / 0x100;
    let r1: u32 = q0 % 0x100;
    let q1: u32 = q0 / 0x100;
    let r2: u32 = q1 % 0x100;
    let b3: u32 = q1 / 0x100;
    proof {
        assert(x == 0x100 * q0 + r0);
        assert(q0 == 0x100 * q1 + r1);
        assert(q1 == 0x100 * b3 + r2);
    }
    data.push(b3 as u8);
    data.push(r2 as u8);
    data.push(r1 as u8);
    data.push(r0 as u8);
}

/// Overwrites the two bytes at `pos` with a big-endian 16-bit integer.
pub fn set_u16(data: &mut Vec<u8>, pos: usize, x: u16)
    requires
        pos + 2 <= old(data)@.len(),
    ensures
        final(data)@.len() == old(data)@.len(),
        final(data)@ =~= old(data)@.update(pos as int, hi8(x)).update(pos as int + 1, lo8(x)),
        be16(final(data)@[pos as int], final(data)@[pos as int + 1]) == x,
        forall|i: int|
            0 <= i < old(data)@.len() && i != pos && i != pos + 1 ==> final(data)@[i] == old(
                data,
            )@[i],
{
    let n = data.len();
    proof {
        // The length fits in usize, so `pos + 1` cannot overflow.
        assert(pos + 2 <= n);
    }
    data.set(pos, (x / 256) as u8);
    data.set(pos + 1, (x % 256) as u8);
}

/// Reduces a signed 32-bit value into an unsigned 16-bit carrier, as
/// wrapping arithmetic would.
pub fn wrap_u16_of_i32(d: i32) -> (r: u16)
    requires
        -0x10000 <= d < 0x20000,
    ensures
        r as int == (d as int) % 0x10000,
{
    if d < 0 {
        (d + 0x10000) as u16
    } else if d >= 0x10000 {
        (d - 0x10000) as u16
    } else {
        d as u16
    }
}

/// Reduces a signed 32-bit value into the signed 16-bit range, as wrapping
/// arithmetic would.
pub fn wrap_i16_of_i32(d: i32) -> (r: i16)
    requires
        -0x10000 <= d < 0x20000,
    ensures
        r as int == wrap16(d as int),
{
    let m = wrap_u16_of_i32(d);
    to_i16(m)
}

/// Copies the byte range `[start, end)` into a fresh buffer.
pub fn sub_bytes(data: &Vec<u8>, start: usize, end: usize) -> (r: Vec<u8>)
    requires
        start <= end <= data@.len(),
    ensures
        r@ =~= data@.subrange(start as int, end as int),
{
    let mut out: Vec<u8> = Vec::new();
    let mut i: usize = start;
    while i < end
        invariant
            start <= i <= end <= data@.len(),
            out@ =~= data@.subrange(start as int, i as int),
        decreases end - i,
    {
        out.push(data[i]);
        proof {
            assert(out@ =~= data@.subrange(start as int, i as int + 1));
        }
        i = i + 1;
    }
    out
}

/// Appends the whole contents of `src`.
pub fn push_bytes(dst: &mut Vec<u8>, src: &Vec<u8>)
    ensures
        final(dst)@ =~= old(dst)@ + src@,
{
    let n = src.len();
    let mut i: usize = 0;
    while i < n
        invariant
            n == src@.len(),
            i <= n,
            dst@ =~= old(dst)@ + src@.take(i as int),
        decreases n - i,
    {
        dst.push(src[i]);
        proof {
            assert(dst@ =~= old(dst)@ + src@.take(i as int + 1));
        }
        i = i + 1;
    }
    proof {
        assert(src@.take(n as int) =~= src@);
    }
}

/// Appends `count` explicit zero bytes.
pub fn push_zeros(dst: &mut Vec<u8>, count: u32)
    ensures
        final(dst)@.len() == old(dst)@.len() + count,
        forall|i: int| 0 <= i < old(dst)@.len() ==> final(dst)@[i] == old(dst)@[i],
        forall|i: int|
            old(dst)@.len() <= i < final(dst)@.len() ==> final(dst)@[i] == 0,
{
    let mut i: u32 = 0;
    while i < count
        invariant
            i <= count,
            dst@.len() == old(dst)@.len() + i,
            forall|j: int| 0 <= j < old(dst)@.len() ==> dst@[j] == old(dst)@[j],
            forall|j: int| old(dst)@.len() <= j < dst@.len() ==> dst@[j] == 0,
        decreases count - i,
    {
        dst.push(0);
        i = i + 1;
    }
}

/// Computes the number of zero bytes that pad a record of length `n` to a
/// 4-byte boundary.
pub fn padlen4(n: u32) -> (r: u32)
    ensures
        n + r == pad4(n as int),
        r < 4,
        pad4(n as int) % 4 == 0,
{
    let m = n % 4;
    proof {
        assert((n as int) % 4 == (n % 4) as int);
        if m != 0 {
            assert((n + 4 - m) % 4 == 0) by {
                let v = n as int;
                assert((v + (4 - v % 4)) % 4 == 0) by (nonlinear_arith);
            }
        }
    }
    if m != 0 {
        4 - m
    } else {
        0
    }
}

} // verus!
