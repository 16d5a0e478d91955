use vstd::prelude::*;

verus! {

/// The four little-endian bytes of `n`.
pub open spec fn le32(n: u32) -> Seq<u8> {
    seq![
        (n % 256) as u8,
        ((n / 256) % 256) as u8,
        ((n / 65536) % 256) as u8,
        (n / 16777216) as u8,
    ]
}

/// The number that four little-endian bytes stand for.
pub open spec fn le32_value(b: Seq<u8>) -> int
    recommends
        b.len() == 4,
{
    b[0] + 256 * b[1] + 65536 * b[2] + 16777216 * b[3]
}

/// Reading back the bytes of a number gives the number.
pub proof fn lemma_le32_value_of_le32(n: u32)
    ensures
        le32_value(le32(n)) == n,
        le32(n).len() == 4,
{
    let b = le32(n);
    let x = n as int;
    assert(b[0] == x % 256);
    assert(b[1] == (x / 256) % 256);
    assert(b[2] == (x / 65536) % 256);
    assert(b[3] == x / 16777216);
    assert(x == x % 256 + 256 * ((x / 256) % 256) + 65536 * ((x / 65536) % 256) + 16777216 * (x / 16777216)) by (nonlinear_arith)
        requires 0 <= x < 0x1_0000_0000,
    {
    }
}

/// Any four bytes are the bytes of the number that they stand for.
pub proof fn lemma_le32_of_le32_value(b: Seq<u8>)
    requires
        b.len() == 4,
    ensures
        le32_value(b) <= u32::MAX,
        le32(le32_value(b) as u32) == b,
{
    let (b0, b1, b2, b3) = (b[0] as int, b[1] as int, b[2] as int, b[3] as int);
    let x = b0 + 256 * b1 + 65536 * b2 + 16777216 * b3;
    assert(0 <= x <= u32::MAX && x % 256 == b0 && (x / 256) % 256 == b1 && (x / 65536) % 256 == b2 && x / 16777216 == b3) by (nonlinear_arith)
        requires 0 <= b0 < 256, 0 <= b1 < 256, 0 <= b2 < 256, 0 <= b3 < 256, x == b0 + 256 * b1 + 65536 * b2 + 16777216 * b3,
    {
    }
    assert(le32(x as u32) =~= b);
}

/// Appends the four little-endian bytes of `n` to `out`.
pub fn push_le32(out: &mut Vec<u8>, n: u32)
    ensures
        final(out)@ == old(out)@ + le32(n),
{
    out.push((n % 256) as u8);
    out.push(((n / 256) % 256) as u8);
    out.push(((n / 65536) % 256) as u8);
    out.push((n / 16777216) as u8);
    assert(out@ =~= old(out)@ + le32(n));
}

/// Reads the little-endian number in `b[pos..pos + 4]`.
pub fn read_le32(b: &[u8], pos: usize) -> (r: u32)
    requires
        pos + 4 <= b@.len(),
    ensures
        r == le32_value(b@.subrange(pos as int, pos + 4)),
{
    let x: u32 = b[pos] as u32 + 256 * (b[pos + 1] as u32) + 65536 * (b[pos + 2] as u32) + 16777216 * (b[pos + 3] as u32);
    x
}

} // verus!
