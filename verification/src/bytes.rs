//! Little-endian byte encodings of integers.

use vstd::prelude::*;

verus! {

/// `256` to the power `width`: the number of values that `width` bytes hold.
pub open spec fn byte_span(width: nat) -> nat
    decreases width,
{
    if width == 0 {
        1
    } else {
        256 * byte_span((width - 1) as nat)
    }
}

/// The lowest `width` bytes of `x`, least significant first.
pub open spec fn le_bytes(x: nat, width: nat) -> Seq<u8>
    decreases width,
{
    if width == 0 {
        Seq::empty()
    } else {
        seq![(x % 256) as u8] + le_bytes(x / 256, (width - 1) as nat)
    }
}

/// The unsigned number whose `width` bytes are the two's complement of `x`.
pub open spec fn twos_complement(x: int, width: nat) -> nat {
    if x < 0 {
        (x + byte_span(width)) as nat
    } else {
        x as nat
    }
}

/// `width` bytes are that many.
pub proof fn lemma_le_bytes_len(x: nat, width: nat)
    ensures
        le_bytes(x, width).len() == width,
    decreases width,
{
    if width > 0 {
        lemma_le_bytes_len(x / 256, (width - 1) as nat);
    }
}

/// Numbers that fit in `width` bytes are told apart by those bytes.
pub proof fn lemma_le_bytes_injective(x: nat, y: nat, width: nat)
    requires
        x < byte_span(width),
        y < byte_span(width),
        le_bytes(x, width) == le_bytes(y, width),
    ensures
        x == y,
    decreases width,
{
    if width > 0 {
        let w = (width - 1) as nat;
        let a = le_bytes(x, width);
        let b = le_bytes(y, width);
        assert(a[0] == (x % 256) as u8);
        assert(b[0] == (y % 256) as u8);
        assert(a.skip(1) =~= le_bytes(x / 256, w));
        assert(b.skip(1) =~= le_bytes(y / 256, w));
        lemma_le_bytes_injective(x / 256, y / 256, w);
    }
}

/// How many values the widths in use hold.
pub proof fn lemma_byte_spans()
    ensures
        byte_span(1) == 0x100,
        byte_span(2) == 0x1_0000,
        byte_span(4) == 0x1_0000_0000,
        byte_span(8) == 0x1_0000_0000_0000_0000,
        byte_span(16) == 0x1_0000_0000_0000_0000_0000_0000_0000_0000,
{
    reveal_with_fuel(byte_span, 17);
}

/// Writes the lowest `width` bytes of `x`, least significant first.
pub fn to_le_bytes(x: u128, width: usize) -> (out: Vec<u8>)
    ensures
        out@ == le_bytes(x as nat, width as nat),
{
    let mut out: Vec<u8> = Vec::new();
    let mut rest: u128 = x;
    let mut i: usize = 0;
    while i < width
        invariant
            i <= width,
            out@ + le_bytes(rest as nat, (width - i) as nat) == le_bytes(x as nat, width as nat),
        decreases width - i,
    {
        let ghost tail = le_bytes(rest as nat, (width - i) as nat);
        let ghost before = out@;
        out.push((rest % 256) as u8);
        rest = rest / 256;
        i += 1;
        assert(out@ + le_bytes(rest as nat, (width - i) as nat) =~= before + tail);
    }
    assert(out@ + le_bytes(rest as nat, 0) =~= out@);
    out
}

/// The number that bytes stand for, least significant first.
pub open spec fn number_from(bytes: Seq<u8>) -> int
    decreases bytes.len(),
{
    if bytes.len() == 0 {
        0
    } else {
        bytes[0] + 256 * number_from(bytes.drop_first())
    }
}

/// Bytes read back as the number that they were written for, in the width they were written in.
pub proof fn law_bytes_read_back(x: nat, width: nat)
    requires
        x < byte_span(width),
    ensures
        le_bytes(x, width).len() == width,
        number_from(le_bytes(x, width)) == x,
    decreases width,
{
    lemma_le_bytes_len(x, width);
    if width > 0 {
        let rest = le_bytes(x / 256, (width - 1) as nat);
        law_bytes_read_back(x / 256, (width - 1) as nat);
        assert(le_bytes(x, width).drop_first() =~= rest);
    }
}

} // verus!
