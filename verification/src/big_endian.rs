//! Big-endian encoding of unsigned integers into byte strings.
//!
//! The encoding is defined once for every width: [`be_bytes`] gives the bytes
//! of a number, most significant first, and [`be_value`] reads them back.

use vstd::prelude::*;
use vstd::arithmetic::div_mod::lemma_div_denominator;

verus! {

/// The number of values that `width` bytes can tell apart: 256 to the `width`.
pub open spec fn radix(width: nat) -> nat
    decreases width,
{
    if width == 0 {
        1
    } else {
        256 * radix((width - 1) as nat)
    }
}

/// The `width` low-order bytes of `value`, most significant first.
pub open spec fn be_bytes(value: nat, width: nat) -> Seq<u8>
    decreases width,
{
    if width == 0 {
        Seq::empty()
    } else {
        be_bytes(value / 256, (width - 1) as nat).push((value % 256) as u8)
    }
}

/// The number that `bytes` spells when read most significant byte first.
pub open spec fn be_value(bytes: Seq<u8>) -> nat
    decreases bytes.len(),
{
    if bytes.len() == 0 {
        0
    } else {
        be_value(bytes.drop_last()) * 256 + bytes.last() as nat
    }
}

pub proof fn lemma_radix_positive(width: nat)
    ensures
        radix(width) > 0,
    decreases width,
{
    if width > 0 {
        lemma_radix_positive((width - 1) as nat);
    }
}

/// The radix grows with the width.
pub proof fn lemma_radix_at_most(narrow: nat, wide: nat)
    requires
        narrow <= wide,
    ensures
        radix(narrow) <= radix(wide),
    decreases wide,
{
    if narrow < wide {
        lemma_radix_at_most(narrow, (wide - 1) as nat);
    }
}

/// The radix of the widths that the wire formats use.
pub proof fn lemma_radix_values()
    ensures
        radix(0) == 1,
        radix(1) == 0x100,
        radix(2) == 0x1_0000,
        radix(4) == 0x1_0000_0000,
        radix(8) == 0x1_0000_0000_0000_0000,
{
    reveal_with_fuel(radix, 9);
}

pub proof fn lemma_be_bytes_len(value: nat, width: nat)
    ensures
        be_bytes(value, width).len() == width,
    decreases width,
{
    if width > 0 {
        lemma_be_bytes_len(value / 256, (width - 1) as nat);
    }
}

/// Byte `index` of an encoding is the base-256 digit of that weight.
pub proof fn lemma_be_bytes_index(value: nat, width: nat, index: int)
    requires
        0 <= index < width,
    ensures
        be_bytes(value, width).len() == width,
        be_bytes(value, width)[index] as nat == (value / radix((width - 1 - index) as nat)) % 256,
    decreases width,
{
    lemma_be_bytes_len(value, width);
    lemma_be_bytes_len(value / 256, (width - 1) as nat);
    if index == width - 1 {
        assert(radix(0) == 1);
        assert(value as int / 1 == value);
    } else {
        let weight = radix((width - 2 - index) as nat);
        lemma_be_bytes_index(value / 256, (width - 1) as nat, index);
        lemma_radix_positive((width - 2 - index) as nat);
        lemma_div_denominator(value as int, 256, weight as int);
        assert(radix((width - 1 - index) as nat) == 256 * weight);
        assert(be_bytes(value, width)[index] == be_bytes(value / 256, (width - 1) as nat)[index]);
    }
}

pub proof fn lemma_be_value_bound(bytes: Seq<u8>)
    ensures
        be_value(bytes) < radix(bytes.len()),
    decreases bytes.len(),
{
    if bytes.len() > 0 {
        lemma_be_value_bound(bytes.drop_last());
    }
}

/// Reading back an encoding gives the number that was encoded.
pub proof fn lemma_be_value_of_bytes(value: nat, width: nat)
    requires
        value < radix(width),
    ensures
        be_value(be_bytes(value, width)) == value,
    decreases width,
{
    if width > 0 {
        let head = be_bytes(value / 256, (width - 1) as nat);
        lemma_be_value_of_bytes(value / 256, (width - 1) as nat);
        assert(be_bytes(value, width).drop_last() =~= head);
    }
}

/// Encoding what a byte string spells gives the byte string back.
pub proof fn lemma_be_bytes_of_value(bytes: Seq<u8>)
    ensures
        be_bytes(be_value(bytes), bytes.len()) == bytes,
    decreases bytes.len(),
{
    if bytes.len() > 0 {
        lemma_be_bytes_of_value(bytes.drop_last());
        assert(be_bytes(be_value(bytes), bytes.len()) =~= bytes);
    } else {
        assert(be_bytes(be_value(bytes), bytes.len()) =~= bytes);
    }
}

/// Reads the `width` bytes at `offset` as one big-endian number.
pub(crate) fn load_be(buffer: &[u8], offset: usize, width: usize) -> (value: u64)
    requires
        width <= 8,
        offset + width <= buffer.len(),
    ensures
        value == be_value(buffer@.subrange(offset as int, offset + width)),
{
    let mut value: u64 = 0;
    let mut taken: usize = 0;
    proof {
        lemma_radix_values();
    }
    while taken < width
        invariant
            taken <= width <= 8,
            offset + width <= buffer.len(),
            value == be_value(buffer@.subrange(offset as int, offset + taken)),
            value < radix(taken as nat),
            radix(8) == 0x1_0000_0000_0000_0000,
        decreases width - taken,
    {
        let byte = buffer[offset + taken];
        proof {
            let before = buffer@.subrange(offset as int, offset + taken);
            let after = buffer@.subrange(offset as int, offset + taken + 1);
            assert(after.drop_last() =~= before);
            assert(after.last() == byte);
            lemma_radix_at_most(taken as nat + 1, 8);
        }
        value = value * 256 + byte as u64;
        taken = taken + 1;
    }
    value
}

/// Writes `value` over the `width` bytes at `offset`, most significant byte
/// first, and leaves every other byte as it was.
pub(crate) fn store_be(buffer: &mut [u8], offset: usize, width: usize, value: u64)
    requires
        width <= 8,
        offset + width <= old(buffer).len(),
    ensures
        final(buffer)@.len() == old(buffer)@.len(),
        final(buffer)@ == old(buffer)@.subrange(0, offset as int) + be_bytes(
            value as nat,
            width as nat,
        ) + old(buffer)@.subrange(offset + width, old(buffer)@.len() as int),
{
    let ghost before = buffer@;
    let mut rest: u64 = value;
    let mut left: usize = width;
    assert(radix(0) == 1 && value as nat / 1 == value as nat);
    while left > 0
        invariant
            left <= width <= 8,
            offset + width <= before.len() <= usize::MAX,
            buffer@.len() == before.len(),
            rest as nat == value as nat / radix((width - left) as nat),
            forall|i: int| 0 <= i < offset + left ==> buffer@[i] == before[i],
            forall|i: int| offset + width <= i < before.len() ==> buffer@[i] == before[i],
            forall|i: int|
                left <= i < width ==> #[trigger] buffer@[offset + i] == be_bytes(
                    value as nat,
                    width as nat,
                )[i],
        decreases left,
    {
        left = left - 1;
        proof {
            let weight = radix((width - 1 - left) as nat);
            lemma_be_bytes_index(value as nat, width as nat, left as int);
            lemma_radix_positive((width - 1 - left) as nat);
            lemma_div_denominator(value as int, weight as int, 256);
            assert(radix((width - left) as nat) == 256 * weight);
            assert(weight * 256 == 256 * weight);
        }
        buffer[offset + left] = (rest % 256) as u8;
        rest = rest / 256;
    }
    proof {
        lemma_be_bytes_len(value as nat, width as nat);
        let expected = before.subrange(0, offset as int) + be_bytes(value as nat, width as nat)
            + before.subrange(offset + width, before.len() as int);
        assert forall|i: int| 0 <= i < before.len() implies buffer@[i] == expected[i] by {
            if offset <= i < offset + width {
                assert(buffer@[offset + (i - offset)] == be_bytes(value as nat, width as nat)[i
                    - offset]);
            }
        }
        assert(buffer@ =~= expected);
    }
}

} // verus!
