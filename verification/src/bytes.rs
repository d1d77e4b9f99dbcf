//! Little-endian numbers.
use vstd::prelude::*;

verus! {

/// The low `width` bytes of a number, lowest byte first.
pub open spec fn le_bytes(value: nat, width: nat) -> Seq<u8>
    decreases width,
{
    if width == 0 {
        Seq::empty()
    } else {
        seq![(value % 256) as u8] + le_bytes(value / 256, (width - 1) as nat)
    }
}

/// The number whose bytes are `bytes`, lowest byte first.
pub open spec fn le_value(bytes: Seq<u8>) -> nat
    decreases bytes.len(),
{
    if bytes.len() == 0 {
        0
    } else {
        bytes[0] as nat + 256 * le_value(bytes.skip(1))
    }
}

/// One more than the largest number that fits in `width` bytes.
pub open spec fn le_limit(width: nat) -> nat
    decreases width,
{
    if width == 0 {
        1
    } else {
        256 * le_limit((width - 1) as nat)
    }
}

/// Reading back what was written gives the number, and writing back what was read gives the
/// bytes.
pub proof fn lemma_le_round_trip(value: nat, bytes: Seq<u8>)
    ensures
        value < le_limit(bytes.len()) ==> le_value(le_bytes(value, bytes.len())) == value,
        le_bytes(value, bytes.len()).len() == bytes.len(),
        le_bytes(le_value(bytes), bytes.len()) == bytes,
        le_value(bytes) < le_limit(bytes.len()),
    decreases bytes.len(),
{
    if bytes.len() > 0 {
        lemma_le_round_trip(value / 256, bytes.skip(1));
        let written = le_bytes(value, bytes.len());
        assert(written.skip(1) =~= le_bytes(value / 256, (bytes.len() - 1) as nat));
        let back = le_bytes(le_value(bytes), bytes.len());
        assert(le_value(bytes) / 256 == le_value(bytes.skip(1)));
        assert(back =~= bytes);
    }
}

/// The limits of the widths in use.
pub proof fn lemma_le_limits()
    ensures
        le_limit(2) == 0x1_0000,
        le_limit(4) == 0x1_0000_0000,
{
    reveal_with_fuel(le_limit, 5);
}

/// Appends the low `width` bytes of `value`, lowest byte first.
pub fn push_le(out: &mut Vec<u8>, value: u32, width: usize)
    ensures
        final(out)@ == old(out)@ + le_bytes(value as nat, width as nat),
{
    let mut rest: u32 = value;
    let mut n: usize = width;
    assert(out@ + le_bytes(rest as nat, 0) =~= out@);
    while n > 0
        invariant
            n <= width,
            out@ + le_bytes(rest as nat, n as nat) == old(out)@ + le_bytes(
                value as nat,
                width as nat,
            ),
        decreases n,
    {
        let ghost was = out@;
        out.push((rest % 256) as u8);
        assert(was + le_bytes(rest as nat, n as nat) =~= out@ + le_bytes(
            (rest / 256) as nat,
            (n - 1) as nat,
        ));
        rest = rest / 256;
        n = n - 1;
    }
    assert(out@ + le_bytes(rest as nat, 0) =~= out@);
}

/// Reads `width` bytes from `at`, lowest byte first.
pub fn read_le(bytes: &[u8], at: usize, width: usize) -> (value: u32)
    requires
        at + width <= bytes@.len(),
        width <= 4,
    ensures
        value == le_value(bytes@.subrange(at as int, at + width)),
{
    proof {
        lemma_le_limits();
        reveal_with_fuel(le_limit, 5);
        lemma_le_round_trip(0, bytes@.subrange(at as int, at + width));
    }
    let mut value: u32 = 0;
    let mut n: usize = width;
    let end: usize = bytes.len();
    while n > 0
        invariant
            at + width <= end,
            end == bytes@.len(),
            n <= width,
            width <= 4,
            value == le_value(bytes@.subrange(at + n, at + width)),
        decreases n,
    {
        let ghost tail = bytes@.subrange(at + n - 1, at + width);
        proof {
            lemma_le_round_trip(0, tail);
            reveal_with_fuel(le_limit, 5);
            assert(tail.skip(1) =~= bytes@.subrange(at + n, at + width));
        }
        value = bytes[at + n - 1] as u32 + 256 * value;
        n = n - 1;
    }
    value
}

/// Two and four bytes hold a number lowest byte first.
pub proof fn numbers_are_stored_lowest_byte_first(value: nat)
    ensures
        le_bytes(value, 2) == seq![(value % 256) as u8, (value / 256 % 256) as u8],
        le_bytes(value, 4) == seq![
            (value % 256) as u8,
            (value / 256 % 256) as u8,
            (value / 65536 % 256) as u8,
            (value / 16777216 % 256) as u8,
        ],
{
    reveal_with_fuel(le_bytes, 5);
    assert(value / 256 / 256 == value / 65536);
    assert(value / 256 / 256 / 256 == value / 16777216);
    assert(le_bytes(value, 2) =~= seq![(value % 256) as u8, (value / 256 % 256) as u8]);
    assert(le_bytes(value, 4) =~= seq![
        (value % 256) as u8,
        (value / 256 % 256) as u8,
        (value / 65536 % 256) as u8,
        (value / 16777216 % 256) as u8,
    ]);
}

} // verus!
