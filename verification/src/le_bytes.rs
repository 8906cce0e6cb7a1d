//! Little-endian integers as byte sequences.

use vstd::prelude::*;

verus! {

/// 256 to the power `n`.
pub open spec fn pow256(n: nat) -> nat
    decreases n,
{
    if n == 0 {
        1
    } else {
        256 * pow256((n - 1) as nat)
    }
}

/// The `width` low-order bytes of `value`, least significant first.
pub open spec fn le_bytes(value: nat, width: nat) -> Seq<u8> {
    Seq::new(width, |i: int| ((value / pow256(i as nat)) % 256) as u8)
}

/// Unfolding of [`le_bytes`]: the first byte is `value % 256`, the rest are
/// the bytes of `value / 256`.
pub proof fn lemma_le_bytes_step(value: nat, width: nat)
    requires
        width > 0,
    ensures
        le_bytes(value, width) =~= seq![(value % 256) as u8] + le_bytes(value / 256, (width - 1) as nat),
{
    let lhs = le_bytes(value, width);
    let rhs = seq![(value % 256) as u8] + le_bytes(value / 256, (width - 1) as nat);
    assert(lhs.len() == rhs.len());
    assert forall|i: int| 0 <= i < width implies lhs[i] == rhs[i] by {
        if i == 0 {
            assert(pow256(0) == 1);
        } else {
            let k = (i - 1) as nat;
            assert(pow256(i as nat) == 256 * pow256(k));
            lemma_pow256_pos(k);
            vstd::arithmetic::div_mod::lemma_div_denominator(value as int, 256, pow256(k) as int);
            assert(rhs[i] == le_bytes(value / 256, (width - 1) as nat)[i - 1]);
        }
    }
}

/// Every power of 256 is positive.
pub proof fn lemma_pow256_pos(n: nat)
    ensures
        pow256(n) > 0,
    decreases n,
{
    if n > 0 {
        lemma_pow256_pos((n - 1) as nat);
    }
}

/// Appends the `width` low-order bytes of `value` to `target`, least
/// significant first.
pub fn push_le(target: &mut Vec<u8>, value: u64, width: usize)
    ensures
        final(target)@ == old(target)@ + le_bytes(value as nat, width as nat),
{
    let mut rest: u64 = value;
    let mut done: usize = 0;
    while done < width
        invariant
            done <= width,
            target@ + le_bytes(rest as nat, (width - done) as nat) == old(target)@ + le_bytes(
                value as nat,
                width as nat,
            ),
        decreases width - done,
    {
        proof {
            lemma_le_bytes_step(rest as nat, (width - done) as nat);
        }
        let ghost before = target@;
        target.push((rest % 256) as u8);
        assert(target@ + le_bytes((rest / 256) as nat, (width - done - 1) as nat) =~= before
            + le_bytes(rest as nat, (width - done) as nat));
        rest = rest / 256;
        done = done + 1;
    }
    assert(le_bytes(rest as nat, 0) =~= Seq::<u8>::empty());
    assert(target@ + Seq::<u8>::empty() =~= target@);
}

/// The number that `bytes` spell, least significant byte first.
pub open spec fn le_value(bytes: Seq<u8>) -> nat
    decreases bytes.len(),
{
    if bytes.len() == 0 {
        0
    } else {
        bytes[0] as nat + 256 * le_value(bytes.skip(1))
    }
}

/// The number that `width` bytes spell is below `256^width`.
pub proof fn lemma_le_value_bound(bytes: Seq<u8>)
    ensures
        le_value(bytes) < pow256(bytes.len()),
    decreases bytes.len(),
{
    if bytes.len() > 0 {
        lemma_le_value_bound(bytes.skip(1));
    }
}

/// The bytes of a number spell that number, less what did not fit in them.
pub proof fn lemma_le_value_of_bytes(value: nat, width: nat)
    ensures
        le_value(le_bytes(value, width)) == value % pow256(width),
    decreases width,
{
    if width == 0 {
    } else {
        let rest = (width - 1) as nat;
        lemma_le_bytes_step(value, width);
        let bytes = le_bytes(value, width);
        assert(bytes.skip(1) =~= le_bytes(value / 256, rest));
        lemma_le_value_of_bytes(value / 256, rest);
        lemma_pow256_pos(rest);
        let q = (value / 256) / pow256(rest);
        let r = (value / 256) % pow256(rest);
        vstd::arithmetic::div_mod::lemma_fundamental_div_mod(
            (value / 256) as int,
            pow256(rest) as int,
        );
        assert(value == q * (256 * pow256(rest)) + (256 * r + value % 256)) by (nonlinear_arith)
            requires
                value / 256 == pow256(rest) * q + r,
                value == 256 * (value / 256) + value % 256,
        ;
        vstd::arithmetic::div_mod::lemma_fundamental_div_mod_converse(
            value as int,
            (256 * pow256(rest)) as int,
            q as int,
            (256 * r + value % 256) as int,
        );
    }
}

/// The first eight powers of 256.
pub proof fn lemma_pow256_values()
    ensures
        pow256(0) == 1,
        pow256(1) == 0x100,
        pow256(2) == 0x1_0000,
        pow256(3) == 0x100_0000,
        pow256(4) == 0x1_0000_0000,
        pow256(5) == 0x100_0000_0000,
        pow256(6) == 0x1_0000_0000_0000,
        pow256(7) == 0x100_0000_0000_0000,
        pow256(8) == 0x1_0000_0000_0000_0000,
{
    reveal_with_fuel(pow256, 10);
}

/// The number that at most eight bytes spell, least significant byte first.
pub fn read_le(bytes: &[u8]) -> (value: u64)
    requires
        bytes@.len() <= 8,
    ensures
        value == le_value(bytes@),
{
    let mut value: u64 = 0;
    let mut left: usize = bytes.len();
    assert(bytes@.skip(left as int) =~= Seq::<u8>::empty());
    while left > 0
        invariant
            left <= bytes@.len() <= 8,
            value == le_value(bytes@.skip(left as int)),
        decreases left,
    {
        left = left - 1;
        proof {
            let tail = bytes@.skip(left as int);
            assert(tail.skip(1) =~= bytes@.skip(left as int + 1));
            lemma_le_value_bound(tail.skip(1));
            lemma_pow256_values();
            lemma_pow256_monotonic(tail.skip(1).len(), 7);
        }
        value = value * 256 + bytes[left] as u64;
    }
    assert(bytes@.skip(0) =~= bytes@);
    value
}

/// Powers of 256 grow with the exponent.
pub proof fn lemma_pow256_monotonic(low: nat, high: nat)
    requires
        low <= high,
    ensures
        pow256(low) <= pow256(high),
    decreases high,
{
    if low < high {
        lemma_pow256_monotonic(low, (high - 1) as nat);
    }
}

} // verus!
