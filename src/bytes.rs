//! Big-endian integer encoding used by the wire formats.
use vstd::prelude::*;
use vstd::arithmetic::power::pow;

verus! {

/// The value of a big-endian byte sequence.
pub open spec fn be_value(s: Seq<u8>) -> nat
    decreases s.len(),
{
    if s.len() == 0 {
        0
    } else {
        be_value(s.drop_last()) * 256 + s.last() as nat
    }
}

/// The `k` low-order base-256 digits of `v`, most significant first.
pub open spec fn be_bytes(v: nat, k: nat) -> Seq<u8>
    decreases k,
{
    if k == 0 {
        Seq::empty()
    } else {
        be_bytes(v / 256, (k - 1) as nat).push((v % 256) as u8)
    }
}

/// Writing `v` on `k` bytes and reading it back gives `v`, when `v` fits.
pub proof fn lemma_be_round_trip(v: nat, k: nat)
    requires
        v < pow(256, k),
    ensures
        be_bytes(v, k).len() == k,
        be_value(be_bytes(v, k)) == v,
    decreases k,
{
    if k == 0 {
        assert(pow(256, 0) == 1) by { vstd::arithmetic::power::lemma_pow0(256) };
    } else {
        let p = pow(256, (k - 1) as nat);
        assert(pow(256, k) == 256 * p) by { vstd::arithmetic::power::lemma_pow_adds(256, 1, (k - 1) as nat); vstd::arithmetic::power::lemma_pow1(256); };
        assert(v / 256 < p) by (nonlinear_arith)
            requires v < 256 * p, p > 0;
        lemma_be_round_trip(v / 256, (k - 1) as nat);
        let s = be_bytes(v, k);
        assert(s.drop_last() =~= be_bytes(v / 256, (k - 1) as nat));
    }
}

/// Reads a `u32` from four big-endian bytes.
pub fn get_u32_from_byte_array(bytes: &[u8]) -> (r: u32)
    requires
        bytes@.len() == 4,
    ensures
        r as nat == be_value(bytes@),
{
    let ghost s = bytes@;
    proof {
        assert(s.drop_last().drop_last().drop_last().drop_last() =~= Seq::<u8>::empty());
        reveal_with_fuel(be_value, 5);
    }
    (bytes[0] as u32) * 0x100_0000 + (bytes[1] as u32) * 0x1_0000 + (bytes[2] as u32) * 0x100
        + (bytes[3] as u32)
}

/// Writes a `u32` as four big-endian bytes.
pub fn get_byte_array_from_u32(input: u32) -> (r: [u8; 4])
    ensures
        r@ == be_bytes(input as nat, 4),
{
    let ghost v = input as nat;
    proof {
        reveal_with_fuel(be_bytes, 5);
        assert(v / 256 / 256 / 256 == v / 0x100_0000);
        assert(v / 256 / 256 == v / 0x1_0000);
    }
    let r = [
        (input / 0x100_0000) as u8,
        (input / 0x1_0000 % 256) as u8,
        (input / 0x100 % 256) as u8,
        (input % 256) as u8,
    ];
    assert(r@ =~= be_bytes(v, 4));
    r
}

} // verus!
